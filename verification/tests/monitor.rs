use forest_router::config::{default_monitor_schedule, validate_monitor_schedule};
use forest_router::config::{Config, Monitor, MonitorPeriod};
use forest_router::json;
use forest_router::json::Json;
use forest_router::monitor::{
    chat_url, judge, next, next_date, publish, publish_at, question, read_reply, settle, settle_at,
    settle_by, summary_cards, Round, CANDY,
};
use forest_router::state::{Quality, State};

fn monitor(id: &str, name: &str) -> Monitor {
    Monitor {
        id: id.into(),
        name: name.into(),
        base_url: "http://localhost".into(),
        key: "secret".into(),
        model: "test".into(),
    }
}

fn config(monitors: Vec<Monitor>) -> Config {
    Config {
        listen: "0.0.0.0:8119".into(),
        api_key: "test".into(),
        admin_password_hash: String::new(),
        webhook: String::new(),
        use_system_proxy: false,
        notify_all_monitors: false,
        employee_keys: Json::Array(vec![]),
        models: vec![],
        monitors,
        monitor_schedule: default_monitor_schedule(),
    }
}

fn verdict(state: &mut State, id: &str, verdict: &str) {
    state
        .quality
        .insert(id.into(), Quality { verdict: verdict.into(), ..Default::default() });
}

fn round(done: &[&str], seconds: &[&str]) -> Round {
    Round {
        done: done.iter().map(|s| s.to_string()).collect(),
        seconds: seconds.iter().map(|s| s.to_string()).collect(),
    }
}

fn template(card: &Json) -> String {
    match json::at(json::at(Some(card), "header"), "template") {
        Some(Json::Text(t)) => t.clone(),
        _ => String::new(),
    }
}

fn seconds_since_1970(text: &str) -> i64 {
    chrono::DateTime::parse_from_rfc3339(text).unwrap().timestamp()
}

#[test]
fn summary_keeps_unknown_and_stale_results_separate() {
    let cfg = config(vec![monitor("a", "A"), monitor("b", "B")]);
    assert!(!cfg.notify_all_monitors);
    let mut state = State::default();
    verdict(&mut state, "a", "healthy");
    verdict(&mut state, "b", "healthy");
    let cards = summary_cards(&cfg, &state, &round(&["a"], &["", ""]), 0);
    assert_eq!(template(&cards[0]), "orange");
    assert!(cards[0].render().contains("本轮未检测"));
    assert!(!cards[0].render().contains("secret"));
    verdict(&mut state, "b", "degraded");
    assert_eq!(
        template(&summary_cards(&cfg, &state, &round(&["a", "b"], &["", ""]), 0)[0]),
        "red"
    );
    verdict(&mut state, "b", "unknown");
    assert_eq!(
        template(&summary_cards(&cfg, &state, &round(&["a", "b"], &["", ""]), 0)[0]),
        "orange"
    );
}

#[test]
fn answer_boundaries() {
    for t in ["21", "答案为21。", "x21x"] {
        assert!(judge(t));
    }
    for t in ["121", "210", "２０２１", ""] {
        assert!(!judge(t));
    }
}

#[test]
fn custom_schedule_and_validation() {
    let periods = vec![MonitorPeriod { start: 1410, end: 90, interval_minutes: 15 }];
    assert!(validate_monitor_schedule(&periods).is_ok());
    for (from, to) in [
        ("2026-09-22T23:31:00+08:00", "2026-09-22T23:45:00+08:00"),
        ("2026-09-22T23:59:00+08:00", "2026-09-23T00:00:00+08:00"),
        ("2026-09-23T01:30:00+08:00", "2026-09-23T01:40:00+08:00"),
    ] {
        assert_eq!(next(seconds_since_1970(from), &periods), seconds_since_1970(to));
    }
    let mut overlap = periods.clone();
    overlap.push(MonitorPeriod { start: 0, end: 60, interval_minutes: 5 });
    assert!(validate_monitor_schedule(&overlap).is_err());
    assert!(
        validate_monitor_schedule(&[MonitorPeriod { start: 0, end: 0, interval_minutes: 0 }])
            .is_err()
    );
    assert!(
        validate_monitor_schedule(&[MonitorPeriod { start: 0, end: 0, interval_minutes: 1440 }])
            .is_ok()
    );
}

#[test]
fn schedule_boundaries() {
    for (s, e) in [
        ("2026-09-22T08:59:00+08:00", "2026-09-22T09:00:00+08:00"),
        ("2026-09-22T22:59:00+08:00", "2026-09-22T23:00:00+08:00"),
        ("2026-09-22T04:00:00+08:00", "2026-09-22T05:00:00+08:00"),
        ("2026-09-22T06:59:00+08:00", "2026-09-22T07:00:00+08:00"),
    ] {
        assert_eq!(
            next(seconds_since_1970(s), &default_monitor_schedule()),
            seconds_since_1970(e)
        );
    }
}

#[test]
fn schedules_without_a_due_minute_wait_a_day() {
    let never = [MonitorPeriod { start: 0, end: 1, interval_minutes: 1440 }];
    assert_eq!(next(0, &never), 1200);
    let empty: [MonitorPeriod; 0] = [];
    assert_eq!(next(-61, &empty), 0);
    assert_eq!(next(0, &empty), 1200);
}

#[test]
fn chat_addresses_are_completed() {
    for (base, url) in [
        ("http://h", "http://h/v1/chat/completions"),
        ("http://h/v1/", "http://h/v1/chat/completions"),
        ("http://h/v1/responses", "http://h/v1/chat/completions"),
        ("http://h/v1/chat/completions", "http://h/v1/chat/completions"),
    ] {
        assert_eq!(chat_url(base), url);
    }
}

#[test]
fn questions_ask_for_the_candy() {
    let q = question(&monitor("a", "A")).render();
    assert!(q.starts_with(r#"{"model":"test","messages":[{"role":"user","content":""#));
    assert!(q.ends_with(r#""stream":false,"thinking":{"type":"enabled"},"reasoning_effort":"low"}"#));
    assert!(!q.contains("secret"));
    assert!(CANDY.contains("最少取出多少个糖果"));
}

#[test]
fn replies_are_judged() {
    let read = |t: &str| read_reply(&json::parse(t.as_bytes()).unwrap());
    assert_eq!(read(r#"{"choices":[{"message":{"content":"21"}}]}"#), Ok(true));
    assert_eq!(read(r#"{"choices":[{"message":{"content":"20"}}]}"#), Ok(false));
    assert_eq!(
        read(r#"{"choices":[{"message":{"content":"21"},"finish_reason":"length"}]}"#),
        Err("检测答案被截断".into())
    );
    for t in [r#"{}"#, r#"{"choices":[]}"#, r#"{"choices":[{"message":{"content":""}}]}"#] {
        assert_eq!(read(t), Err("检测响应缺少答案".into()));
    }
}

#[test]
fn checks_settle_into_the_state() {
    let mut cfg = config(vec![monitor("a", "A")]);
    cfg.webhook = "http://hook".into();
    let mut state = State::default();
    let now = seconds_since_1970("2026-09-22T12:01:00+08:00");
    settle_at(&mut state, &cfg, &cfg.monitors[0], Ok(true), 1234, now, 1);
    let q = state.quality.get("a").unwrap();
    assert_eq!((q.verdict.as_str(), q.last_definite.as_str()), ("healthy", "healthy"));
    assert_eq!(q.next_at, now + 240);
    assert_eq!((q.valid_until, q.checked_at), (q.next_at + 300, now));
    assert_eq!(q.response_ms, Some(1234));
    assert_eq!(state.events[0].message, "监控 A：满血");
    settle_at(&mut state, &cfg, &cfg.monitors[0], Err("x".into()), 5, now, 2);
    let q = state.quality.get("a").unwrap();
    assert_eq!((q.verdict.as_str(), q.last_definite.as_str()), ("unknown", "healthy"));
    assert_eq!((q.error.as_str(), q.response_ms), ("x", None));
    assert_eq!(state.events[1].message, "监控 A：检测异常，保留未过期的上次结论");
    assert!(state.notices.is_empty());
    settle_at(&mut state, &cfg, &cfg.monitors[0], Ok(false), 5, now, 3);
    assert_eq!(
        state.notices[0].message,
        "降智提醒：A（a）已从满血变为降智，关联渠道暂停使用。"
    );
    assert_eq!(state.notices[0].id, "0000000000000003");
    assert_eq!(state.events.len(), 3);
    settle_at(&mut state, &cfg, &cfg.monitors[0], Ok(false), 5, now, 4);
    assert_eq!((state.events.len(), state.notices.len()), (3, 1));
    for _ in 0..100 {
        assert!(settle(&mut state, &cfg, &cfg.monitors[0], Ok(true), 5));
    }
    assert_eq!(state.quality.get("a").unwrap().history.len(), 72);
}

#[test]
fn long_reports_have_pages() {
    let mut cfg = config((0..41).map(|i| monitor(&format!("m{i}"), &format!("N{i}"))).collect());
    cfg.notify_all_monitors = true;
    cfg.webhook = "http://hook".into();
    let mut state = State::default();
    for i in 0..41 {
        state.quality.insert(
            format!("m{i}"),
            Quality {
                verdict: "healthy".into(),
                response_ms: Some(1500),
                ..Default::default()
            },
        );
    }
    let done: Vec<String> = (0..41).map(|i| format!("m{i}")).collect();
    let round = Round { done, seconds: vec!["1.5s".into(); 41] };
    let cards = summary_cards(&cfg, &state, &round, 0);
    assert_eq!(cards.len(), 3);
    assert_eq!(template(&cards[2]), "green");
    let last = cards[2].render();
    assert!(last.contains("满血检测 · 全部满血 · 3/3"));
    assert!(last.contains("N40") && !last.contains("N39"));
    assert!(last.contains("🟢 满血 · 响应 1.5s"));
    assert!(last.contains("满血\\n41 个"));
    assert!(last.contains("01-01 08:00 · 共 41 个监控 · 本轮检测 41 个 · 糖果判据"));
    publish_at(&mut state, &cfg, &round, &vec![1, 2, 3], 0);
    assert_eq!(state.notices.len(), 3);
    assert_eq!(state.notices[2].message, "降智监控全量检测报告");
    assert!(state.notices[2].card.is_some());
    publish(&mut state, &cfg, &round);
    assert_eq!(state.notices.len(), 6);
    cfg.notify_all_monitors = false;
    publish(&mut state, &cfg, &round);
    assert_eq!(state.notices.len(), 6);
}

#[test]
fn checks_end_with_the_calendar() {
    let last = forest_router::clock::LAST_SECOND;
    let cfg = config(vec![monitor("a", "A")]);
    let schedule = &cfg.monitor_schedule;
    assert_eq!(next_date(last, schedule), None);
    assert_eq!(next_date(i64::MAX, schedule), None);
    assert_eq!(next_date(i64::MIN, schedule), None);
    assert_eq!(next_date(last - 3600, schedule), Some(last - 3599));
    assert_eq!(next_date(0, schedule), Some(1200));
    let mut state = State::default();
    assert!(!settle_by(&mut state, &cfg, &cfg.monitors[0], Ok(true), 5, last, 1));
    assert!(state.quality.get("a").is_none() && state.events.is_empty());
    assert!(settle_by(&mut state, &cfg, &cfg.monitors[0], Ok(true), 5, last - 3600, 1));
    assert_eq!(state.quality.get("a").unwrap().next_at, last - 3599);
}
