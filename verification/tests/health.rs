use forest_router::balance::Adapter;
use forest_router::config::{Channel, Config, Key, Model};
use forest_router::health::{answered, probe_body, refused, settle, settle_at, Check, Probe, ProbeStream};
use forest_router::json;
use forest_router::json::Json;
use forest_router::state::State;

fn config(webhook: &str) -> Config {
    Config {
        listen: "0.0.0.0:8119".into(),
        api_key: "test".into(),
        admin_password_hash: String::new(),
        webhook: webhook.into(),
        use_system_proxy: false,
        notify_all_monitors: false,
        employee_keys: Json::Array(vec![]),
        models: vec![Model {
            id: "m".into(),
            channels: vec![Channel {
                id: "a".into(),
                name: "A".into(),
                base_url: "https://localhost".into(),
                upstream_model: "up".into(),
                adapter: Adapter::Auto,
                enabled: true,
                monitor_id: None,
                keys: vec![Key {
                    enabled: true,
                    id: "k".into(),
                    label: "L".into(),
                    secret: "s".into(),
                }],
            }],
        }],
        monitors: vec![],
        monitor_schedule: vec![],
    }
}

fn check(state: &mut State, cfg: &Config, outcome: Probe, manual: bool, now: i64) -> bool {
    let c = &cfg.models[0].channels[0];
    let revision = state.revision("k");
    settle_at(
        state,
        cfg,
        c,
        &c.keys[0],
        revision,
        &Check { outcome, reset: false, manual },
        now,
        1,
    )
}

#[test]
fn probes_are_tiny() {
    assert_eq!(
        probe_body(&config("").models[0].channels[0]).render(),
        r#"{"model":"up","input":"Reply OK.","max_output_tokens":256,"reasoning":{"effort":"low"},"stream":true}"#
    );
}

#[test]
fn refusals_are_weighed() {
    assert_eq!(refused(401, None, None), Probe::Definite(401));
    assert_eq!(refused(402, None, None), Probe::Definite(402));
    assert_eq!(refused(429, None, None), Probe::Throttled(300));
    assert_eq!(refused(429, Some("5"), None), Probe::Throttled(60));
    assert_eq!(refused(429, Some("99999"), None), Probe::Throttled(3600));
    assert_eq!(refused(429, Some("120"), None), Probe::Throttled(120));
    assert_eq!(refused(429, Some("soon"), None), Probe::Throttled(300));
    assert_eq!(refused(502, None, None), Probe::Definite(502));
    assert_eq!(refused(404, None, None), Probe::Failed);
}

#[test]
fn documents_answer_probes() {
    let answer = |t: &str| answered(&json::parse(t.as_bytes()).unwrap());
    assert_eq!(answer(r#"{"status":"completed","output":[]}"#), Probe::Healthy);
    assert_eq!(answer(r#"{"error":{"code":"insufficient_quota"}}"#), Probe::Definite(402));
    assert_eq!(answer(r#"{"error":{"code":"rate_limit_exceeded"}}"#), Probe::Throttled(60));
    assert_eq!(answer(r#"{"status":"queued"}"#), Probe::Failed);
}

#[test]
fn streams_answer_probes() {
    let mut s = ProbeStream::new();
    assert_eq!(s.feed(b"data: {\"type\":\"response.created\"}\n\n"), None);
    assert_eq!(s.feed(b"data: {\"type\":\"response.completed\"}\n\n"), Some(Probe::Healthy));
    let mut f = ProbeStream::new();
    assert_eq!(
        f.feed(b"data: {\"type\":\"error\",\"error\":{\"code\":\"invalid_api_key\"}}\n\n"),
        Some(Probe::Definite(401))
    );
    let mut long = ProbeStream::new();
    assert_eq!(long.feed(&vec![b'x'; 262144]), None);
    assert_eq!(long.feed(b"x"), Some(Probe::Failed));
    let mut end = ProbeStream::new();
    assert_eq!(end.feed(b"data: [DONE]"), None);
    assert_eq!(end.finish(), Probe::Healthy);
    assert_eq!(ProbeStream::new().finish(), Probe::Failed);
}

#[test]
fn failed_checks_take_a_key_out_of_use() {
    let cfg = config("https://hook");
    let mut s = State::default();
    assert!(check(&mut s, &cfg, Probe::Definite(503), false, 1000));
    let k = s.keys.get("k").unwrap();
    assert!(k.service_failed);
    assert_eq!(k.reason, "最小 Responses 验证失败");
    assert_eq!(s.events[0].message, "A / L：服务验证失败");
    assert_eq!(s.notices[0].message, "服务中断：A / L，将自动使用后续可用渠道。");
    assert!(check(&mut s, &cfg, Probe::Healthy, false, 1060));
    assert_eq!(s.events.len(), 1);
    assert!(check(&mut s, &cfg, Probe::Healthy, false, 1120));
    assert!(!s.keys.get("k").unwrap().service_failed);
    assert_eq!(s.events[1].message, "A / L：服务恢复");
}

#[test]
fn suspicions_are_confirmed_or_lifted() {
    let cfg = config("");
    let mut s = State::default();
    let mut k = s.take_key("k");
    k.suspect_service(1000);
    s.put_key("k", k);
    check(&mut s, &cfg, Probe::Failed, false, 1010);
    let k = s.keys.get("k").unwrap();
    assert!(k.suspect && !k.service_failed);
    assert_eq!(k.reason, "网络异常确认中，继续可用；持续至少60秒且多次验证失败后隔离");
    check(&mut s, &cfg, Probe::Failed, false, 1060);
    let k = s.keys.get("k").unwrap();
    assert!(k.service_failed);
    assert_eq!(k.reason, "网络异常持续至少60秒，且多次最小 Responses 验证失败");
    let mut t = State::default();
    let mut k = t.take_key("k");
    k.suspect_service(1000);
    t.put_key("k", k);
    check(&mut t, &cfg, Probe::Healthy, false, 1010);
    assert!(t.keys.get("k").unwrap().eligible(1010));
    assert_eq!(t.events[0].message, "A / L：服务恢复");
}

#[test]
fn credentials_and_quotas_are_settled_at_once() {
    let cfg = config("");
    let mut s = State::default();
    check(&mut s, &cfg, Probe::Definite(401), false, 5);
    assert!(s.keys.get("k").unwrap().credential_failed);
    assert_eq!(s.keys.get("k").unwrap().reason, "凭证失效");
    check(&mut s, &cfg, Probe::Definite(402), false, 6);
    let k = s.keys.get("k").unwrap();
    assert!(k.request_exhausted && k.allowance.as_ref().unwrap().exhausted);
    assert_eq!((k.balance_checked, k.reason.as_str()), (6, "额度耗尽"));
}

#[test]
fn operators_unlock_and_are_told() {
    let cfg = config("");
    let mut s = State::default();
    check(&mut s, &cfg, Probe::Definite(503), false, 1000);
    check(&mut s, &cfg, Probe::Healthy, true, 1001);
    assert!(s.keys.get("k").unwrap().eligible(1001));
    assert_eq!(s.events[1].message, "A / L：服务恢复");
    check(&mut s, &cfg, Probe::Healthy, true, 1002);
    assert_eq!(s.events[2].message, "A / L：重新验证成功");
    check(&mut s, &cfg, Probe::Throttled(90), true, 1003);
    assert_eq!(s.events[3].message, "A / L：上游限流，请稍后验证");
    assert_eq!(s.keys.get("k").unwrap().retry_at, 1093);
    check(&mut s, &cfg, Probe::Definite(401), true, 1004);
    assert_eq!(s.events[4].message, "A / L：重新验证失败");
}

#[test]
fn budgets_of_probes_run_out() {
    let cfg = config("");
    let mut s = State::default();
    check(&mut s, &cfg, Probe::Definite(503), false, 0);
    for i in 0..12 {
        check(&mut s, &cfg, Probe::Failed, false, 100 * (i + 1));
    }
    assert!(s.keys.get("k").unwrap().probe_exhausted);
    assert_eq!(
        s.events.back().unwrap().message,
        "A / L：恢复探测达到12次上限，已停止自动探测"
    );
}

#[test]
fn stale_checks_change_nothing() {
    let cfg = config("");
    let c = &cfg.models[0].channels[0];
    let mut s = State::default();
    let k = Check { outcome: Probe::Definite(401), reset: false, manual: false };
    assert!(!settle(&mut s, &cfg, c, &c.keys[0], 9, &k));
    assert!(!s.keys.get("k").unwrap().credential_failed);
    assert!(s.events.is_empty());
    assert!(settle(&mut s, &cfg, c, &c.keys[0], 0, &k));
    assert!(s.keys.get("k").unwrap().credential_failed);
}

#[test]
fn resets_ask_for_one_answer_only() {
    let cfg = config("");
    let c = &cfg.models[0].channels[0];
    let mut s = State::default();
    check(&mut s, &cfg, Probe::Definite(503), false, 1000);
    let revision = s.revision("k");
    let k = Check { outcome: Probe::Healthy, reset: true, manual: false };
    settle_at(&mut s, &cfg, c, &c.keys[0], revision, &k, 1010, 1);
    assert!(s.keys.get("k").unwrap().eligible(1010));
}
