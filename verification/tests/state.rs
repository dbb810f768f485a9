use forest_router::balance::Adapter;
use forest_router::config::{Channel, Config, Key, Model, Monitor};
use forest_router::json::Json;
use forest_router::state::{KeyState, Quality, QualityPoint, State, StickyRoute};

fn key(id: &str, label: &str) -> Key {
    Key { enabled: true, id: id.into(), label: label.into(), secret: "fixture".into() }
}

fn channel(id: &str, name: &str, keys: Vec<Key>) -> Channel {
    Channel {
        id: id.into(),
        name: name.into(),
        base_url: "http://localhost".into(),
        upstream_model: "m".into(),
        adapter: Adapter::Auto,
        enabled: true,
        monitor_id: None,
        keys,
    }
}

fn config(models: Vec<Model>, monitors: Vec<Monitor>) -> Config {
    Config {
        listen: "0.0.0.0:8119".into(),
        api_key: "test".into(),
        admin_password_hash: String::new(),
        webhook: String::new(),
        use_system_proxy: false,
        notify_all_monitors: false,
        employee_keys: Json::Array(vec![]),
        models,
        monitors,
        monitor_schedule: vec![],
    }
}

fn change(state: &mut State, id: &str, f: impl FnOnce(&mut KeyState)) {
    let mut k = state.take_key(id);
    f(&mut k);
    state.put_key(id, k);
}

#[test]
fn first_incident_confirmation_and_parallel_failures() {
    let mut s = KeyState::default();
    assert!(!s.suspect_service(100));
    assert!(s.suspect);
    assert!(!s.service_failed);
    let rev = s.revision;
    assert!(!s.suspect_service(101));
    assert_eq!(s.revision, rev);
    assert!(!s.eligible(1000));
    s.suspect = false;
    s.retry_at = 0;
    assert!(s.suspect_service(150));
    assert!(s.service_failed);
    assert!(!s.suspect);
}

#[test]
fn recovered_provider_waits_and_current_failure_bypasses_wait() {
    let model = Model {
        id: "m".into(),
        channels: vec![
            channel("a", "A", vec![key("ka", "a")]),
            channel("b", "B", vec![key("kb", "b")]),
        ],
    };
    let mut state = State::default();
    state
        .sticky_routes
        .insert("m".into(), StickyRoute { channel_id: "b".into(), ..Default::default() });
    change(&mut state, "ka", |k| {
        k.suspect_service(100);
    });
    assert_eq!(state.route_order(&model, 100), vec![1, 0]);
    change(&mut state, "ka", |k| k.suspect = false);
    assert_eq!(state.route_order(&model, 200), vec![1, 0]);
    assert_eq!(state.route_order(&model, 799), vec![1, 0]);
    assert_eq!(state.route_order(&model, 800), vec![0, 1]);
    change(&mut state, "ka", |k| k.suspect = true);
    state.route_order(&model, 801);
    change(&mut state, "ka", |k| k.suspect = false);
    assert_eq!(state.route_order(&model, 900), vec![1, 0]);
    change(&mut state, "kb", |k| k.credential_failed = true);
    assert_eq!(state.route_order(&model, 901), vec![0, 1]);
    assert_eq!(state.sticky_routes.get("m").unwrap().recovered.get("a"), Some(&900));
}

#[test]
fn recovery_budget_stops_permanent_failures() {
    let mut s = KeyState::default();
    s.fail_service(0);
    for _ in 0..12 {
        let now = s.retry_at;
        s.probe_result(now, false);
    }
    assert!(s.probe_exhausted);
    assert_eq!(s.retry_at, 0);
    assert!(!s.eligible(999999));
}

#[test]
fn retry_intervals_are_one_two_three_four_five() {
    let mut s = KeyState::default();
    s.fail_service(0);
    assert_eq!(s.retry_at, 60);
    for (t, expected) in [(60, 180), (180, 360), (360, 600), (600, 900), (900, 1200)] {
        s.probe_result(t, false);
        assert_eq!(s.retry_at, expected);
    }
}

#[test]
fn immediate_repeated_success_cannot_bypass_recovery_window() {
    let mut s = KeyState::default();
    s.fail_service(0);
    s.probe_result(60, true);
    s.probe_result(61, true);
    assert!(s.service_failed);
    s.probe_result(120, true);
    assert!(!s.service_failed);
}

#[test]
fn concurrent_failures_are_one_cycle() {
    let mut s = KeyState::default();
    assert!(s.fail_service(100));
    assert!(!s.fail_service(101));
    assert_eq!(s.failure_cycles.len(), 1);
}

#[test]
fn recovery_does_not_bypass_flap_cooldown() {
    let mut s = KeyState::default();
    s.fail_service(100);
    s.probe_result(160, true);
    s.probe_result(220, true);
    assert!(s.eligible(220));
    s.fail_service(230);
    s.probe_result(290, true);
    s.probe_result(350, true);
    assert!(!s.eligible(350));
    s.probe_result(831, true);
    assert!(s.eligible(831));
}

#[test]
fn events_bounded() {
    let mut s = State::default();
    for _ in 0..1000 {
        s.event("test", "hello".into());
    }
    assert_eq!(s.events.len(), 200);
}

#[test]
fn cooldown_doubles_with_each_failure() {
    let mut s = KeyState::default();
    let expected = [0, 10 + 600, 20 + 1200, 30 + 2400, 40 + 3600, 50 + 3600];
    for (i, until) in expected.iter().enumerate() {
        s.service_failed = false;
        assert!(s.fail_service(i as i64 * 10));
        assert_eq!(s.cooldown_until, *until);
    }
    for i in 6..20 {
        s.service_failed = false;
        s.fail_service(i * 10);
    }
    assert_eq!(s.failure_cycles.len(), 8);
    s.service_failed = false;
    s.fail_service(10_000);
    assert_eq!(s.failure_cycles.len(), 1);
}

#[test]
fn suspicion_needs_a_minute_and_two_checks() {
    let mut s = KeyState::default();
    s.suspect_service(100);
    assert!(!s.confirmation_failed(200));
    assert_eq!(s.retry_at, 205);
    assert!(s.confirmation_failed(206));
    assert!(s.service_failed && !s.suspect);
    let mut t = KeyState::default();
    t.suspect_service(100);
    assert!(!t.confirmation_failed(110));
    assert!(!t.confirmation_failed(120));
    assert!(t.confirmation_failed(160));
}

#[test]
fn messages_are_cut_and_queues_are_bounded() {
    let mut s = State::default();
    s.event_at(7, "kind", "字".repeat(2000));
    assert_eq!(s.events[0].message.chars().count(), 1000);
    assert_eq!((s.events[0].at, s.events[0].kind.as_str()), (7, "kind"));
    for i in 0..205 {
        s.notify_at(9, i, format!("n{i}"));
    }
    assert_eq!(s.notices.len(), 200);
    assert_eq!(s.notices[0].message, "n5");
    assert_eq!(s.notices[0].id, "0000000000000005");
    assert_eq!(s.events.len(), 6);
    assert_eq!(s.events[5].message, "通知队列已满，移除最早待发送通知");
    s.notify("last".into());
    let n = s.notices.back().unwrap();
    assert_eq!((n.message.as_str(), n.attempts, n.next_at), ("last", 0, 0));
    assert_eq!(n.id.len(), 16);
}

#[test]
fn channels_need_a_key_and_a_healthy_monitor() {
    let mut state = State::default();
    let mut c = channel("a", "A", vec![key("k", "k")]);
    assert!(state.channel_ready(&c, 0));
    c.monitor_id = Some("q".into());
    assert!(!state.channel_ready(&c, 0));
    state.quality.insert(
        "q".into(),
        Quality { last_definite: "healthy".into(), valid_until: 10, ..Default::default() },
    );
    assert!(state.channel_ready(&c, 9));
    assert!(!state.channel_ready(&c, 10));
    c.keys[0].enabled = false;
    assert!(!state.channel_ready(&c, 9));
    c.keys[0].enabled = true;
    c.enabled = false;
    assert!(!state.channel_ready(&c, 9));
}

#[test]
fn reconciling_keeps_what_is_still_the_same() {
    let models = |secret: &str, label: &str| {
        let mut k = key("k1", label);
        k.secret = secret.into();
        vec![Model { id: "m".into(), channels: vec![channel("a", label, vec![k, key("k2", "x")])] }]
    };
    let mut state = State::default();
    state.reconcile(&config(models("s", "one"), vec![]));
    change(&mut state, "k1", |k| k.checked = true);
    change(&mut state, "k2", |k| k.checked = true);
    change(&mut state, "gone", |k| k.checked = true);
    state.reconcile(&config(models("s", "two"), vec![]));
    assert!(state.keys.get("k1").unwrap().checked);
    assert!(state.keys.get("gone").is_none());
    state.reconcile(&config(models("other", "two"), vec![]));
    assert!(state.keys.get("k1").is_none());
    assert!(state.keys.get("k2").unwrap().checked);
    assert_eq!(state.identities.len(), 2);
    assert_eq!(state.config_digest, config(models("other", "two"), vec![]).digest());
}

#[test]
fn old_states_are_kept_under_the_same_digest() {
    let cfg = config(
        vec![Model { id: "m".into(), channels: vec![channel("a", "A", vec![key("k", "k")])] }],
        vec![],
    );
    let mut state = State::default();
    state.config_digest = cfg.digest();
    change(&mut state, "k", |k| k.checked = true);
    state.reconcile(&cfg);
    assert!(state.keys.get("k").unwrap().checked);
    let mut other = State::default();
    change(&mut other, "k", |k| k.checked = true);
    other.reconcile(&cfg);
    assert!(other.keys.get("k").is_none());
}

#[test]
fn pruning_forgets_what_is_not_configured() {
    let monitor = Monitor {
        id: "q".into(),
        name: "Q".into(),
        base_url: "http://localhost".into(),
        key: "secret".into(),
        model: "m".into(),
    };
    let cfg = config(
        vec![Model { id: "m".into(), channels: vec![channel("a", "A", vec![key("k", "k")])] }],
        vec![monitor],
    );
    let mut state = State::default();
    for (model, c) in [("m", "a"), ("n", "a"), ("x", "y")] {
        state.last_used.insert(model.into(), c.into());
        state
            .sticky_routes
            .insert(model.into(), StickyRoute { channel_id: c.into(), ..Default::default() });
        state.round_robin.insert(c.into(), 3);
    }
    let mut q = Quality::default();
    for i in 0..80 {
        q.history.push_back(QualityPoint { at: i, verdict: "healthy".into() });
    }
    state.quality.insert("q".into(), q);
    state.quality.insert("old".into(), Quality::default());
    state.prune(&cfg);
    assert_eq!(state.last_used.len(), 1);
    assert_eq!(state.sticky_routes.len(), 1);
    assert_eq!(state.round_robin.len(), 1);
    assert_eq!(state.quality.len(), 1);
    let h = &state.quality.get("q").unwrap().history;
    assert_eq!((h.len(), h[0].at), (72, 8));
}

#[test]
fn names_and_order_do_not_touch_kept_state() {
    let monitor = |name: &str| Monitor {
        id: "q".into(),
        name: name.into(),
        base_url: "http://localhost".into(),
        key: "secret".into(),
        model: "m".into(),
    };
    let secret = |id: &str, s: &str| Key { secret: s.into(), ..key(id, "label") };
    let one = config(
        vec![
            Model { id: "m".into(), channels: vec![channel("a", "A", vec![secret("k1", "s1")])] },
            Model { id: "n".into(), channels: vec![channel("b", "B", vec![secret("k2", "s2")])] },
        ],
        vec![monitor("Q")],
    );
    let mut shown = channel("b", "renamed", vec![Key { enabled: false, ..secret("k2", "s2") }]);
    shown.enabled = false;
    let mut two = config(
        vec![
            Model { id: "n".into(), channels: vec![shown] },
            Model { id: "m".into(), channels: vec![channel("a", "A", vec![secret("k1", "s1")])] },
        ],
        vec![monitor("renamed")],
    );
    two.listen = "127.0.0.1:1".into();
    two.webhook = "https://hook".into();
    two.admin_password_hash = "other".into();
    let mut state = State::default();
    state.reconcile(&one);
    for id in ["k1", "k2"] {
        change(&mut state, id, |k| k.checked = true);
    }
    state.quality.insert("q".into(), Quality { checked_at: 5, ..Default::default() });
    state.reconcile(&two);
    assert!(state.keys.get("k1").unwrap().checked && state.keys.get("k2").unwrap().checked);
    assert_eq!(state.quality.get("q").unwrap().checked_at, 5);
    assert_eq!(state.config_digest, two.digest());
    two.models[1].channels[0].keys[0].secret = "changed".into();
    state.reconcile(&two);
    assert!(state.keys.get("k1").is_none());
    assert!(state.keys.get("k2").unwrap().checked);
}
