use forest_router::balance::{Adapter, Allowance};
use forest_router::config::{Channel, Config, Key, Model, Monitor};
use forest_router::json::Json;
use forest_router::scheduler::{settle, settle_at, wants_proof, Look, Task};
use forest_router::state::{KeyState, Quality, State};

fn channel(id: &str, keys: &[&str]) -> Channel {
    Channel {
        id: id.into(),
        name: "A".into(),
        base_url: "https://localhost".into(),
        upstream_model: "up".into(),
        adapter: Adapter::Auto,
        enabled: true,
        monitor_id: Some("q".into()),
        keys: keys
            .iter()
            .map(|k| Key {
                enabled: true,
                id: k.to_string(),
                label: "L".into(),
                secret: "s".into(),
            })
            .collect(),
    }
}

fn config() -> Config {
    Config {
        listen: "0.0.0.0:8119".into(),
        api_key: "test".into(),
        admin_password_hash: String::new(),
        webhook: "https://hook".into(),
        use_system_proxy: false,
        notify_all_monitors: false,
        employee_keys: Json::Array(vec![]),
        models: vec![
            Model { id: "m".into(), channels: vec![channel("a", &["k1", "k2"])] },
            Model { id: "n".into(), channels: vec![channel("b", &["k3"])] },
        ],
        monitors: ["q", "r"]
            .iter()
            .map(|id| Monitor {
                id: id.to_string(),
                name: "Q".into(),
                base_url: "https://localhost".into(),
                key: "k".into(),
                model: "m".into(),
            })
            .collect(),
        monitor_schedule: vec![],
    }
}

#[test]
fn quotas_are_looked_at_every_five_minutes() {
    let mut cfg = config();
    let mut s = State::default();
    assert_eq!(s.jobs(Task::Balance, &cfg, 0), vec![(0, 0, 0), (0, 0, 1), (1, 0, 0)]);
    s.put_key("k1", KeyState { balance_checked: 100, ..Default::default() });
    assert_eq!(s.jobs(Task::Balance, &cfg, 399), vec![(0, 0, 1), (1, 0, 0)]);
    assert_eq!(s.jobs(Task::Balance, &cfg, 400).len(), 3);
    cfg.models[1].channels[0].enabled = false;
    cfg.models[0].channels[0].keys[1].enabled = false;
    assert_eq!(s.jobs(Task::Balance, &cfg, 400), vec![(0, 0, 0)]);
}

#[test]
fn failed_keys_are_probed_when_their_time_has_come() {
    let cfg = config();
    let mut s = State::default();
    assert!(s.jobs(Task::Service, &cfg, 0).is_empty());
    let failed = || KeyState { service_failed: true, retry_at: 50, ..Default::default() };
    s.put_key("k2", failed());
    assert!(s.jobs(Task::Service, &cfg, 49).is_empty());
    assert_eq!(s.jobs(Task::Service, &cfg, 50), vec![(0, 0, 1)]);
    s.put_key("k2", KeyState { probe_exhausted: true, ..failed() });
    assert!(s.jobs(Task::Service, &cfg, 50).is_empty());
    let spent = Allowance { exhausted: true, ..Default::default() };
    s.put_key("k2", KeyState { allowance: Some(spent), ..failed() });
    assert!(s.jobs(Task::Service, &cfg, 50).is_empty());
    s.put_key("k2", KeyState { suspect: true, ..Default::default() });
    assert_eq!(s.jobs(Task::Service, &cfg, 0), vec![(0, 0, 1)]);
}

#[test]
fn only_monitors_in_use_are_checked() {
    let mut cfg = config();
    let mut s = State::default();
    assert_eq!(s.monitor_jobs(&cfg, 0), vec![0]);
    s.quality.insert("q".into(), Quality { next_at: 10, ..Default::default() });
    assert!(s.monitor_jobs(&cfg, 9).is_empty());
    assert_eq!(s.monitor_jobs(&cfg, 10), vec![0]);
    for m in &mut cfg.models {
        for k in &mut m.channels[0].keys {
            k.enabled = false;
        }
    }
    assert!(s.monitor_jobs(&cfg, 10).is_empty());
}

#[test]
fn looks_settle_into_the_state() {
    let cfg = config();
    let c = &cfg.models[0].channels[0];
    let k = &c.keys[0];
    let mut s = State::default();
    let look = |exhausted: bool| -> Look {
        Ok((Adapter::NewApi, Allowance { exhausted, ..Default::default() }))
    };
    assert!(settle_at(&mut s, &cfg, c, k, 0, look(false), false, 10, 1));
    assert!(s.events.is_empty());
    assert!(settle_at(&mut s, &cfg, c, k, 1, look(true), false, 20, 2));
    assert_eq!(s.events[0].message, "A / L：额度耗尽");
    assert_eq!(s.notices[0].message, "A / L：额度耗尽");
    assert!(settle_at(&mut s, &cfg, c, k, 2, look(false), false, 30, 3));
    assert_eq!(s.events[1].message, "A / L：额度恢复");
    assert_eq!(s.notices.len(), 1);
    assert!(settle_at(&mut s, &cfg, c, k, 3, Err("HTTP 404".into()), false, 40, 4));
    assert_eq!(s.events[2].message, "A / L：额度查询异常：HTTP 404");
    assert!(settle_at(&mut s, &cfg, c, k, 4, Err("HTTP 404".into()), false, 50, 5));
    assert_eq!(s.events.len(), 3);
    let key = s.keys.get("k1").unwrap();
    assert_eq!((key.balance_checked, key.revision), (50, 5));
    assert_eq!(key.detected, Some(Adapter::NewApi));
    assert!(!settle(&mut s, &cfg, c, k, 4, look(true), false));
    assert!(settle(&mut s, &cfg, c, k, 5, look(true), false));
    assert_eq!(s.keys.get("k1").unwrap().balance_error, None);
}

#[test]
fn unlimited_tokens_need_proof_after_an_exhausted_request() {
    let cfg = config();
    let c = &cfg.models[0].channels[0];
    let k = &c.keys[0];
    let mut s = State::default();
    let look = || -> Look {
        Ok((Adapter::NewApi, Allowance { unlimited: true, ..Default::default() }))
    };
    assert!(!wants_proof(&s, k, &look()));
    s.put_key("k1", KeyState { request_exhausted: true, ..Default::default() });
    assert!(wants_proof(&s, k, &look()));
    assert!(!wants_proof(&s, k, &Err("x".into())));
    settle_at(&mut s, &cfg, c, k, 0, look(), true, 10, 1);
    let key = s.keys.get("k1").unwrap();
    assert!(key.request_exhausted && key.allowance.as_ref().unwrap().exhausted);
    settle_at(&mut s, &cfg, c, k, 1, look(), false, 20, 1);
    let key = s.keys.get("k1").unwrap();
    assert!(!key.request_exhausted && !key.allowance.as_ref().unwrap().exhausted);
}
