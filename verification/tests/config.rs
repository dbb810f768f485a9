use forest_router::balance::Adapter;
use forest_router::config::{responses_url, root, Channel, Config, Key, Model, Monitor, MonitorPeriod};
use forest_router::config::{default_monitor_schedule, validate_monitor_schedule};
use forest_router::json::Json;

fn key(id: &str) -> Key {
    Key { enabled: true, id: id.into(), label: "l".into(), secret: "s".into() }
}

fn channel(id: &str, keys: Vec<Key>) -> Channel {
    Channel {
        id: id.into(),
        name: "n".into(),
        base_url: "https://localhost".into(),
        upstream_model: "u".into(),
        adapter: Adapter::Auto,
        enabled: true,
        monitor_id: None,
        keys,
    }
}

fn monitor(id: &str) -> Monitor {
    Monitor {
        id: id.into(),
        name: "n".into(),
        base_url: "https://localhost".into(),
        key: "k".into(),
        model: "m".into(),
    }
}

fn config() -> Config {
    Config {
        listen: "0.0.0.0:8119".into(),
        api_key: "test".into(),
        admin_password_hash: "hash".into(),
        webhook: String::new(),
        use_system_proxy: false,
        notify_all_monitors: false,
        employee_keys: Json::Array(vec![]),
        models: vec![Model { id: "m".into(), channels: vec![channel("a", vec![key("k")])] }],
        monitors: vec![monitor("q")],
        monitor_schedule: default_monitor_schedule(),
    }
}

fn complaint(f: impl FnOnce(&mut Config)) -> String {
    let mut c = config();
    f(&mut c);
    c.validate(true).err().unwrap_or_default()
}

#[test]
fn sound_configurations_are_accepted() {
    assert_eq!(complaint(|_| {}), "");
    assert_eq!(complaint(|c| c.models[0].channels[0].monitor_id = Some("q".into())), "");
    assert_eq!(complaint(|c| c.webhook = "https://hook".into()), "");
}

#[test]
fn complaints_name_what_is_wrong() {
    assert_eq!(complaint(|c| c.api_key.clear()), "公司 API Key 不能为空");
    assert_eq!(
        complaint(|c| c.monitors = (0..201).map(|i| monitor(&i.to_string())).collect()),
        "配置数量超限"
    );
    assert_eq!(complaint(|c| c.api_key = "x".repeat(4097)), "设置字段过长");
    assert_eq!(config().validate(false).unwrap_err(), "监听地址必须为IP:端口");
    assert_eq!(complaint(|c| c.monitors[0].key.clear()), "监控字段为空或过长");
    assert_eq!(complaint(|c| c.models[0].id = "x".repeat(257)), "模型名过长");
    assert_eq!(complaint(|c| c.models[0].channels[0].name = "x".repeat(257)), "渠道字段过长");
    assert_eq!(complaint(|c| c.models[0].channels[0].keys[0].secret.push('\n')), "Key字段非法");
    assert_eq!(complaint(|c| c.monitors.push(monitor("q"))), "监控 ID 重复或为空");
    assert_eq!(
        complaint(|c| c.models.push(Model { id: "m".into(), channels: vec![] })),
        "模型重复、为空或渠道过多"
    );
    assert_eq!(
        complaint(|c| c.models[0].channels.push(channel("a", vec![key("k2")]))),
        "渠道 ID 重复或 Key 数量非法"
    );
    assert_eq!(
        complaint(|c| c.models[0].channels[0].keys.clear()),
        "渠道 ID 重复或 Key 数量非法"
    );
    assert_eq!(
        complaint(|c| c.models[0].channels[0].upstream_model.clear()),
        "上游模型不能为空"
    );
    assert_eq!(
        complaint(|c| c.models[0].channels[0].monitor_id = Some("x".into())),
        "监控 ID 不存在"
    );
    assert_eq!(
        complaint(|c| c.models[0].channels[0].keys.push(key("k"))),
        "Key ID 重复或为空"
    );
    assert_eq!(
        complaint(|c| c.models.push(Model {
            id: "n".into(),
            channels: vec![channel("b", vec![key("k")])]
        })),
        "Key ID 重复或为空"
    );
}

#[test]
fn totals_are_limited() {
    let many = |keys: usize, channels: usize| {
        complaint(|c| {
            c.models = (0..4)
                .map(|m| Model {
                    id: m.to_string(),
                    channels: (0..channels / 4)
                        .map(|j| {
                            let id = format!("{m}.{j}");
                            channel(&id, (0..keys).map(|k| key(&format!("{id}.{k}"))).collect())
                        })
                        .collect(),
                })
                .collect()
        })
    };
    assert_eq!(many(2, 256), "");
    assert_eq!(many(3, 256), "最多512把Key、256个渠道");
    assert_eq!(many(1, 260), "最多512把Key、256个渠道");
}

#[test]
fn addresses_must_be_plain() {
    for url in [
        "ftp://h",
        "https://user@h",
        "https://h/?q=1",
        "https://h/#f",
        "not an address",
    ] {
        assert_ne!(complaint(|c| c.models[0].channels[0].base_url = url.into()), "");
        assert_ne!(complaint(|c| c.monitors[0].base_url = url.into()), "");
        assert_ne!(complaint(|c| c.webhook = url.into()), "");
    }
}

#[test]
fn schedules_cover_the_day_once() {
    let schedule = default_monitor_schedule();
    assert!(validate_monitor_schedule(&schedule).is_ok());
    for minute in 0..1440 {
        assert_eq!(schedule.iter().filter(|p| p.contains(minute)).count(), 1);
    }
    let many = vec![MonitorPeriod { start: 0, end: 1, interval_minutes: 1 }; 25];
    assert!(validate_monitor_schedule(&many).is_err());
}

#[test]
fn roots_and_addresses_of_responses() {
    assert_eq!(root("https://h/v1/responses//"), "https://h");
    assert_eq!(root("https://h/x/v1"), "https://h/x");
    for (base, url) in [
        ("https://h", "https://h/v1/responses"),
        ("https://h/v1", "https://h/v1/responses"),
        ("https://h/v1/responses", "https://h/v1/responses"),
    ] {
        assert_eq!(responses_url(base), url);
        assert_eq!(responses_url(&responses_url(base)), url);
    }
}

#[test]
fn identities_follow_what_is_reached_not_what_is_shown() {
    let c = channel("a", vec![key("k")]);
    let mut d = channel("b", vec![key("other")]);
    d.name = "another".into();
    let identity = c.key_identity("m", &c.keys[0]);
    assert_eq!(identity, d.key_identity("m", &d.keys[0]));
    assert_eq!(identity.len(), 64);
    d.keys[0].secret = "x".into();
    assert_ne!(identity, d.key_identity("m", &d.keys[0]));
    assert_ne!(identity, c.key_identity("glm", &c.keys[0]));
    let m = monitor("q");
    let mut n = monitor("r");
    assert_eq!(m.identity(), n.identity());
    n.key = "x".into();
    assert_ne!(m.identity(), n.identity());
}

#[test]
fn digests_follow_the_whole_file() {
    let a = config();
    let mut b = config();
    assert_eq!(a.digest(), b.digest());
    assert_eq!(a.digest().len(), 64);
    b.webhook = "https://hook".into();
    assert_ne!(a.digest(), b.digest());
    let text = a.to_json().render();
    assert!(text.starts_with(r#"{"listen":"0.0.0.0:8119","api_key":"test","admin_password_hash":"hash""#));
}

#[test]
fn fingerprints_are_sha256() {
    let text = forest_router::config::fingerprint(&Json::Text("abc".into()));
    assert_eq!(
        text,
        "6cc43f858fbb763301637b5af970e2a46b46f461f27e5a0f41e009c59b827b25"
    );
}

#[test]
fn first_configurations_accept_their_password() {
    let c = Config::first(None, "key".into(), "pass").unwrap();
    assert_eq!(c.listen, "0.0.0.0:8119");
    assert!(c.validate(true).is_ok());
    assert!(c.admin_password_hash.starts_with("$argon2"));
    let mut d = Config::first(Some("127.0.0.1:1".into()), "key".into(), "pass").unwrap();
    assert_eq!(d.listen, "127.0.0.1:1");
    assert_ne!(c.admin_password_hash, d.admin_password_hash);
    d.listen_on(80);
    assert_eq!(d.listen, "0.0.0.0:80");
}

#[test]
fn only_the_companys_key_lets_in() {
    let c = config();
    assert_eq!(c.authenticate("Bearer test"), Some(("company".into(), "公司".into())));
    for header in ["", "test", "Bearer tes", "Bearer test ", "bearer test"] {
        assert_eq!(c.authenticate(header), None);
    }
}

#[test]
fn first_configurations_need_a_hash() {
    assert!(Config::first_with(None, "key".into(), None).is_none());
    let c = Config::first_with(None, "key".into(), Some("h".into())).unwrap();
    assert_eq!((c.listen.as_str(), c.api_key.as_str()), ("0.0.0.0:8119", "key"));
    assert_eq!((c.admin_password_hash.as_str(), c.webhook.as_str()), ("h", ""));
    assert!(c.models.is_empty() && c.monitors.is_empty());
    assert_eq!(c.monitor_schedule, default_monitor_schedule());
    assert!(!c.use_system_proxy && !c.notify_all_monitors);
}
