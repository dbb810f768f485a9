use forest_router::admin::{
    apply, apply_at, apply_by, check_listener, check_login, draft, hex, inquiry, new_token, password_changed,
    preferred, public_config, saved_answer, session_token, set_password, settle_login,
    settle_login_at, target, Login, LoginAnswer, LoginBrake, Rejection, Sessions, Target, Vetted,
    Vetting,
};
use forest_router::balance::{Adapter, Allowance};
use forest_router::config::{Channel, Config, Key, Model, Monitor};
use forest_router::json;
use forest_router::json::Json;
use forest_router::state::{Quality, State};

fn doc(text: &str) -> Json {
    json::parse(text.as_bytes()).unwrap()
}

fn key(id: &str, secret: &str) -> Key {
    Key { enabled: true, id: id.into(), label: format!("L{id}"), secret: secret.into() }
}

fn channel(id: &str, keys: Vec<Key>) -> Channel {
    Channel {
        id: id.into(),
        name: format!("N{id}"),
        base_url: "https://localhost".into(),
        upstream_model: "u".into(),
        adapter: Adapter::NewApi,
        enabled: true,
        monitor_id: Some("q".into()),
        keys,
    }
}

fn config() -> Config {
    Config {
        listen: "0.0.0.0:8119".into(),
        api_key: "test".into(),
        admin_password_hash: "hash".into(),
        webhook: String::new(),
        use_system_proxy: false,
        notify_all_monitors: false,
        employee_keys: doc(r#"["e"]"#),
        models: vec![Model {
            id: "m".into(),
            channels: vec![
                channel("a", vec![key("k1", "s1")]),
                channel("b", vec![key("k2", "s2"), key("k3", "s3")]),
            ],
        }],
        monitors: vec![Monitor {
            id: "q".into(),
            name: "Q".into(),
            base_url: "https://localhost".into(),
            key: "k".into(),
            model: "m".into(),
        }],
        monitor_schedule: vec![],
    }
}

#[test]
fn sessions_are_read_from_cookies() {
    assert_eq!(session_token("a=1; forest_session=xyz ; b=2").as_deref(), Some("xyz"));
    assert_eq!(
        session_token("forest_session=1; forest_session=2").as_deref(),
        Some("1")
    );
    assert_eq!(session_token("forest=1"), None);
}

#[test]
fn sessions_end_after_twelve_hours() {
    let mut s = Sessions::new();
    s.open_at("t".into(), 100);
    assert!(s.authorized_at(Some("forest_session=t"), 100 + 43199));
    assert!(!s.authorized_at(Some("forest_session=u"), 100));
    assert!(!s.authorized_at(None, 100));
    assert!(!s.authorized_at(Some("forest_session=t"), 100 + 43200));
    assert_eq!(s.open.len(), 0);
    s.open_at("now".into(), forest_router::clock::now());
    assert!(s.authorized(Some("forest_session=now")));
    s.clear();
    assert!(!s.authorized(Some("forest_session=now")));
}

#[test]
fn sixteen_sessions_are_kept() {
    let mut s = Sessions::new();
    for i in 0..20 {
        s.open_at(format!("t{i}"), i);
    }
    assert_eq!(s.open.len(), 16);
    assert!(!s.open.contains("t3") && s.open.contains("t4") && s.open.contains("t19"));
}

#[test]
fn failed_logins_wait_longer_and_longer() {
    let mut b = LoginBrake::new();
    let mut until = vec![];
    for _ in 0..13 {
        b.fail(100);
        until.push(b.until);
    }
    assert_eq!(
        until,
        vec![0, 0, 0, 0, 101, 102, 104, 108, 116, 132, 160, 160, 160]
    );
    assert!(b.closed(159) && !b.closed(160));
}

#[test]
fn logins_settle() {
    let mut brake = LoginBrake { failures: 7, until: 0 };
    let mut s = Sessions::new();
    assert!(matches!(
        settle_login_at(&mut brake, &mut s, Login::Refused, true, "t".into(), 0),
        LoginAnswer::Refused
    ));
    assert!(matches!(
        settle_login_at(&mut brake, &mut s, Login::Right, false, "t".into(), 0),
        LoginAnswer::Unauthorized
    ));
    assert_eq!(brake.failures, 7);
    assert!(matches!(
        settle_login_at(&mut brake, &mut s, Login::Wrong, true, "t".into(), 0),
        LoginAnswer::Unauthorized
    ));
    assert_eq!((brake.failures, brake.until), (8, 8));
    match settle_login_at(&mut brake, &mut s, Login::Right, true, "t".into(), 0) {
        LoginAnswer::Welcome(c) => assert_eq!(
            c,
            "forest_session=t; HttpOnly; SameSite=Strict; Path=/; Max-Age=43200"
        ),
        _ => panic!("refused"),
    }
    assert_eq!(brake, LoginBrake::new());
    assert!(s.open.contains("t"));
    match settle_login(&mut brake, &mut s, Login::Right, true) {
        LoginAnswer::Welcome(c) => assert!(s.authorized(Some(&c))),
        _ => panic!("refused"),
    }
}

#[test]
fn tokens_are_hexadecimal_and_differ() {
    assert_eq!(hex(&vec![0, 10, 255]), "000aff");
    let t = new_token();
    assert_eq!(t.len(), 64);
    assert!(t.chars().all(|c| c.is_ascii_hexdigit()));
    assert_ne!(t, new_token());
}

#[test]
fn passwords_are_held_against_their_hash() {
    let mut c = config();
    assert_eq!(set_password(&mut c, None), Ok(()));
    assert_eq!(c.admin_password_hash, "hash");
    assert_eq!(
        set_password(&mut c, Some("x".repeat(1025))),
        Err(Rejection::LongPassword)
    );
    assert_eq!(set_password(&mut c, Some("secret".into())), Ok(()));
    assert!(password_changed(&config(), &c));
    let hash = c.admin_password_hash.clone();
    assert_eq!(check_login(&hash, &doc(r#"{"password":"secret"}"#)), Login::Right);
    assert_eq!(check_login(&hash, &doc(r#"{"password":"other"}"#)), Login::Wrong);
    assert_eq!(check_login(&hash, &doc(r#"{}"#)), Login::Wrong);
    assert_eq!(check_login("no hash", &doc(r#"{"password":"secret"}"#)), Login::Wrong);
    let long = format!(r#"{{"password":"{}"}}"#, "x".repeat(1025));
    assert_eq!(check_login(&hash, &doc(&long)), Login::Refused);
}

#[test]
fn shown_configurations_hold_no_password() {
    let c = config();
    let shown = public_config(&c);
    assert!(shown.get("admin_password_hash").is_none());
    assert_eq!(json::str_of(shown.get("_revision")), Some(&c.digest()));
    assert_eq!(json::str_of(shown.get("listen")).unwrap(), "0.0.0.0:8119");
    assert_eq!(json::items_of(shown.get("models")).unwrap().len(), 1);
}

#[test]
fn drafts_need_the_revision_that_was_seen() {
    let c = config();
    assert_eq!(draft(doc("[]"), &c).err(), Some(Rejection::NoObject));
    assert_eq!(draft(doc("{}"), &c).err(), Some(Rejection::Stale));
    assert_eq!(draft(doc(r#"{"_revision":"x"}"#), &c).err(), Some(Rejection::Stale));
    let text = format!(
        r#"{{"_revision":"{}","admin_password_hash":"forged","new_password":"p","api_key":"z"}}"#,
        c.digest()
    );
    let d = draft(doc(&text), &c).ok().unwrap();
    assert_eq!(d.password.as_deref(), Some("p"));
    assert_eq!(json::str_of(d.document.get("admin_password_hash")).unwrap(), "hash");
    assert_eq!(json::str_of(d.document.get("api_key")).unwrap(), "z");
    assert_eq!(json::items_of(d.document.get("employee_keys")).unwrap().len(), 1);
    assert!(d.document.get("_revision").is_none() && d.document.get("new_password").is_none());
    let own = format!(
        r#"{{"_revision":"{}","employee_keys":[],"new_password":""}}"#,
        c.digest()
    );
    let e = draft(doc(&own), &c).ok().unwrap();
    assert_eq!(e.password, None);
    assert_eq!(json::items_of(e.document.get("employee_keys")).unwrap().len(), 0);
}

#[test]
fn rejections_have_answers() {
    for (r, status, text) in [
        (Rejection::NoObject, 400, "配置必须为JSON对象"),
        (Rejection::Stale, 409, "配置已被修改或缺少版本号，请刷新后重新编辑"),
        (Rejection::Malformed, 400, "配置格式错误"),
        (Rejection::LongPassword, 400, ""),
        (Rejection::NoHash, 500, ""),
        (Rejection::Listener, 400, "监听地址需修改文件并重启服务"),
        (Rejection::Slow, 504, "配置验证超过60秒，未保存；请分批添加Key"),
        (Rejection::Unwritten, 500, "配置写盘失败"),
        (Rejection::Busy, 409, "另一个保存正在执行，请稍后重试"),
    ] {
        assert_eq!((r.status(), r.text()), (status, text));
    }
}

#[test]
fn new_and_changed_keys_are_vetted() {
    let old = config();
    let mut new = config();
    assert!(Vetting::new(&old, &new).next(&new).is_none());
    new.models[0].channels[1].keys[0].secret = "changed".into();
    new.models[0].channels[1].keys.push(key("k4", "s4"));
    new.models[0].channels[0].name = "renamed".into();
    let mut v = Vetting::new(&old, &new);
    assert_eq!(v.next(&new), Some(((0, 1, 0), Adapter::Auto)));
    assert_eq!(v.reply(&new, Ok((Adapter::Sub2Api, Allowance::default()))), Ok(()));
    assert_eq!(v.next(&new), Some(((0, 1, 2), Adapter::Auto)));
    assert_eq!(v.reply(&new, Ok((Adapter::Sub2Api, Allowance::default()))), Ok(()));
    assert_eq!(v.next(&new), None);
    v.adopt(&mut new);
    assert_eq!(new.models[0].channels[1].adapter, Adapter::Sub2Api);
    assert_eq!(new.models[0].channels[0].adapter, Adapter::NewApi);
}

#[test]
fn vetting_stops_at_the_first_trouble() {
    let old = config();
    let mut new = config();
    new.models[0].channels[1].adapter = Adapter::Subscription;
    let mut v = Vetting::new(&old, &new);
    assert_eq!(v.next(&new), Some(((0, 1, 0), Adapter::Subscription)));
    assert_eq!(v.reply(&new, Ok((Adapter::Subscription, Allowance::default()))), Ok(()));
    assert_eq!(
        v.reply(&new, Ok((Adapter::NewApi, Allowance::default()))),
        Err("同渠道的Key返回不同平台类型".into())
    );
    let mut w = Vetting::new(&old, &new);
    assert_eq!(
        w.reply(&new, Err("HTTP 404".into())),
        Err("Nb / Lk2 验证失败：HTTP 404".into())
    );
}

#[test]
fn saved_configurations_reach_the_state() {
    let old = config();
    let mut new = config();
    new.webhook = "https://hook".into();
    new.monitor_schedule = forest_router::config::default_monitor_schedule();
    let mut state = State::default();
    state.reconcile(&old);
    state.notify_at(0, 1, "n".into());
    state.notices[0].attempts = 12;
    state.notices[0].next_at = 99;
    state.quality.insert("q".into(), Quality { next_at: 7, ..Default::default() });
    let vetted = Vetted {
        place: (0, 0, 0),
        id: "k1".into(),
        adapter: Adapter::Sub2Api,
        allowance: Allowance::default(),
    };
    apply_at(&mut state, &old, &new, vec![vetted], 16 * 3600);
    assert_eq!((state.notices[0].attempts, state.notices[0].next_at), (0, 0));
    assert_eq!(state.quality.get("q").unwrap().next_at, 16 * 3600 + 1200);
    let k = state.keys.get("k1").unwrap();
    assert_eq!((k.detected, k.balance_checked), (Some(Adapter::Sub2Api), 16 * 3600));
    assert!(k.allowance.is_some());
    assert_eq!(state.config_digest, new.digest());
    let e = state.events.back().unwrap();
    assert_eq!((e.kind.as_str(), e.message.as_str()), ("config", "配置已保存"));
}

#[test]
fn saves_keep_the_listener_and_tell_the_revision() {
    let old = config();
    let mut new = config();
    assert_eq!(check_listener(&old, &new), Ok(()));
    new.listen = "0.0.0.0:1".into();
    assert_eq!(check_listener(&old, &new), Err(Rejection::Listener));
    assert_eq!(
        saved_answer(&old, true).render(),
        format!(r#"{{"ok":true,"reauthenticate":true,"revision":"{}"}}"#, old.digest())
    );
}

#[test]
fn targets_of_verification() {
    let c = config();
    assert_eq!(target(&c, &doc(r#"{"all_monitors":true}"#)), Target::AllMonitors);
    assert_eq!(
        target(&c, &doc(r#"{"channel_id":"b","reset":true}"#)),
        Target::Channel(0, 1, Some(0), true)
    );
    assert_eq!(target(&c, &doc(r#"{"monitor_id":"q"}"#)), Target::Monitor(0));
    assert_eq!(target(&c, &doc(r#"{"monitor_id":"z"}"#)), Target::Nothing);
    assert_eq!(target(&c, &doc("{}")), Target::Nothing);
}

#[test]
fn inquiries_are_bounded() {
    let q = inquiry(&doc(r#"{"base_url":"https://h","key":"k","model":"GLM-5"}"#)).unwrap();
    assert_eq!((q.base_url.as_str(), q.key.as_str(), q.kind), ("https://h", "k", Adapter::Glm));
    let s = inquiry(&doc(r#"{"key":"k","subscription":true}"#)).unwrap();
    assert_eq!(s.kind, Adapter::Subscription);
    assert!(inquiry(&doc(r#"{"base_url":"https://h"}"#)).is_none());
    assert!(inquiry(&doc(&format!(r#"{{"key":"{}"}}"#, "k".repeat(4097)))).is_none());
    assert!(inquiry(&doc(&format!(r#"{{"key":"k","base_url":"{}"}}"#, "b".repeat(2049)))).is_none());
}

#[test]
fn requests_go_to_the_first_ready_channel() {
    let mut c = config();
    for ch in &mut c.models[0].channels {
        ch.monitor_id = None;
    }
    let mut s = State::default();
    assert_eq!(preferred(&s, &c.models[0], 0), Some(0));
    let mut k = s.take_key("k1");
    k.credential_failed = true;
    s.put_key("k1", k);
    assert_eq!(preferred(&s, &c.models[0], 0), Some(1));
    c.models[0].channels[1].enabled = false;
    assert_eq!(preferred(&s, &c.models[0], 0), None);
}

#[test]
fn saves_are_applied_while_checks_can_be_scheduled() {
    let last = forest_router::clock::LAST_SECOND;
    let old = config();
    let mut new = config();
    new.webhook = "https://hook".into();
    let mut state = State::default();
    assert!(apply_by(&mut state, &old, &new, vec![], last));
    assert_eq!(state.config_digest, new.digest());
    new.monitor_schedule = forest_router::config::default_monitor_schedule();
    let mut late = State::default();
    assert!(!apply_by(&mut late, &old, &new, vec![], last));
    assert!(late.events.is_empty() && late.config_digest.is_empty());
    assert!(apply_by(&mut late, &old, &new, vec![], last - 3600));
    assert_eq!(late.config_digest, new.digest());
    let mut now = State::default();
    assert!(apply(&mut now, &old, &new, vec![]));
    assert_eq!(now.events.back().unwrap().message, "配置已保存");
}
