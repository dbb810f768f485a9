use forest_router::balance::Adapter;
use forest_router::config::{Channel, Config, Key, Model};
use forest_router::json::Json;
use forest_router::proxy::{
    accept, accept_members, catalog, fail, fail_at, forwards_request, forwards_response, is_stream,
    postpone, postpone_at, protocol_warning, protocol_warning_at, read_answer, read_refusal,
    record_route, record_route_at, record_success, relay, relay_end, Ending, Opening, Refusal, Step,
    Walk,
};
use forest_router::sse::Observer;
use forest_router::state::{KeyState, Quality, State};
use forest_router::telemetry::Metrics;

fn key(id: &str, secret: &str) -> Key {
    Key { enabled: true, id: id.into(), label: "L".into(), secret: secret.into() }
}

fn channel(id: &str, keys: Vec<Key>) -> Channel {
    Channel {
        id: id.into(),
        name: id.to_uppercase(),
        base_url: "https://localhost".into(),
        upstream_model: format!("up-{id}"),
        adapter: Adapter::Auto,
        enabled: true,
        monitor_id: None,
        keys,
    }
}

fn config() -> Config {
    Config {
        listen: "0.0.0.0:8119".into(),
        api_key: "test".into(),
        admin_password_hash: String::new(),
        webhook: "https://hook".into(),
        use_system_proxy: false,
        notify_all_monitors: false,
        employee_keys: Json::Array(vec![]),
        models: vec![Model {
            id: "m".into(),
            channels: vec![
                channel("a", vec![key("k1", "s1"), key("k2", "s2")]),
                channel("b", vec![key("k3", "s3")]),
            ],
        }],
        monitors: vec![],
        monitor_schedule: vec![],
    }
}

fn walk_all(cfg: &Config, state: &mut State, now: i64) -> Vec<(usize, usize)> {
    let mut w = Walk::new();
    let mut r = vec![];
    while let Some(p) = w.next_at(&cfg.models[0], cfg, state, now, false) {
        r.push(p);
    }
    r
}

#[test]
fn refusals_have_answers() {
    for (r, status, code) in [
        (Refusal::InvalidKey, 401, "invalid_api_key"),
        (Refusal::Unreadable, 400, "request_read_error"),
        (Refusal::Slow, 408, "body_timeout"),
        (Refusal::InvalidJson, 400, "invalid_json"),
        (Refusal::MissingModel, 400, "missing_model"),
        (Refusal::UnknownModel, 404, "model_not_found"),
        (Refusal::History, 400, "nonportable_history"),
        (Refusal::BadResponse, 502, "response_error"),
        (Refusal::EmptyResponse, 502, "empty_upstream_response"),
        (Refusal::NoChannel, 503, "no_available_channel"),
    ] {
        assert_eq!((r.status(), r.code()), (status, code));
        assert_eq!(
            r.body().render(),
            format!(
                r#"{{"error":{{"code":"{code}","message":"{}","type":"router_error"}}}}"#,
                r.message()
            )
        );
    }
    assert_eq!(Refusal::NoChannel.message(), "当前没有可用渠道");
}

#[test]
fn catalogs_list_all_models() {
    assert_eq!(
        catalog(&config()).render(),
        r#"{"object":"list","data":[{"id":"m","object":"model","created":0,"owned_by":"forest-router"}]}"#
    );
}

#[test]
fn requests_are_accepted_or_refused() {
    let cfg = config();
    let refused = |t: &str| accept(&cfg, t.as_bytes()).err();
    assert_eq!(refused("[]"), Some(Refusal::InvalidJson));
    assert_eq!(refused("{"), Some(Refusal::InvalidJson));
    assert_eq!(refused("{}"), Some(Refusal::MissingModel));
    assert_eq!(refused(r#"{"model":1}"#), Some(Refusal::MissingModel));
    assert_eq!(refused(r#"{"model":"x"}"#), Some(Refusal::UnknownModel));
    assert_eq!(
        refused(r#"{"model":"m","previous_response_id":"r"}"#),
        Some(Refusal::History)
    );
    assert_eq!(refused(r#"{"model":"m","conversation":{}}"#), Some(Refusal::History));
    assert_eq!(refused(r#"{"model":"m","conversation":null}"#), None);
    assert_eq!(
        accept_members(&cfg, None, Some("m".into())).err(),
        Some(Refusal::InvalidJson)
    );
    assert_eq!(accept_members(&cfg, Some(vec![]), None).err(), Some(Refusal::MissingModel));
    let a = accept_members(&cfg, Some(vec![]), Some("m".into())).ok().unwrap();
    assert_eq!((a.model.as_str(), a.route), ("m", 0));
}

#[test]
fn requests_go_out_as_they_were_written() {
    let cfg = config();
    let body = "{\"z\": 1.50 ,\"model\":\"\\u006d\", \"input\":[ {\"a\":\"\\u00e9\"} ],\"big\":12345678901234567890123}";
    let a = accept(&cfg, body.as_bytes()).ok().unwrap();
    assert_eq!(a.model, "m");
    assert_eq!(
        a.outbound(&cfg.models[0].channels[0]),
        "{\"big\":12345678901234567890123,\"input\":[ {\"a\":\"\\u00e9\"} ],\"model\":\"up-a\",\"z\":1.50}"
    );
    let mut upstream = config();
    upstream.models[0].id = "up-a".into();
    let read = accept(&upstream, a.outbound(&cfg.models[0].channels[0]).as_bytes()).ok().unwrap();
    assert_eq!(read.model, "up-a");
    let others = |m: &Vec<(String, String)>| {
        m.iter().filter(|p| p.0 != "model").cloned().collect::<Vec<_>>()
    };
    assert_eq!(others(&read.members), others(&a.members));
    let mut odd = channel("a", vec![]);
    odd.upstream_model = "q\"\\".into();
    let b = accept(&cfg, br#"{"model":"m"}"#).ok().unwrap();
    assert_eq!(b.outbound(&odd), "{\"model\":\"q\\\"\\\\\"}");
}

#[test]
fn headers_are_passed_on_with_exceptions() {
    for name in ["authorization", "cookie", "host", "x-api-key", "openai-project", "te"] {
        assert!(!forwards_request(None, name));
    }
    assert!(forwards_request(None, "x-trace"));
    assert!(!forwards_request(Some("close, X-Trace"), "x-trace"));
    assert!(forwards_response(None, "content-type"));
    for name in ["set-cookie", "content-length", "connection", "proxy-authenticate"] {
        assert!(!forwards_response(None, name));
    }
    assert!(!forwards_response(Some(" X-A ,b"), "x-a"));
    assert!(is_stream(Some("text/event-stream; charset=utf-8")));
    assert!(!is_stream(Some("application/json")) && !is_stream(None));
}

#[test]
fn keys_are_tried_in_turn() {
    let cfg = config();
    let mut s = State::default();
    assert_eq!(walk_all(&cfg, &mut s, 0), vec![(0, 0), (0, 1), (1, 0)]);
    assert_eq!(walk_all(&cfg, &mut s, 0), vec![(0, 1), (0, 0), (1, 0)]);
    s.round_robin.insert("a".into(), usize::MAX);
    assert_eq!(walk_all(&cfg, &mut s, 0), vec![(0, 1), (0, 0), (1, 0)]);
    assert_eq!(s.round_robin.get("a"), Some(&0));
}

#[test]
fn one_candidate_is_tried_once() {
    let mut cfg = config();
    cfg.models[0].channels[0].keys[1].secret = "s1".into();
    cfg.models[0].channels[1].upstream_model = "up-a".into();
    cfg.models[0].channels[1].keys[0].secret = "s1".into();
    let mut s = State::default();
    assert_eq!(walk_all(&cfg, &mut s, 0), vec![(0, 0)]);
}

#[test]
fn keys_out_of_use_are_passed_over() {
    let mut cfg = config();
    let mut s = State::default();
    s.put_key("k1", KeyState { credential_failed: true, ..Default::default() });
    assert_eq!(walk_all(&cfg, &mut s, 0), vec![(0, 1), (1, 0)]);
    cfg.models[0].channels[0].monitor_id = Some("q".into());
    assert_eq!(walk_all(&cfg, &mut s, 0), vec![(1, 0)]);
    s.quality.insert(
        "q".into(),
        Quality { last_definite: "healthy".into(), valid_until: 5, ..Default::default() },
    );
    assert_eq!(walk_all(&cfg, &mut s, 4), vec![(0, 1), (1, 0)]);
    cfg.models[0].channels[1].enabled = false;
    assert_eq!(walk_all(&cfg, &mut s, 4), vec![(0, 1)]);
}

#[test]
fn switches_and_deadlines_are_looked_at_again() {
    let cfg = config();
    let mut current = config();
    let mut s = State::default();
    let mut w = Walk::new();
    assert_eq!(w.next(&cfg.models[0], &current, &mut s, false), Some((0, 0)));
    current.models[0].channels[0].keys[1].enabled = false;
    assert_eq!(w.next(&cfg.models[0], &current, &mut s, false), Some((1, 0)));
    assert_eq!(w.next(&cfg.models[0], &current, &mut s, false), None);
    let mut late = Walk::new();
    assert_eq!(late.next(&cfg.models[0], &cfg, &mut s, true), None);
    assert_eq!(late.next(&cfg.models[0], &cfg, &mut s, false), None);
    let mut ill = Walk::new();
    assert!(ill.next_at(&cfg.models[0], &cfg, &mut s, 0, false).is_some());
    for k in ["k1", "k2"] {
        s.put_key(k, KeyState { service_failed: true, ..Default::default() });
    }
    assert_eq!(ill.next_at(&cfg.models[0], &cfg, &mut s, 0, false), Some((1, 0)));
}

#[test]
fn failures_are_noted_by_their_status() {
    let cfg = config();
    let mut s = State::default();
    fail_at(&mut s, &cfg, "k1", "A", 401, 100, 1);
    let k = s.keys.get("k1").unwrap();
    assert!(k.credential_failed);
    assert_eq!(k.reason, "凭证失效");
    assert_eq!(s.events[0].message, "A / k1：HTTP 401");
    assert_eq!(s.events[0].kind, "credential");
    assert!(s.notices.is_empty());
    fail_at(&mut s, &cfg, "k2", "A", 402, 100, 2);
    assert_eq!(s.notices[0].message, "A / k2：额度耗尽");
    assert_eq!(s.events[1].kind, "balance");
    assert!(s.keys.get("k2").unwrap().allowance.as_ref().unwrap().exhausted);
    fail_at(&mut s, &cfg, "k3", "B", 429, 100, 3);
    assert_eq!(s.keys.get("k3").unwrap().retry_at, 160);
    assert_eq!((s.events[2].kind.as_str(), s.events.len()), ("rate_limit", 3));
    fail_at(&mut s, &cfg, "k3", "B", 429, 101, 3);
    assert_eq!(s.events.len(), 3);
    fail_at(&mut s, &cfg, "other", "B", 401, 101, 3);
    assert!(s.keys.get("other").is_none());
}

#[test]
fn a_second_failure_is_an_outage() {
    let cfg = config();
    let mut s = State::default();
    fail_at(&mut s, &cfg, "k1", "A", 0, 100, 1);
    let k = s.keys.get("k1").unwrap();
    assert!(k.suspect);
    assert_eq!(k.reason, "暂时异常，等待快速确认");
    assert_eq!(s.events[0].message, "A / k1：暂时异常，等待快速确认");
    assert_eq!((s.events.len(), s.notices.len()), (1, 0));
    let mut k = s.take_key("k1");
    k.suspect = false;
    s.put_key("k1", k);
    fail_at(&mut s, &cfg, "k1", "A", 0, 200, 2);
    let k = s.keys.get("k1").unwrap();
    assert!(k.service_failed && !k.suspect);
    assert_eq!(k.reason, "连接失败或流中断");
    assert_eq!(s.notices[0].message, "A / k1：服务中断");
    assert_eq!(s.events[1].message, "A / k1：连接失败");
    fail(&mut s, &cfg, "k2", "A", 503);
    assert!(s.keys.get("k2").unwrap().suspect);
}

#[test]
fn throttled_keys_wait_as_they_are_asked() {
    let mut s = State::default();
    postpone_at(&mut s, "k1", Some("5"), 100);
    assert!(s.keys.get("k1").is_none());
    s.put_key("k1", KeyState::default());
    for (header, wait) in [
        (Some("5"), 5),
        (Some("0"), 1),
        (Some("-9"), 1),
        (Some("9999"), 3600),
        (Some("x"), 60),
        (None, 60),
    ] {
        postpone_at(&mut s, "k1", header, 100);
        assert_eq!(s.keys.get("k1").unwrap().retry_at, 100 + wait);
    }
    postpone(&mut s, "k1", None);
    assert!(s.keys.get("k1").unwrap().retry_at > 1_000_000);
}

#[test]
fn success_is_noted_without_clearing_faults() {
    let mut s = State::default();
    s.put_key("k1", KeyState { credential_failed: true, ..Default::default() });
    record_success(&mut s, "k1");
    let k = s.keys.get("k1").unwrap();
    assert!(k.checked && k.credential_failed);
}

#[test]
fn protocol_warnings_come_once() {
    let mut s = State::default();
    protocol_warning_at(&mut s, "k1", "A", 7);
    protocol_warning(&mut s, "k1", "A");
    assert_eq!(s.events.len(), 1);
    assert_eq!(
        s.events[0].message,
        "A：SSE正常关闭但未识别终态，保持原文，不判定Key故障"
    );
    assert!(s.keys.get("k1").unwrap().protocol_warning);
    assert!(s.keys.get("k1").unwrap().eligible(0));
}

#[test]
fn changes_of_route_are_counted() {
    let cfg = config();
    let mut s = State::default();
    let mut m = Metrics::default();
    record_route_at(&mut s, &mut m, &cfg, "m", "b", "B", 0);
    assert_eq!(m.today.route_switches, 0);
    assert_eq!(s.events[0].message, "m → B（按优先级选择）");
    record_route_at(&mut s, &mut m, &cfg, "m", "b", "B", 0);
    assert_eq!(s.events.len(), 1);
    record_route_at(&mut s, &mut m, &cfg, "m", "a", "A", 0);
    assert_eq!((m.today.route_switches, m.today.returns), (1, 1));
    record_route_at(&mut s, &mut m, &cfg, "m", "b", "B", 0);
    assert_eq!((m.today.route_switches, m.today.returns), (2, 1));
    assert_eq!(s.last_used.get("m").unwrap(), "b");
    record_route(&mut s, &mut m, &cfg, "m", "gone", "G");
    assert_eq!((m.today.route_switches, m.today.returns), (1, 1));
}

#[test]
fn replies_are_weighed() {
    let bad = read_refusal(400, br#"{"error":{"code":"context_length_exceeded"}}"#);
    assert_eq!(bad.retry, None);
    let quota = read_refusal(
        403,
        br#"{"code":"INSUFFICIENT_BALANCE","usage":{"input_tokens":1,"output_tokens":2}}"#,
    );
    assert_eq!(quota.retry, Some(402));
    assert_eq!(quota.usage.unwrap().output, 2);
    let good = read_answer(
        200,
        br#"{"status":"completed","output":[],"usage":{"input_tokens":3,"output_tokens":4}}"#,
    );
    assert_eq!((good.retry, good.usage.unwrap().input), (None, 3));
    assert_eq!(read_answer(200, b"<html>").retry, Some(503));
    assert_eq!(read_answer(200, br#"{"error":{"code":"invalid_api_key"}}"#).retry, Some(401));
}

#[test]
fn streams_are_held_back_until_they_mean_something() {
    let mut o = Opening::new();
    assert_eq!(o.feed(b"event: response.created\n\n").step, Step::More);
    let s = o.feed(b"data: {\"type\":\"response.output_text.delta\"}\n\n");
    assert_eq!((s.step, s.output), (Step::Commit, true));
    assert_eq!(o.feed(b"data: {\"type\":\"error\"}\n\n").step, Step::Commit);
    let mut f = Opening::new();
    let s = f.feed(b"data: {\"type\":\"error\",\"error\":{\"code\":\"insufficient_quota\"}}\n\n");
    assert_eq!(s.step, Step::Fail);
    assert_eq!(f.observer.failure(), 402);
    let mut e = Opening::new();
    assert_eq!(e.end().step, Step::Empty);
    let mut long = Opening::new();
    assert_eq!(long.feed(&vec![b'x'; 65535]).step, Step::More);
    assert_eq!(long.feed(b"x").step, Step::Commit);
    let mut late = Opening::new();
    assert_eq!(late.feed(b"data: {\"type\":\"error\"}").step, Step::More);
    assert_eq!(late.end().step, Step::Fail);
    assert_eq!(late.observer.failure(), 503);
}

#[test]
fn streams_end_in_three_ways() {
    let mut o = Observer::default();
    let usage = relay(
        &mut o,
        b"data: {\"type\":\"response.completed\",\"response\":{\"usage\":{\"input_tokens\":1,\"output_tokens\":2}}}\n\n",
    );
    assert_eq!(usage.unwrap().output, 2);
    assert!(o.is_served() && o.usage.is_none());
    assert_eq!(relay_end(&mut o), (None, Ending::Served));
    let mut f = Observer::default();
    relay(&mut f, b"data: {\"type\":\"response.failed\"}\n\n");
    assert_eq!(relay_end(&mut f).1, Ending::Failed(503));
    let mut u = Observer::default();
    relay(&mut u, b"data: {\"type\":\"response.output_text.delta\"}\n\n");
    assert_eq!(relay_end(&mut u).1, Ending::Unrecognized);
    assert_eq!(Ending::Served.tell(), ("success", "completed"));
    assert_eq!(Ending::Failed(429).tell(), ("failed", "rate_limited"));
    assert_eq!(Ending::Unrecognized.tell(), ("unknown", "unrecognized_terminal"));
}
