use forest_router::clock;
use forest_router::json;
use forest_router::telemetry::Attempt;
use forest_router::usage::{day, Client, Daily, Ledger, Scanner, Tokens};

#[test]
fn large_frame_usage_and_nested_decoy() {
    let raw = format!(
        r#"{{"response":{{"output":[{{"usage":{{"input_tokens":999,"output_tokens":999}}}}],"pad":"{}","usage":{{"input_tokens":20,"output_tokens":3,"input_tokens_details":{{"cached_tokens":10}}}}}}}}"#,
        "x".repeat(70000)
    );
    let mut s = Scanner::default();
    for b in raw.bytes() {
        s.byte(b)
    }
    let t = s.found.unwrap();
    assert_eq!((t.input, t.cached, t.output), (20, 10, 3));
}

#[test]
fn attempts_missing_and_persistence() {
    let now = clock::now();
    let attempts = vec![
        Attempt { usage: Some(Tokens { input: 20, cached: 10, output: 3 }), ..Default::default() },
        Attempt { usage: Some(Tokens { input: 5, cached: 0, output: 2 }), ..Default::default() },
        Attempt::default(),
    ];
    let mut l = Ledger::default();
    l.record("employee", "员工", now, "gpt-6", &attempts);
    let d = &l.clients.get("employee").unwrap().days[&day(now)];
    assert_eq!((d.requests, d.missing, d.input, d.cached, d.output), (1, 1, 25, 10, 5));
}

#[test]
fn excluded_models_keep_activity_without_tokens_or_missing_usage() {
    let now = clock::now();
    let mut ledger = Ledger::default();
    let attempts = [
        Attempt { usage: Some(Tokens { input: 20, cached: 10, output: 3 }), ..Default::default() },
        Attempt::default(),
    ];
    for model in ["GLM-5.3", "zhipu/gLm-5", "DeepSeek-V4", "vendor/DEEPSEEK-flash"] {
        ledger.record("employee", "员工", now, model, &attempts);
        ledger.record("employee", "员工", now, model, &[]);
    }
    let c = ledger.clients.get("employee").unwrap();
    let d = &c.days[&day(now)];
    assert_eq!(c.last_used, now);
    assert_eq!((d.requests, d.missing, d.input, d.cached, d.output), (8, 0, 0, 0, 0));
    ledger.record("employee", "员工", now, "gpt-6", &attempts);
    let d = &ledger.clients.get("employee").unwrap().days[&day(now)];
    assert_eq!((d.requests, d.missing, d.input, d.cached, d.output), (9, 1, 20, 10, 3));
}

#[test]
fn scanner_depth_is_bounded() {
    let mut s = Scanner::default();
    for _ in 0..10000 {
        s.byte(b'[');
    }
    assert!(s.stack.len() <= 129);
    assert!(s.found.is_none());
}

#[test]
fn midnight_and_retention() {
    assert_eq!(day(16 * 3600 - 1), 0);
    assert_eq!(day(16 * 3600), 1);
    let mut l = Ledger::default();
    let mut c = Client::default();
    for d in 0..7 {
        c.days.insert(d, Daily::default());
    }
    l.clients.insert("k".into(), c);
    l.prune(6 * 86400);
    assert_eq!(l.clients.get("k").unwrap().days.len(), 5);
    assert!(!l.clients.get("k").unwrap().days.contains_key(&1));
}

#[test]
fn days_before_1970_are_counted_down() {
    assert_eq!(day(-28800), 0);
    assert_eq!(day(-28801), -1);
    assert_eq!(day(-28800 - 86400), -1);
    assert_eq!(day(-28801 - 86400), -2);
}

#[test]
fn old_requests_and_silent_clients_are_dropped() {
    let mut l = Ledger::default();
    let t = 100 * 86400;
    l.record_at(t, "a", "A", t, "gpt", &[]);
    l.record_at(t, "b", "B", t - 5 * 86400, "gpt", &[]);
    assert!(l.clients.get("b").is_none());
    l.record_at(t, "a", "A2", t - 4 * 86400, "gpt", &[]);
    let a = l.clients.get("a").unwrap();
    assert_eq!(a.name, "A2");
    assert_eq!(a.last_used, t);
    assert_eq!(a.days.len(), 2);
    l.prune(t + 10 * 86400);
    assert_eq!(l.clients.len(), 0);
}

#[test]
fn token_sums_saturate() {
    let mut l = Ledger::default();
    let big = Attempt {
        usage: Some(Tokens { input: u64::MAX, cached: 1, output: u64::MAX }),
        ..Default::default()
    };
    let more = Attempt {
        usage: Some(Tokens { input: 5, cached: 1, output: 0 }),
        ..Default::default()
    };
    l.record_at(0, "a", "A", 0, "gpt", &[big, more]);
    let d = &l.clients.get("a").unwrap().days[&0];
    assert_eq!((d.requests, d.missing, d.input, d.cached, d.output), (1, 0, u64::MAX, 2, u64::MAX));
}

#[test]
fn usage_needs_input_and_output() {
    let v = json::parse(br#"{"input_tokens":4,"output_tokens":1,"input_tokens_details":{"cached_tokens":3}}"#).unwrap();
    assert_eq!(Tokens::parse(Some(&v)), Some(Tokens { input: 4, cached: 3, output: 1 }));
    let half = json::parse(br#"{"input_tokens":4}"#).unwrap();
    assert_eq!(Tokens::parse(Some(&half)), None);
    let odd = json::parse(br#"{"input_tokens":-4,"output_tokens":1}"#).unwrap();
    assert_eq!(Tokens::parse(Some(&odd)), None);
    assert_eq!(Tokens::parse(None), None);
}

#[test]
fn usage_at_the_top_is_found_and_deeper_is_not() {
    let mut s = Scanner::default();
    for b in br#"{"usage":{"input_tokens":1,"output_tokens":2}}"# {
        s.byte(*b);
    }
    assert_eq!(s.found, Some(Tokens { input: 1, cached: 0, output: 2 }));
    let mut t = Scanner::default();
    for b in br#"{"other":{"usage":{"input_tokens":1,"output_tokens":2}}}"# {
        t.byte(*b);
    }
    assert_eq!(t.found, None);
}
