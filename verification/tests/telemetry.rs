use forest_router::balance::Adapter;
use forest_router::clock;
use forest_router::config::{Channel, Key};
use forest_router::telemetry::{failure_reason, Attempt, Counts, Metrics, Report, Trace};

fn channel(id: &str) -> Channel {
    Channel {
        id: id.into(),
        name: "provider".into(),
        base_url: "http://localhost".into(),
        upstream_model: "m".into(),
        adapter: Adapter::Auto,
        enabled: true,
        monitor_id: None,
        keys: vec![],
    }
}

fn key() -> Key {
    Key {
        enabled: true,
        id: "k".into(),
        label: "key".into(),
        secret: "PRIVATE-CREDENTIAL".into(),
    }
}

fn texts(m: &Metrics) -> String {
    let mut all = String::new();
    for r in &m.failures {
        for t in [&r.id, &r.model, &r.outcome, &r.reason] {
            all.push_str(t);
        }
        for a in &r.attempts {
            for t in [&a.channel_id, &a.channel, &a.key_id, &a.reason, &a.outcome] {
                all.push_str(t);
            }
        }
    }
    for b in &m.hours {
        for id in b.channels.keys() {
            all.push_str(&id);
            all.push_str(&b.channels.get(&id).unwrap().name);
        }
    }
    all
}

#[test]
fn lifecycle_bounded_and_restart_safe() {
    let mut metrics = Metrics::default();
    for _ in 0..205 {
        let (mut trace, mut guard) = Trace::new();
        trace.begin(&mut metrics);
        trace.response(503, Some("no_available_channel"));
        guard.finish(&mut trace, &mut metrics, false);
    }
    let (mut trace, mut guard) = Trace::new();
    trace.begin(&mut metrics);
    assert_eq!(metrics.active, 1);
    guard.finish(&mut trace, &mut metrics, true);
    assert_eq!(metrics.active, 0);
    assert_eq!(metrics.today.failed, 205);
    assert_eq!(metrics.today.cancelled, 1);
    assert_eq!(metrics.failures.len(), 200);
    let mut restored = metrics.copy();
    assert_eq!(restored.active, 0);
    assert_eq!(restored.today.requests, 206);
    restored.roll(clock::now() + 86400);
    assert_eq!(restored.today.requests, 0);
    assert!(restored.hours.is_empty());
}

#[test]
fn retry_keeps_each_cause_and_counts_once() {
    let mut metrics = Metrics::default();
    let channel = channel("c");
    let key = key();
    let (mut trace, mut guard) = Trace::new();
    trace.begin(&mut metrics);
    trace.attempt(&channel, &key);
    trace.status(503);
    trace.retry("upstream_error");
    trace.attempt(&channel, &key);
    trace.status(429);
    trace.retry("rate_limited");
    trace.response(503, Some("no_available_channel"));
    guard.finish(&mut trace, &mut metrics, false);
    guard.finish(&mut trace, &mut metrics, false);
    assert_eq!(metrics.today.switches, 1);
    assert_eq!(metrics.today.failed, 1);
    assert_eq!(metrics.failures[0].attempts[1].reason, "rate_limited");
    assert_eq!(metrics.view().providers.get("c").unwrap().counts.failed, 2);
    assert!(!texts(&metrics).contains("PRIVATE-CREDENTIAL"));
}

#[test]
fn identifiers_are_random_and_models_are_cut() {
    let (mut a, _) = Trace::new();
    let (b, _) = Trace::new();
    assert!(a.id().starts_with("fr_"));
    assert_eq!(a.id().len(), 35);
    assert_ne!(a.id(), b.id());
    a.model(&"m".repeat(300));
    assert_eq!(a.report.model.len(), 256);
}

#[test]
fn uncounted_requests_leave_no_trace() {
    let mut metrics = Metrics::default();
    let (mut trace, mut guard) = Trace::new();
    guard.finish(&mut trace, &mut metrics, false);
    assert!(guard.finished);
    assert_eq!(metrics.today, Counts::default());
    assert!(metrics.failures.is_empty());
}

#[test]
fn first_output_is_noted_once() {
    let mut r = Report::default();
    r.attempts.push(Attempt::default());
    r.first_after(10, 4);
    r.first_after(20, 14);
    assert_eq!(r.first_ms, Some(10));
    assert_eq!(r.attempts[0].first_ms, Some(4));
    r.retry_after("upstream_error", 30);
    assert_eq!(r.first_ms, None);
    assert_eq!(r.attempts[0].elapsed_ms, 30);
    assert_eq!(r.attempts[0].outcome, "failed");
    assert_eq!(r.outcome, "");
}

#[test]
fn outcomes_and_first_outputs_are_counted() {
    let mut c = Counts::default();
    c.result("success", Some(40));
    c.result("failed", None);
    c.result("cancelled", None);
    c.result("strange", Some(2));
    assert_eq!((c.success, c.failed, c.cancelled, c.unknown), (1, 1, 1, 1));
    assert_eq!((c.first_ms_total, c.first_samples), (42, 2));
    let mut d = c;
    d.route_switches = 9;
    c.add(&d);
    assert_eq!((c.success, c.first_ms_total, c.route_switches), (2, 84, 0));
}

#[test]
fn requests_end_as_they_were_left() {
    let mut r = Report::default();
    r.attempts.push(Attempt::default());
    r.close(false, 3, 9);
    assert_eq!((r.outcome.as_str(), r.reason.as_str()), ("unknown", "unrecognized_terminal"));
    assert_eq!((r.elapsed_ms, r.attempts[0].elapsed_ms), (9, 3));
    let mut s = Report::default();
    s.end("success", "completed", 1);
    s.close(false, 3, 9);
    assert_eq!(s.outcome, "success");
    s.close(true, 3, 9);
    assert_eq!((s.outcome.as_str(), s.reason.as_str()), ("cancelled", "client_cancelled"));
}

#[test]
fn responses_fail_from_four_hundred_on() {
    let mut r = Report::default();
    r.respond(200, None, 5);
    assert_eq!((r.status, r.outcome.as_str()), (200, ""));
    r.respond(400, None, 5);
    assert_eq!((r.outcome.as_str(), r.reason.as_str()), ("failed", "upstream_input_error"));
}

#[test]
fn switches_are_of_keys_or_of_providers() {
    let mut m = Metrics::default();
    let mut r = Report::default();
    for (c, outcome) in [("a", "failed"), ("a", "failed"), ("b", "success")] {
        r.attempts.push(Attempt {
            channel_id: c.into(),
            channel: c.to_uppercase(),
            outcome: outcome.into(),
            first_ms: Some(5),
            ..Default::default()
        });
    }
    r.outcome = "success".into();
    m.begin_at(0);
    m.file_at(30, &r);
    assert_eq!((m.today.switches, m.today.key_switches, m.today.provider_switches), (2, 1, 1));
    assert_eq!((m.today.success, m.today.requests, m.active), (1, 1, 0));
    assert!(m.failures.is_empty());
    m.file_at(59, &r);
    assert_eq!(m.hours.len(), 1);
    m.file_at(60, &r);
    assert_eq!(m.hours.len(), 2);
    let t = m.traffic();
    let a = t.providers.get("a").unwrap();
    assert_eq!((a.name.as_str(), a.counts.requests, a.counts.failed), ("A", 6, 6));
    assert_eq!(t.providers.get("b").unwrap().counts.first_ms_total, 15);
    m.roll(60 * 60 + 59);
    assert_eq!(m.hours.len(), 1);
}

#[test]
fn yesterdays_requests_do_not_count_today() {
    let mut m = Metrics::default();
    let r = Report { at: 0, outcome: "failed".into(), ..Default::default() };
    m.file_at(86400, &r);
    assert_eq!(m.day, 1);
    assert_eq!(m.today.failed, 0);
    assert_eq!(m.failures.len(), 1);
}

#[test]
fn minutes_hold_a_bounded_number_of_channels() {
    let mut m = Metrics::default();
    let mut r = Report::default();
    for i in 0..300 {
        r.attempts.push(Attempt { channel_id: format!("c{i}"), ..Default::default() });
    }
    m.file_at(0, &r);
    assert_eq!(m.hours[0].channels.len(), 256);
}

#[test]
fn route_switches_are_counted() {
    let mut m = Metrics::default();
    m.route_switch_at(0, false);
    m.route_switch_at(0, true);
    assert_eq!((m.today.route_switches, m.today.returns), (2, 1));
    m.route_switch(true);
    assert_eq!((m.today.route_switches, m.today.returns), (1, 1));
    assert_eq!(m.snapshot().today, m.today);
}

#[test]
fn statuses_have_reasons() {
    assert_eq!(failure_reason(401), "credential_failed");
    assert_eq!(failure_reason(402), "quota_exhausted");
    assert_eq!(failure_reason(429), "rate_limited");
    assert_eq!(failure_reason(0), "connection_or_timeout");
    assert_eq!(failure_reason(503), "upstream_error");
}

#[test]
fn results_and_outputs_are_noted() {
    let (mut t, _) = Trace::new();
    t.attempt(&channel("c"), &key());
    t.status(200);
    t.first();
    t.output();
    t.usage(forest_router::usage::Tokens { input: 1, cached: 0, output: 2 });
    t.result("success", "completed");
    let a = &t.report.attempts[0];
    assert_eq!((a.status, a.outcome.as_str()), (Some(200), "success"));
    assert_eq!(a.usage.unwrap().output, 2);
    assert!(t.report.output_started && a.first_ms.is_some());
    assert_eq!((a.channel_id.as_str(), a.channel.as_str(), a.key_id.as_str()), ("c", "provider", "k"));
}
