use forest_router::balance::{
    add_up, at_most, number, parse, parse_at, Adapter, Allowance, Amount, Subscription, HUNDRED,
};
use forest_router::json;
use forest_router::json::Json;

fn doc(text: &str) -> Json {
    json::parse(text.as_bytes()).unwrap()
}

fn value(a: &Amount) -> f64 {
    match a {
        Amount::Exact(n) => f64::from_bits(*n),
        Amount::Total(s) => s.iter().fold(0., |sum, n| sum + f64::from_bits(*n)),
        Amount::ShortOfHundred(n) => 100. - f64::from_bits(*n),
    }
}

fn remaining(a: &Allowance) -> Option<f64> {
    a.remaining.as_ref().map(value)
}

#[test]
fn expired_subscription_is_unavailable() {
    let a = parse(
        &Adapter::Subscription,
        &doc(r#"{"data":[{"subscription":{"expires_at":"2020-01-01T00:00:00Z"},"progress":{"weekly":{"remaining_usd":50}}}]}"#),
    )
    .unwrap();
    assert!(a.exhausted);
}

#[test]
fn glm_used_percent_and_periods() {
    let a = parse(
        &Adapter::Glm,
        &doc(r#"{"data":{"limits":[{"type":"TIME_LIMIT","percentage":100},{"type":"TOKENS_LIMIT","unit":3,"number":5,"percentage":15},{"type":"TOKENS_LIMIT","unit":6,"number":1,"percentage":100}]}}"#),
    )
    .unwrap();
    assert_eq!(a.windows.len(), 2);
    assert_eq!(a.windows[0].remaining_percent.as_ref().map(value), Some(85.));
    assert!(a.exhausted);
}

#[test]
fn official_selection_is_case_insensitive() {
    assert_eq!(Adapter::for_model("DeepSeek-v4", Adapter::NewApi), Adapter::Deepseek);
    assert_eq!(Adapter::for_model("GLM-5", Adapter::Sub2Api), Adapter::Glm);
    assert_eq!(Adapter::for_model("gpt-6", Adapter::Auto), Adapter::Auto);
}

#[test]
fn unlimited_negative_token_quota_is_not_empty() {
    let a = parse(
        &Adapter::NewApi,
        &doc(r#"{"data":{"unlimited_quota":true,"total_available":-24529151}}"#),
    )
    .unwrap();
    assert!(!a.exhausted);
    assert!(a.unlimited);
    assert_eq!(remaining(&a), None);
}

#[test]
fn wallet_can_limit_an_independently_funded_key() {
    let a = parse(
        &Adapter::Sub2Api,
        &doc(r#"{"mode":"quota_limited","remaining":400,"balance":0}"#),
    )
    .unwrap();
    assert!(a.exhausted);
}

#[test]
fn unknown_is_not_zero() {
    assert!(parse(&Adapter::Sub2Api, &doc(r#"{"mode":"unrestricted"}"#)).is_err());
    assert!(parse(&Adapter::NewApi, &doc(r#"{"data":{}}"#)).is_err());
}

#[test]
fn adapters_have_names() {
    assert_eq!(Adapter::Auto.name(), "auto");
    assert_eq!(Adapter::NewApi.name(), "new_api");
    assert_eq!(Adapter::Sub2Api.name(), "sub2_api");
    assert_eq!(Adapter::Subscription.name(), "subscription");
    assert_eq!(Adapter::Deepseek.name(), "deepseek");
    assert_eq!(Adapter::Glm.name(), "glm");
}

#[test]
fn bits_are_ordered_as_numbers() {
    let numbers = [-1e300, -2.5, -0.0, 0.0, 1e-300, 1.0, 99.9, 100.0, 1e300f64];
    for a in numbers {
        for b in numbers {
            assert_eq!(at_most(a.to_bits(), b.to_bits()), a <= b);
        }
    }
    assert_eq!(f64::from_bits(HUNDRED), 100.);
}

#[test]
fn numbers_may_be_written_as_text() {
    let v = doc(r#"{"a":"12.5","b":12.5,"c":"inf","d":"x","e":true,"f":"-3"}"#);
    assert_eq!(number(v.get("a")), Some(12.5f64.to_bits()));
    assert_eq!(number(v.get("b")), Some(12.5f64.to_bits()));
    assert_eq!(number(v.get("c")), None);
    assert_eq!(number(v.get("d")), None);
    assert_eq!(number(v.get("e")), None);
    assert_eq!(number(v.get("f")), Some((-3f64).to_bits()));
    assert_eq!(number(None), None);
}

#[test]
fn token_quota_with_expiry() {
    let a = parse(
        &Adapter::NewApi,
        &doc(r#"{"data":{"unlimited_quota":false,"total_available":"7.5","expires_at":1000}}"#),
    )
    .unwrap();
    assert_eq!(remaining(&a), Some(7.5));
    assert_eq!(a.unit, "quota");
    assert_eq!(a.expires_at, Some(1000));
    assert!(!a.exhausted);
    assert!(!a.unavailable(999));
    assert!(a.unavailable(1000));
    let never = parse(
        &Adapter::NewApi,
        &doc(r#"{"data":{"unlimited_quota":false,"total_available":0,"expires_at":-1}}"#),
    )
    .unwrap();
    assert_eq!(never.expires_at, None);
    assert!(never.exhausted);
}

#[test]
fn missing_parts_are_named() {
    let cases = [
        (Adapter::NewApi, r#"{"data":{"total_available":1}}"#, "missing unlimited_quota"),
        (Adapter::NewApi, r#"{"data":{"unlimited_quota":false}}"#, "missing token quota"),
        (Adapter::Sub2Api, r#"{"remaining":1}"#, "missing usage mode"),
        (Adapter::Sub2Api, r#"{"mode":"m"}"#, "missing remaining"),
        (Adapter::Deepseek, r#"{}"#, "missing availability"),
        (Adapter::Deepseek, r#"{"is_available":true}"#, "missing balance_infos"),
        (Adapter::Deepseek, r#"{"is_available":true,"balance_infos":[]}"#, "empty balances"),
        (Adapter::Subscription, r#"{"data":{}}"#, "missing subscriptions"),
        (Adapter::Glm, r#"{"data":{}}"#, "missing coding plan limits"),
        (Adapter::Glm, r#"{"data":{"limits":[]}}"#, "unrecognized coding plan periods"),
        (Adapter::Auto, r#"{}"#, "platform must be detected first"),
    ];
    for (adapter, text, reason) in cases {
        assert_eq!(parse(&adapter, &doc(text)).err(), Some(reason));
    }
}

#[test]
fn spent_rate_limit_exhausts_a_key() {
    let a = parse(
        &Adapter::Sub2Api,
        &doc(r#"{"mode":"m","remaining":4,"balance":9,"unit":"CNY","rate_limits":{"day":{"remaining":1},"week":{"remaining":0}},"subscription":{"expires_at":"1970-01-02T00:00:00Z"}}"#),
    )
    .unwrap();
    assert_eq!(remaining(&a), Some(4.));
    assert_eq!(a.unit, "CNY");
    assert_eq!(a.expires_at, Some(86400));
    assert!(a.exhausted);
    let b = parse(&Adapter::Sub2Api, &doc(r#"{"mode":"m","remaining":9,"balance":4}"#)).unwrap();
    assert_eq!(remaining(&b), Some(4.));
    assert_eq!(b.unit, "USD");
    assert!(!b.exhausted);
}

#[test]
fn deepseek_prefers_the_balance_in_cny() {
    let a = parse(
        &Adapter::Deepseek,
        &doc(r#"{"is_available":true,"balance_infos":[{"currency":"USD","total_balance":"1"},{"currency":"CNY","total_balance":"8.25"}]}"#),
    )
    .unwrap();
    assert_eq!(remaining(&a), Some(8.25));
    assert_eq!(a.unit, "CNY");
    assert!(!a.exhausted);
    let b = parse(
        &Adapter::Deepseek,
        &doc(r#"{"is_available":false,"balance_infos":[{"total_balance":"x"}]}"#),
    )
    .unwrap();
    assert_eq!(remaining(&b), None);
    assert_eq!(b.unit, "unknown");
    assert!(b.exhausted);
}

#[test]
fn subscriptions_add_up() {
    let text = r#"{"data":[
        {"subscription":{"expires_at":"1970-01-01T00:00:10Z"},"progress":{"weekly":{"remaining_usd":2.5}}},
        {"subscription":{"expires_at":"1970-01-01T00:00:20Z"},"progress":{"weekly":{"remaining_usd":-1}}},
        {"subscription":{"expires_at":"1970-01-01T00:00:05Z"},"progress":{"weekly":{"remaining_usd":100}}}]}"#;
    let a = parse_at(Adapter::Subscription, &doc(text), (5, 0)).unwrap();
    assert_eq!(remaining(&a), Some(2.5));
    assert_eq!(a.unit, "USD");
    assert_eq!(a.expires_at, Some(20));
    assert!(!a.exhausted);
    let later = parse_at(Adapter::Subscription, &doc(text), (10, 0)).unwrap();
    assert_eq!(remaining(&later), Some(0.));
    assert!(later.exhausted);
    let none = parse_at(Adapter::Subscription, &doc(text), (20, 0)).unwrap();
    assert_eq!(remaining(&none), None);
    assert!(none.exhausted);
}

#[test]
fn unknown_subscriptions_keep_a_key_in_use() {
    let s = vec![
        Subscription { expiry: None, left: Some(0f64.to_bits()) },
        Subscription { expiry: Some((9, 0)), left: None },
    ];
    let a = add_up(&s, (1, 0));
    assert!(!a.exhausted);
    assert_eq!(a.expires_at, None);
    let b = add_up(&vec![s[0]], (1, 0));
    assert!(b.exhausted);
    let c = add_up(&vec![Subscription { expiry: Some((9, 5)), left: None }], (9, 4));
    assert!(!c.exhausted);
    assert_eq!(c.expires_at, Some(9));
    let d = add_up(&vec![Subscription { expiry: Some((9, 5)), left: None }], (9, 5));
    assert!(d.exhausted);
}

#[test]
fn coding_plan_windows_reset() {
    let a = parse(
        &Adapter::Glm,
        &doc(r#"{"data":{"limits":[{"type":"TOKENS_LIMIT","unit":3,"number":5,"percentage":120,"nextResetTime":1000},{"type":"TOKENS_LIMIT","unit":6,"number":1}]}}"#),
    )
    .unwrap();
    assert_eq!(a.windows[0].label, "5小时");
    assert!(a.windows[0].remaining_percent.is_none());
    assert_eq!(a.windows[0].resets_at.as_deref(), Some("1970-01-01T00:00:01+00:00"));
    assert_eq!(a.windows[1].label, "每周");
    assert!(a.windows[1].resets_at.is_none());
    assert_eq!(a.unit, "percent");
    assert!(!a.exhausted);
}
