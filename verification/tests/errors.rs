use forest_router::errors::{business_error, classify, valid_response};
use forest_router::json;
use forest_router::json::Json;

fn doc(text: &str) -> Json {
    json::parse(text.as_bytes()).unwrap()
}

#[test]
fn captured_invalid_keys() {
    for (status, raw) in [
        (401, r#"{"code":"INVALID_API_KEY","message":"Invalid API key"}"#),
        (
            401,
            r#"{"error":{"code":"","message":"Invalid token (request id: x)","type":"new_api_error"}}"#,
        ),
        (200, r#"{"code":401,"msg":"令牌已过期或验证不正确","success":false}"#),
        (401, r#"{"error":{"type":"authentication_error","code":"invalid_request_error"}}"#),
    ] {
        assert_eq!(classify(status, raw.as_bytes()), 401);
    }
}

#[test]
fn scopes_and_unknowns() {
    assert_eq!(classify(403, br#"{"error":{"code":"insufficient_user_quota"}}"#), 402);
    assert_eq!(
        classify(429, br#"{"code":"USAGE_LIMIT_EXCEEDED","message":"WEEKLY_LIMIT_EXCEEDED"}"#),
        402
    );
    assert_eq!(
        classify(
            429,
            br#"{"code":"USAGE_LIMIT_EXCEEDED","message":"concurrent request limit exceeded"}"#
        ),
        429
    );
    assert_eq!(classify(400, br#"{"error":{"code":"context_length_exceeded"}}"#), 400);
    assert_eq!(classify(200, br#"{"success":false,"code":937}"#), 503);
    assert_eq!(classify(403, b"<html>firewall</html>"), 503);
    assert_eq!(classify(404, br#"{"error":{"code":"model_not_found"}}"#), 503);
}

#[test]
fn answer_text_is_not_an_error() {
    let v = doc(
        r#"{"status":"completed","output":[{"content":[{"text":"invalid_api_key insufficient_quota"}]}]}"#,
    );
    assert!(valid_response(&v));
    assert!(!business_error(&v));
}

#[test]
fn real_supplier_errors() {
    assert_eq!(classify(403, br#"{"error":{"code":"insufficient_user_quota"}}"#), 402);
    assert_eq!(classify(429, br#"{"code":"rate_limit_exceeded"}"#), 429);
    assert_eq!(classify(403, br#"{"code":"INSUFFICIENT_BALANCE"}"#), 402);
    assert_eq!(
        classify(
            429,
            br#"{"code":"USAGE_LIMIT_EXCEEDED","message":"WEEKLY_LIMIT_EXCEEDED: weekly usage limit exceeded"}"#
        ),
        402
    );
    assert_eq!(
        classify(
            429,
            br#"{"code":"USAGE_LIMIT_EXCEEDED","message":"concurrent request limit exceeded"}"#
        ),
        429
    );
}

#[test]
fn failures_within_success_are_seen() {
    assert!(business_error(&doc(r#"{"error":{"message":"no"}}"#)));
    assert!(!business_error(&doc(r#"{"error":{}}"#)));
    assert!(business_error(&doc(r#"{"success":false}"#)));
    assert!(business_error(&doc(r#"{"status":"Failed"}"#)));
    assert!(business_error(&doc(r#"{"code":7}"#)));
    assert!(!business_error(&doc(r#"{"code":200}"#)));
    assert!(!valid_response(&doc(r#"{"status":"queued","output":[]}"#)));
    assert!(!valid_response(&doc(r#"{"status":"completed"}"#)));
    assert!(valid_response(&doc(r#"{"status":"incomplete","output":[]}"#)));
}

#[test]
fn nested_envelopes_count() {
    assert_eq!(
        classify(503, br#"{"response":{"error":{"code":"insufficient_quota"}}}"#),
        402
    );
    assert_eq!(classify(402, b""), 402);
    assert_eq!(classify(429, b""), 429);
    assert_eq!(classify(500, b""), 503);
}
