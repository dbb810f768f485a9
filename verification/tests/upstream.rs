use forest_router::balance::Adapter;
use forest_router::json;
use forest_router::upstream::{
    candidates, http_error, is_success, media_type, monitor_json, refusal_text, status_hint,
    Gather, Lookup, Progress, Purpose,
};

#[test]
fn monitor_errors_explain_http_and_upstream_fields() {
    let raw = r#"{"error":{"code":"permission_denied","type":"upstream_forbidden","message":"模型无权限"}}"#.as_bytes();
    let parsed = json::parse(raw).unwrap();
    let message = http_error(403, "Forbidden", Some(&parsed), "application/json", raw.len());
    assert!(message.contains("HTTP 403 Forbidden"));
    assert!(message.contains("上游拒绝访问"));
    assert!(message.contains("code=permission_denied"));
    assert!(message.contains("message=模型无权限"));

    let html = http_error(403, "Forbidden", None, "text/html", 37);
    assert!(html.contains("HTTP 403 Forbidden"));
    assert!(html.contains("错误响应不是JSON"));
    assert!(html.contains("text/html"));
}

#[test]
fn error_fields_are_exact() {
    let v = json::parse(
        r#"{"code":7,"message":" a ","error":[{"msg":"b"},{"msg":"b"},{"msg":""}],"detail":"d"}"#
            .as_bytes(),
    )
    .unwrap();
    assert_eq!(
        http_error(429, "Too Many Requests", Some(&v), "", 9),
        "HTTP 429 Too Many Requests · 检测请求被上游限流：code=7，message=a，msg=b，detail=d"
    );
    let bare = json::parse(b"[]").unwrap();
    assert_eq!(
        http_error(500, "", Some(&bare), "", 2),
        "HTTP 500  · 上游服务异常：错误响应未提供可识别字段（2 字节）"
    );
    assert_eq!(
        http_error(404, "Not Found", None, "text/html", 5),
        "HTTP 404 Not Found · 检测接口或模型不存在：错误响应不是JSON（text/html，5 字节）"
    );
}

#[test]
fn error_fields_are_bounded() {
    let long = format!(r#"{{"message":"{}"}}"#, "长".repeat(500));
    let v = json::parse(long.as_bytes()).unwrap();
    let message = http_error(400, "Bad Request", Some(&v), "", 0);
    assert!(message.ends_with(&format!("message={}…", "长".repeat(180))));
    let mut many = String::from(r#"{"error":["#);
    for i in 0..20 {
        many.push_str(&format!(r#"{{"msg":"m{i}"}},"#));
    }
    many.push_str(r#"{}]}"#);
    let v = json::parse(many.as_bytes()).unwrap();
    let message = http_error(400, "Bad Request", Some(&v), "", 0);
    assert!(message.contains("msg=m7") && !message.contains("msg=m8"));
}

#[test]
fn hints_follow_the_status() {
    for (status, hint) in [
        (400, "请求参数被上游拒绝"),
        (401, "检测 Key 未通过认证"),
        (402, "检测账号额度或余额不足"),
        (403, "上游拒绝访问"),
        (404, "检测接口或模型不存在"),
        (408, "上游等待请求超时"),
        (409, "请求与上游当前状态冲突"),
        (413, "检测请求超过上游大小限制"),
        (422, "检测请求参数校验失败"),
        (429, "检测请求被上游限流"),
        (500, "上游服务异常"),
        (599, "上游服务异常"),
        (600, "上游返回错误"),
        (302, "上游返回错误"),
    ] {
        assert_eq!(status_hint(status), hint);
    }
    assert!(is_success(204) && !is_success(300) && !is_success(199));
    assert_eq!(refusal_text(503), "HTTP 503");
}

#[test]
fn replies_are_read_to_a_limit() {
    let mut g = Gather::new(Purpose::Quota);
    assert_eq!(g.add(&vec![b' '; 262142]), Ok(()));
    assert_eq!(g.add(b"123"), Err("额度响应超过256KiB".into()));
    assert_eq!(g.add(b"12"), Ok(()));
    assert_eq!(json::int_of(g.document().ok().as_ref()), Some(12));
    assert_eq!(g.broken(), "读取响应失败");
    let mut m = Gather::new(Purpose::Monitor);
    assert_eq!(m.add(b"<html>"), Ok(()));
    assert_eq!(m.document().err().unwrap(), "检测响应不是有效JSON");
    assert_eq!(m.add(&vec![b' '; 262144]), Err("检测响应超过256KiB".into()));
    assert_eq!(m.broken(), "检测响应读取失败");
    let mut q = Gather::new(Purpose::Quota);
    assert_eq!(q.add(b"{"), Ok(()));
    assert_eq!(q.document().err().unwrap(), "接口未返回有效JSON");
}

#[test]
fn monitor_replies_are_documents_or_errors() {
    let ok = monitor_json(200, "OK", Some("application/json"), &b"{\"a\":1}".to_vec());
    assert_eq!(json::int_of(ok.ok().unwrap().get("a")), Some(1));
    assert_eq!(
        monitor_json(200, "OK", None, &b"x".to_vec()).err().unwrap(),
        "检测响应不是有效JSON"
    );
    assert_eq!(
        monitor_json(502, "Bad Gateway", Some(" text/html ; charset=utf-8"), &b"abc".to_vec())
            .err()
            .unwrap(),
        "HTTP 502 Bad Gateway · 上游服务异常：错误响应不是JSON（text/html，3 字节）"
    );
    assert_eq!(media_type(None), "");
}

#[test]
fn quotas_are_asked_where_they_are_kept() {
    let urls = |a: Adapter| {
        candidates("https://h/v1/responses/", a)
            .iter()
            .map(|c| (c.kind, c.url.clone(), c.raw_auth))
            .collect::<Vec<_>>()
    };
    assert_eq!(
        urls(Adapter::Auto),
        vec![
            (Adapter::Sub2Api, "https://h/v1/usage".to_string(), false),
            (Adapter::NewApi, "https://h/api/usage/token/".to_string(), false),
        ]
    );
    assert_eq!(
        urls(Adapter::Subscription),
        vec![(Adapter::Subscription, "https://h/v1/subscriptions".to_string(), false)]
    );
    assert_eq!(
        urls(Adapter::Deepseek),
        vec![(Adapter::Deepseek, "https://api.deepseek.com/user/balance".to_string(), false)]
    );
    assert_eq!(
        urls(Adapter::Glm),
        vec![(
            Adapter::Glm,
            "https://open.bigmodel.cn/api/monitor/usage/quota/limit".to_string(),
            true
        )]
    );
}

#[test]
fn searches_go_on_until_a_quota_is_found() {
    let mut l = Lookup::new("https://h", Adapter::Auto);
    assert!(matches!(l.reply(Err("HTTP 404".into())), Progress::Asking));
    let v = json::parse(br#"{"data":{"unlimited_quota":false,"total_available":3}}"#).unwrap();
    match l.reply(Ok(v)) {
        Progress::Found(kind, a) => {
            assert_eq!(kind, Adapter::NewApi);
            assert!(!a.exhausted);
        }
        _ => panic!("no quota"),
    }
    let mut m = Lookup::new("https://h", Adapter::Auto);
    assert!(matches!(m.reply(Err("HTTP 404".into())), Progress::Asking));
    match m.reply(Ok(json::parse(b"{}").unwrap())) {
        Progress::Failed(e) => assert_eq!(e, "HTTP 404；missing unlimited_quota"),
        _ => panic!("found"),
    }
}
