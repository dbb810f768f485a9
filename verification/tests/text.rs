use forest_router::clock;
use forest_router::json;
use forest_router::json::Json;
use forest_router::table::Table;
use forest_router::text;

#[test]
fn texts_are_cut_and_joined() {
    assert_eq!(text::to_ascii_lowercase("ÄBC"), "Äbc");
    assert_eq!(text::trim("\u{3000} a b \n"), "a b");
    assert_eq!(text::split("a,,b", ','), vec!["a", "", "b"]);
    assert_eq!(text::join(&vec!["a".into(), "b".into()], "；"), "a；b");
    assert_eq!(text::take("中文字", 2), "中文");
    assert_eq!(text::strip_prefix("--port=1", "--port=").as_deref(), Some("1"));
    assert_eq!(text::strip_suffix("a/v1", "/v1").as_deref(), Some("a"));
    assert_eq!(text::trim_end_matches("a//", '/'), "a");
    assert!(text::contains("糖果判据", "判") && !text::contains("a", "ab"));
    assert_eq!(text::size("中"), 3);
    assert!(text::is_empty("") && !text::is_empty(" "));
}

#[test]
fn numbers_are_written_and_read() {
    assert_eq!(text::number(u64::MAX), "18446744073709551615");
    assert_eq!(text::integer(i64::MIN), "-9223372036854775808");
    assert_eq!(text::hexadecimal(255, 4), "00ff");
    for t in ["0", "+7", "65535", "65536", "", "+", "-1", "007", "1x", "99999999999999999999"] {
        assert_eq!(text::parse_u16(t), t.parse::<u16>().ok());
    }
    for t in ["0", "-0", "+7", "-9223372036854775808", "9223372036854775808", "", "-", "1 "] {
        assert_eq!(text::parse_i64(t), t.parse::<i64>().ok());
    }
}

#[test]
fn documents_are_read_and_written() {
    let raw = r#"{"b":[1,-2,2.5,1e3,true,null],"a":"x\ny\"","n":{}}"#;
    let v = json::parse(raw.as_bytes()).unwrap();
    assert_eq!(v.render(), r#"{"b":[1,-2,2.5,1000.0,true,null],"a":"x\ny\"","n":{}}"#);
    assert_eq!(v.copy().render(), v.render());
    assert_eq!(json::items_of(v.get("b")).unwrap().len(), 6);
    assert_eq!(json::str_of(v.get("a")).unwrap(), "x\ny\"");
    assert!(json::parse(b"{").is_none() && json::parse(b"").is_none());
    assert_eq!(
        Json::Text("a\"\\\u{8}\t\n\u{c}\r\u{1}\u{1f}\u{7f}é".into()).render(),
        "\"a\\\"\\\\\\b\\t\\n\\f\\r\\u0001\\u001f\u{7f}é\""
    );
    assert_eq!(Json::natural(u64::MAX).render(), "18446744073709551615");
    assert_eq!(json::bool_of(Some(&Json::Bool(true))), Some(true));
    assert_eq!(json::uint_of(json::parse(b"-5").as_ref()), None);
}

#[test]
fn tables_hold_one_value_for_a_key() {
    let mut t: Table<i64> = Table::new();
    assert_eq!(t.insert("a".into(), 1), None);
    assert_eq!(t.insert("a".into(), 2), Some(1));
    t.insert("b".into(), 3);
    assert_eq!((t.len(), t.get("a"), t.contains("c")), (2, Some(&2), false));
    t.retain(|_, v| *v > 2);
    assert_eq!(t.keys(), vec!["b"]);
    assert_eq!(t.remove("b"), Some(3));
    assert!(t.pop().is_none());
}

#[test]
fn clocks_show_local_minutes() {
    assert_eq!(clock::minute_of_day(0), 480);
    assert_eq!(clock::minute_of_day(16 * 3600), 0);
    assert_eq!(clock::minute_of_day(-1), 479);
    let (s, n) = clock::now_exact();
    assert!(s > 1_600_000_000 && n < 2_000_000_000);
    assert!(clock::now() >= s);
}
