use forest_router::json;
use forest_router::json::Json;
use forest_router::notifications::{delivered, message, pick, settle, settle_at};
use forest_router::state::State;

fn state() -> State {
    let mut s = State::default();
    s.notify_at(0, 1, "one".into());
    s.notify_at(0, 2, "two".into());
    s
}

#[test]
fn messages_are_text_or_cards() {
    let mut s = state();
    assert_eq!(
        message(&s.notices[0]).render(),
        r#"{"msg_type":"text","content":{"text":"one"}}"#
    );
    s.notices[0].card = Some(Json::Bool(true));
    assert_eq!(message(&s.notices[0]).render(), r#"{"msg_type":"interactive","card":true}"#);
}

#[test]
fn replies_tell_of_delivery() {
    let read = |t: &str| delivered(&json::parse(t.as_bytes()).unwrap());
    assert!(read(r#"{"code":0}"#) && read(r#"{"StatusCode":0}"#));
    assert!(!read(r#"{"code":1}"#) && !read("{}") && !read(r#"{"code":"0"}"#));
}

#[test]
fn undelivered_notices_wait_longer_and_longer() {
    let mut s = state();
    let id = s.notices[0].id.clone();
    let mut waits = vec![];
    for _ in 0..12 {
        settle_at(&mut s, &id, false, 1000);
        waits.push(s.notices[0].next_at - 1000);
    }
    assert_eq!(
        waits,
        vec![60, 120, 240, 480, 960, 1800, 1800, 1800, 1800, 1800, 1800, 1800]
    );
    assert_eq!(s.events.len(), 2);
    assert_eq!(s.events[0].message, "飞书通知发送失败，将在后台重试");
    assert_eq!(
        s.events[1].message,
        "飞书通知达到12次发送上限，停止自动投递；检查Webhook后重新配置以重试"
    );
    assert_eq!(pick(&s, i64::MAX), Some(1));
    assert_eq!(s.notices.len(), 2);
}

#[test]
fn delivered_notices_are_gone() {
    let mut s = state();
    assert_eq!(pick(&s, 0), Some(0));
    let id = s.notices[0].id.clone();
    settle(&mut s, &id, true);
    assert_eq!(s.notices.len(), 1);
    assert_eq!(s.notices[0].message, "two");
    settle(&mut s, "unknown", false);
    assert_eq!(s.notices[0].attempts, 0);
    let id = s.notices[0].id.clone();
    settle(&mut s, &id, false);
    assert_eq!(s.notices[0].attempts, 1);
    assert_eq!(pick(&s, 0), None);
}
