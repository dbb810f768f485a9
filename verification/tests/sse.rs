use forest_router::sse::Observer;
use forest_router::usage::Scanner;

#[test]
fn split_frames() {
    let mut o = Observer::default();
    for b in b"data: {\"type\":\"response.completed\"}\n\n" {
        o.feed(&[*b]);
    }
    assert!(o.terminal);
    assert!(!o.failed);
}

#[test]
fn bounds() {
    let mut o = Observer::default();
    o.feed(&vec![b'x'; 300000]);
    assert!(o.line.len() <= 65536);
}

#[test]
fn large_data_only_terminal() {
    for last in [false, true] {
        let mut o = Observer::default();
        let pad = "x".repeat(100000);
        let v = if last {
            format!("{{\"response\":{{\"pad\":\"{pad}\"}},\"type\":\"response.completed\"}}")
        } else {
            format!("{{\"type\":\"response.completed\",\"response\":{{\"pad\":\"{pad}\"}}}}")
        };
        for b in format!("data: {v}\n\n").as_bytes().chunks(111) {
            o.feed(b);
        }
        assert!(o.terminal);
        assert!(!o.failed);
    }
}

#[test]
fn multiline_and_cr() {
    for newline in ["\r\n", "\r", "\n"] {
        let mut o = Observer::default();
        o.feed(
            format!("data: {{{newline}data: \"type\":\"response.failed\"}}{newline}{newline}")
                .as_bytes(),
        );
        assert!(o.failed);
    }
}

#[test]
fn aliases() {
    for text in [
        "data: [DONE]\n\n",
        "data: {\"type\":\"response.done\"}\n\n",
        "event: done\n\n",
    ] {
        let mut o = Observer::default();
        o.feed(text.as_bytes());
        assert!(o.terminal);
    }
}

#[test]
fn frame_order_not_chunks() {
    let v=b"data: {\"type\":\"response.output_text.delta\",\"delta\":\"hello\"}\n\ndata: {\"type\":\"response.failed\"}\n\n";
    for size in [1, 7, 10000] {
        let mut o = Observer::default();
        for chunk in v.chunks(size) {
            o.feed(chunk);
        }
        assert!(o.failed);
        assert!(!o.retryable_failure);
    }
}

#[test]
fn nested_type_does_not_spoof_terminal() {
    let mut o = Observer::default();
    o.feed(b"data: {\"type\":\"response.output_text.delta\",\"nested\":{\"type\":\"response.completed\"}}\n\n");
    assert!(!o.terminal);
}

#[test]
fn early_failures_are_retryable_and_classified() {
    let mut o = Observer::default();
    o.feed(b"event: response.created\n\n");
    assert!(!o.meaningful);
    o.feed(b"data: {\"type\":\"response.failed\",\"response\":{\"error\":{\"code\":\"insufficient_quota\"}}}\n\n");
    assert!(o.failed && o.terminal && o.retryable_failure);
    assert_eq!(o.failure_status, Some(402));
}

#[test]
fn unfinished_streams_are_read_at_their_end() {
    let mut o = Observer::default();
    o.feed(b"data: {\"type\":\"response.incomplete\"}");
    assert!(!o.terminal);
    o.finish();
    assert!(o.terminal && o.meaningful && !o.failed);
}

#[test]
fn done_marks_may_have_space_round_them() {
    let mut o = Observer::default();
    o.feed(b"data:   [DONE] \t\n\n");
    assert!(o.terminal);
    let mut p = Observer::default();
    p.feed(b"data: [DONE] x\n\n");
    assert!(!p.terminal);
}

#[test]
fn usage_of_a_stream_is_reported() {
    let mut o = Observer::default();
    o.feed(b"data: {\"type\":\"response.completed\",\"response\":{\"usage\":{\"input_tokens\":7,\"output_tokens\":2}}}\n\n");
    let t = o.usage.unwrap();
    assert_eq!((t.input, t.cached, t.output), (7, 0, 2));
}

#[test]
fn observers_can_be_fed_in_any_pieces() {
    let v = b"event: x\r\ndata: {\"type\":\"response.output_text.delta\"}\r\n\r\ndata: {\"type\":\"error\"}\n\n";
    for cut in 0..v.len() {
        let mut o = Observer::default();
        o.feed(&v[..cut]);
        o.feed(&v[cut..]);
        assert!(o.output_text && o.failed && o.meaningful && !o.retryable_failure);
    }
}

#[test]
fn names_may_hold_escapes() {
    let mut s = Scanner::default();
    for b in br#"{"a\"b":1,"usage":{"input_tokens":1,"output_tokens":1,"x":"}"}}"# {
        s.byte(*b);
    }
    assert!(s.found.is_some());
}

fn shown(o: &Observer) -> (bool, bool, Option<u16>, bool, bool, bool, bool) {
    (
        o.terminal,
        o.failed,
        o.failure_status,
        o.meaningful,
        o.output_text,
        o.retryable_failure,
        o.usage.is_some(),
    )
}

#[test]
fn finishing_is_closing_the_last_frame() {
    let streams: [&[u8]; 9] = [
        b"",
        b"\r",
        b"data: {\"type\":\"response.failed\"}",
        b"data: {\"type\":\"response.completed\",\"usage\":{\"input_tokens\":1,\"output_tokens\":2}}\n",
        b"event: error",
        b"event: done\r",
        b"data: [DONE]\r\n",
        b"data: {\"type\":\"error\"}\n\n",
        b"data:",
    ];
    for s in streams {
        let mut a = Observer::default();
        a.feed(s);
        let mut b = Observer::default();
        b.feed(s);
        a.finish();
        b.feed(b"\n\n");
        assert_eq!(shown(&a), shown(&b));
        let before = shown(&a);
        a.finish();
        assert_eq!(shown(&a), before);
    }
}

#[test]
fn failure_frames_are_retryable_only_at_the_start() {
    for kind in ["error", "response.failed"] {
        let frame = format!("data: {{\"type\":\"{kind}\"}}\n\n");
        let mut early = Observer::default();
        early.feed(frame.as_bytes());
        assert!(early.failed && early.retryable_failure);
        let mut late = Observer::default();
        late.feed(b"data: {\"type\":\"response.output_text.delta\"}\n\n");
        late.feed(frame.as_bytes());
        assert!(late.failed && !late.retryable_failure);
    }
}
