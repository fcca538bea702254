use agerus_core::decoder::{Decoder, StreamEvent, ToolCall};

fn feed_str(d: &mut Decoder, s: &str) -> Vec<StreamEvent> {
    d.feed(&s.as_bytes().to_vec())
}

#[test]
fn content_becomes_tokens() {
    let mut d = Decoder::new();
    let out = feed_str(&mut d, "{\"message\":{\"content\":\"hi\"}}\n");
    assert_eq!(out, vec![StreamEvent::Token(b"hi".to_vec())]);
}

#[test]
fn incomplete_line_waits_for_more_bytes() {
    let mut d = Decoder::new();
    let first = feed_str(&mut d, "{\"message\":{\"content\":\"hi\"}");
    assert_eq!(first, vec![]);
    let second = feed_str(&mut d, "}\n");
    assert_eq!(second, vec![StreamEvent::Token(b"hi".to_vec())]);
}

#[test]
fn thinking_field_is_preferred() {
    let mut d = Decoder::new();
    let out = feed_str(
        &mut d,
        "{\"message\":{\"thinking\":\"mull\",\"reasoning_content\":\"other\"}}\n",
    );
    assert_eq!(out, vec![StreamEvent::Thinking(b"mull".to_vec())]);
}

#[test]
fn reasoning_field_is_the_fallback() {
    let mut d = Decoder::new();
    let out = feed_str(&mut d, "{\"message\":{\"reasoning_content\":\"way\"}}\n");
    assert_eq!(out, vec![StreamEvent::Thinking(b"way".to_vec())]);
}

#[test]
fn error_field_yields_a_notice_and_the_stream_goes_on() {
    let mut d = Decoder::new();
    let out = feed_str(&mut d, "{\"error\":\"oops\"}\n{\"message\":{\"content\":\"ok\"}}\n");
    assert_eq!(
        out,
        vec![
            StreamEvent::ErrorNotice(b"oops".to_vec()),
            StreamEvent::Token(b"ok".to_vec())
        ]
    );
}

#[test]
fn malformed_lines_and_blank_lines_are_dropped() {
    let mut d = Decoder::new();
    let out = feed_str(&mut d, "not json\n\n   \n{\"message\":{\"content\":\"x\"}}\n");
    assert_eq!(out, vec![StreamEvent::Token(b"x".to_vec())]);
}

#[test]
fn done_flag_signals_completion() {
    let mut d = Decoder::new();
    let out = feed_str(&mut d, "{\"done\":true}\n");
    assert_eq!(out, vec![StreamEvent::Done]);
}

#[test]
fn tool_calls_are_collected_in_order() {
    let mut d = Decoder::new();
    let out = feed_str(
        &mut d,
        "{\"message\":{\"tool_calls\":[{\"function\":{\"name\":\"run\",\"arguments\":{\"cmd\":\"ls\"}}}]}}\n",
    );
    assert_eq!(
        out,
        vec![StreamEvent::Call(ToolCall {
            name: b"run".to_vec(),
            arguments: b"{\"cmd\":\"ls\"}".to_vec(),
        })]
    );
}

#[test]
fn inline_thinking_tags_are_routed_across_lines() {
    let mut d = Decoder::new();
    let first = feed_str(&mut d, "{\"message\":{\"content\":\"<think>a\"}}\n");
    assert_eq!(first, vec![StreamEvent::Thinking(b"a".to_vec())]);
    let second = feed_str(&mut d, "{\"message\":{\"content\":\"b</think>c\"}}\n");
    assert_eq!(
        second,
        vec![
            StreamEvent::Thinking(b"b".to_vec()),
            StreamEvent::Token(b"c".to_vec())
        ]
    );
}

#[test]
fn finish_flushes_a_half_marker_and_signals_done() {
    let mut d = Decoder::new();
    let out = feed_str(&mut d, "{\"message\":{\"content\":\"tail<thi\"}}\n");
    assert_eq!(out, vec![StreamEvent::Token(b"tail".to_vec())]);
    let end = d.finish();
    assert_eq!(
        end,
        vec![StreamEvent::Token(b"<thi".to_vec()), StreamEvent::Done]
    );
}

#[test]
fn empty_content_emits_nothing() {
    let mut d = Decoder::new();
    let out = feed_str(&mut d, "{\"message\":{\"content\":\"\"}}\n");
    assert_eq!(out, vec![]);
}
