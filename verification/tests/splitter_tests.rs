use agerus_core::splitter::{Routed, Splitter};

fn feed_str(sp: &mut Splitter, s: &str) -> Vec<Routed> {
    sp.feed(&s.as_bytes().to_vec())
}

#[test]
fn plain_text_is_content() {
    let mut sp = Splitter::new();
    let out = feed_str(&mut sp, "hello");
    assert_eq!(out, vec![Routed::Text(b"hello".to_vec())]);
    assert_eq!(sp.finish(), None);
}

#[test]
fn tag_split_across_chunks_loses_nothing() {
    let mut sp = Splitter::new();
    let first = feed_str(&mut sp, "<thi");
    assert_eq!(first, vec![]);
    let second = feed_str(&mut sp, "nk>hello</think>world");
    assert_eq!(
        second,
        vec![
            Routed::Thought(b"hello".to_vec()),
            Routed::Text(b"world".to_vec())
        ]
    );
    assert_eq!(sp.finish(), None);
}

#[test]
fn whole_tags_in_one_chunk() {
    let mut sp = Splitter::new();
    let out = feed_str(&mut sp, "a<think>b</think>c");
    assert_eq!(
        out,
        vec![
            Routed::Text(b"a".to_vec()),
            Routed::Thought(b"b".to_vec()),
            Routed::Text(b"c".to_vec())
        ]
    );
}

#[test]
fn state_survives_between_chunks() {
    let mut sp = Splitter::new();
    assert_eq!(feed_str(&mut sp, "<think>deep"), vec![Routed::Thought(b"deep".to_vec())]);
    assert_eq!(feed_str(&mut sp, "er"), vec![Routed::Thought(b"er".to_vec())]);
    assert_eq!(feed_str(&mut sp, "</think>out"), vec![Routed::Text(b"out".to_vec())]);
}

#[test]
fn unfinished_marker_is_flushed_at_end() {
    let mut sp = Splitter::new();
    assert_eq!(feed_str(&mut sp, "abc<thi"), vec![Routed::Text(b"abc".to_vec())]);
    assert_eq!(sp.finish(), Some(Routed::Text(b"<thi".to_vec())));
}

#[test]
fn false_start_is_released() {
    let mut sp = Splitter::new();
    let out = feed_str(&mut sp, "<thx>done");
    assert_eq!(out, vec![Routed::Text(b"<thx>done".to_vec())]);
}

#[test]
fn second_angle_bracket_can_start_a_marker() {
    let mut sp = Splitter::new();
    let out = feed_str(&mut sp, "a<<think>b");
    assert_eq!(
        out,
        vec![Routed::Text(b"a<".to_vec()), Routed::Thought(b"b".to_vec())]
    );
}

#[test]
fn close_marker_outside_thinking_is_partially_held() {
    let mut sp = Splitter::new();
    // outside the thinking channel only "<think>" is watched, so
    // "</think>" is plain content
    let out = feed_str(&mut sp, "x</think>y");
    assert_eq!(out, vec![Routed::Text(b"x</think>y".to_vec())]);
}
