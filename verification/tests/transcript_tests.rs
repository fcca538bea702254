use agerus_core::transcript::{
    append_streamed, from_records, push_message, to_records, ChatMessage, MessageRole,
    wire_role, WireRole,
};

fn roles_and_contents(ms: &[ChatMessage]) -> Vec<(MessageRole, String)> {
    ms.iter().map(|m| (m.role, m.content.clone())).collect()
}

#[test]
fn save_then_reload_reproduces_the_same_pairs() {
    let mut ms: Vec<ChatMessage> = Vec::new();
    push_message(&mut ms, "hello".to_string(), MessageRole::User);
    append_streamed(&mut ms, "wor".to_string(), MessageRole::Assistant);
    append_streamed(&mut ms, "ld".to_string(), MessageRole::Assistant);
    push_message(&mut ms, "note".to_string(), MessageRole::System);

    let records = to_records(&ms);
    let reloaded = from_records(records);

    assert_eq!(roles_and_contents(&ms), roles_and_contents(&reloaded));
    assert!(reloaded.iter().all(|m| !m.collapsed));
}

#[test]
fn consecutive_assistant_fragments_merge() {
    let mut ms: Vec<ChatMessage> = Vec::new();
    append_streamed(&mut ms, "a".to_string(), MessageRole::Assistant);
    append_streamed(&mut ms, "b".to_string(), MessageRole::Assistant);
    assert_eq!(ms.len(), 1);
    assert_eq!(ms[0].content, "ab");
    assert!(!ms[0].collapsed);
}

#[test]
fn consecutive_thinking_fragments_merge_and_start_collapsed() {
    let mut ms: Vec<ChatMessage> = Vec::new();
    append_streamed(&mut ms, "x".to_string(), MessageRole::Thinking);
    append_streamed(&mut ms, "y".to_string(), MessageRole::Thinking);
    assert_eq!(ms.len(), 1);
    assert_eq!(ms[0].content, "xy");
    assert!(ms[0].collapsed);
}

#[test]
fn a_role_change_starts_a_new_message() {
    let mut ms: Vec<ChatMessage> = Vec::new();
    append_streamed(&mut ms, "think".to_string(), MessageRole::Thinking);
    append_streamed(&mut ms, "say".to_string(), MessageRole::Assistant);
    append_streamed(&mut ms, "more".to_string(), MessageRole::Assistant);
    assert_eq!(ms.len(), 2);
    assert_eq!(ms[0].content, "think");
    assert_eq!(ms[1].content, "saymore");
}

#[test]
fn user_fragments_never_merge() {
    let mut ms: Vec<ChatMessage> = Vec::new();
    append_streamed(&mut ms, "one".to_string(), MessageRole::User);
    append_streamed(&mut ms, "two".to_string(), MessageRole::User);
    assert_eq!(ms.len(), 2);
}

#[test]
fn roles_map_onto_the_neutral_taxonomy() {
    assert_eq!(wire_role(MessageRole::User), WireRole::User);
    assert_eq!(wire_role(MessageRole::Assistant), WireRole::Assistant);
    assert_eq!(wire_role(MessageRole::Thinking), WireRole::Assistant);
    assert_eq!(wire_role(MessageRole::System), WireRole::System);
    assert_eq!(wire_role(MessageRole::Error), WireRole::System);
}
