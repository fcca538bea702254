use agerus_core::decoder::{StreamEvent, ToolCall};
use agerus_core::orchestrator::{
    Orchestrator, ToolOutcome, TurnAction, TurnEvent, UiEvent,
};
use agerus_core::transcript::{ChatMessage, MessageRole, WireRole};

fn fresh(history: Vec<ChatMessage>) -> Orchestrator {
    Orchestrator::new(&history, b"fallback notice".to_vec())
}

fn msg(role: MessageRole, content: &str) -> ChatMessage {
    ChatMessage { role, content: content.to_string(), collapsed: false }
}

fn count_requests(acts: &[TurnAction]) -> usize {
    acts.iter()
        .filter(|a| matches!(a, TurnAction::SendRequest { include_tools: true, .. }))
        .count()
}

fn count_thinking(acts: &[TurnAction]) -> usize {
    acts.iter()
        .filter(|a| matches!(a, TurnAction::Emit(UiEvent::Thinking(_))))
        .count()
}

fn count_finished(acts: &[TurnAction]) -> usize {
    acts.iter()
        .filter(|a| matches!(a, TurnAction::Emit(UiEvent::TurnFinished)))
        .count()
}

#[test]
fn history_is_mapped_onto_the_wire_taxonomy() {
    let mut o = fresh(vec![
        msg(MessageRole::User, "ask"),
        msg(MessageRole::Thinking, "mull"),
        msg(MessageRole::Error, "bad"),
    ]);
    let acts = o.step(TurnEvent::ToolsListed(vec![]));
    assert_eq!(acts.len(), 1);
    match &acts[0] {
        TurnAction::SendRequest { messages, include_tools, .. } => {
            assert!(*include_tools);
            assert_eq!(messages.len(), 3);
            assert_eq!(messages[0].role, WireRole::User);
            assert_eq!(messages[0].content, b"ask".to_vec());
            assert_eq!(messages[1].role, WireRole::Assistant);
            assert_eq!(messages[2].role, WireRole::System);
        }
        other => panic!("expected a request, got {:?}", other),
    }
}

#[test]
fn registry_failure_ends_the_turn_with_one_finish() {
    let mut o = fresh(vec![]);
    let acts = o.step(TurnEvent::ToolsFailed(b"no registry".to_vec()));
    assert!(matches!(&acts[0], TurnAction::Emit(UiEvent::Error(t)) if t == b"no registry"));
    assert_eq!(count_finished(&acts), 1);
    assert!(o.is_done());
}

#[test]
fn connection_failure_is_terminal() {
    let mut o = fresh(vec![]);
    o.step(TurnEvent::ToolsListed(vec![]));
    let acts = o.step(TurnEvent::SendFailed(b"refused".to_vec()));
    assert!(matches!(&acts[0], TurnAction::Emit(UiEvent::Error(_))));
    assert_eq!(count_finished(&acts), 1);
    assert!(o.is_done());
}

#[test]
fn fallback_retries_once_and_keeps_only_the_second_response() {
    let mut o = fresh(vec![msg(MessageRole::User, "hi")]);
    o.step(TurnEvent::ToolsListed(vec![]));

    // first response: a 400-class rejection
    let acts = o.step(TurnEvent::Status { code: 400, body: vec![] });
    assert_eq!(count_thinking(&acts), 1);
    assert!(matches!(&acts[0], TurnAction::Emit(UiEvent::Thinking(t)) if t == b"fallback notice"));
    assert!(matches!(&acts[1], TurnAction::SendRequest { include_tools: false, .. }));
    assert_eq!(acts.len(), 2);

    // the retry succeeds; its stream requests one tool call
    let acts = o.step(TurnEvent::Status { code: 200, body: vec![] });
    assert_eq!(count_thinking(&acts), 0);
    assert!(acts.is_empty());
    o.step(TurnEvent::Stream(StreamEvent::Token(b"B".to_vec())));
    o.step(TurnEvent::Stream(StreamEvent::Call(ToolCall {
        name: b"run".to_vec(),
        arguments: b"{}".to_vec(),
    })));
    o.step(TurnEvent::StreamEnd);
    let acts = o.step(TurnEvent::ToolReplied(ToolOutcome::Success(b"out".to_vec())));

    // the next request carries the assistant message of the second
    // response alone
    let req = acts
        .iter()
        .find_map(|a| match a {
            TurnAction::SendRequest { messages, .. } => Some(messages),
            _ => None,
        })
        .expect("a new request follows the dispatched tool call");
    let assistant = req
        .iter()
        .find(|m| m.role == WireRole::Assistant)
        .expect("the assistant message is in the transcript");
    assert_eq!(assistant.content, b"B".to_vec());
}

#[test]
fn a_second_rejection_is_terminal_without_another_notice() {
    let mut o = fresh(vec![]);
    o.step(TurnEvent::ToolsListed(vec![]));
    o.step(TurnEvent::Status { code: 400, body: vec![] });
    let acts = o.step(TurnEvent::Status { code: 418, body: b"teapot".to_vec() });
    assert_eq!(count_thinking(&acts), 0);
    assert!(matches!(&acts[0], TurnAction::Emit(UiEvent::Error(t)) if t == b"teapot"));
    assert_eq!(count_finished(&acts), 1);
}

#[test]
fn tool_calls_are_dispatched_in_order_and_answered() {
    let mut o = fresh(vec![]);
    o.step(TurnEvent::ToolsListed(vec![]));
    o.step(TurnEvent::Status { code: 200, body: vec![] });
    o.step(TurnEvent::Stream(StreamEvent::Call(ToolCall {
        name: b"first".to_vec(),
        arguments: b"{}".to_vec(),
    })));
    o.step(TurnEvent::Stream(StreamEvent::Call(ToolCall {
        name: b"second".to_vec(),
        arguments: b"{}".to_vec(),
    })));
    let acts = o.step(TurnEvent::StreamEnd);
    assert!(matches!(&acts[0], TurnAction::Emit(UiEvent::CommandStart(l)) if l == b"first(...)"));
    assert!(matches!(&acts[1], TurnAction::CallTool { name, .. } if name == b"first"));

    // an execution error is recovered into the result text
    let acts = o.step(TurnEvent::ToolReplied(ToolOutcome::Failure(b"boom".to_vec())));
    assert!(matches!(
        &acts[0],
        TurnAction::Emit(UiEvent::CommandEnd(t)) if t == b"Tool Execution Error: boom"
    ));
    assert!(matches!(&acts[1], TurnAction::Emit(UiEvent::CommandStart(l)) if l == b"second(...)"));
    assert!(matches!(&acts[2], TurnAction::CallTool { name, .. } if name == b"second"));

    // a closed reply channel becomes the synthetic panic text
    let acts = o.step(TurnEvent::ToolReplied(ToolOutcome::ChannelClosed));
    assert!(matches!(
        &acts[0],
        TurnAction::Emit(UiEvent::CommandEnd(t)) if t == b"Tool Execution Panicked"
    ));
    // both answered: the next request goes out
    assert_eq!(count_requests(&acts), 1);
}

#[test]
fn a_response_without_tool_calls_ends_the_turn() {
    let mut o = fresh(vec![]);
    o.step(TurnEvent::ToolsListed(vec![]));
    o.step(TurnEvent::Status { code: 200, body: vec![] });
    let acts = o.step(TurnEvent::Stream(StreamEvent::Token(b"answer".to_vec())));
    assert!(matches!(&acts[0], TurnAction::Emit(UiEvent::Token(t)) if t == b"answer"));
    let acts = o.step(TurnEvent::StreamEnd);
    assert_eq!(count_finished(&acts), 1);
    assert!(o.is_done());
}

#[test]
fn the_cycle_bound_is_never_exceeded() {
    let mut o = fresh(vec![]);
    let mut requests: usize = 0;
    let mut finished: usize = 0;
    let acts = o.step(TurnEvent::ToolsListed(vec![]));
    requests += count_requests(&acts);
    finished += count_finished(&acts);
    // every response asks for yet another tool call
    for _ in 0..50 {
        if o.is_done() {
            break;
        }
        let acts = o.step(TurnEvent::Status { code: 200, body: vec![] });
        requests += count_requests(&acts);
        finished += count_finished(&acts);
        let acts = o.step(TurnEvent::Stream(StreamEvent::Call(ToolCall {
            name: b"again".to_vec(),
            arguments: b"{}".to_vec(),
        })));
        requests += count_requests(&acts);
        let acts = o.step(TurnEvent::StreamEnd);
        requests += count_requests(&acts);
        finished += count_finished(&acts);
        let acts = o.step(TurnEvent::ToolReplied(ToolOutcome::Success(vec![])));
        requests += count_requests(&acts);
        finished += count_finished(&acts);
    }
    assert!(o.is_done());
    assert_eq!(requests, 10);
    assert_eq!(finished, 1);
}

#[test]
fn a_registry_send_failure_answers_every_pending_call() {
    let mut o = fresh(vec![]);
    o.step(TurnEvent::ToolsListed(vec![]));
    o.step(TurnEvent::Status { code: 200, body: vec![] });
    o.step(TurnEvent::Stream(StreamEvent::Call(ToolCall {
        name: b"first".to_vec(),
        arguments: b"{}".to_vec(),
    })));
    o.step(TurnEvent::Stream(StreamEvent::Call(ToolCall {
        name: b"second".to_vec(),
        arguments: b"{}".to_vec(),
    })));
    o.step(TurnEvent::StreamEnd);

    // the registry cannot be reached for the first call: both pending
    // calls get a synthetic failure result, then the loop continues
    let acts = o.step(TurnEvent::ToolSendFailed(b"registry gone".to_vec()));
    assert!(matches!(&acts[0], TurnAction::Emit(UiEvent::Error(t)) if t == b"registry gone"));
    let req = acts
        .iter()
        .find_map(|a| match a {
            TurnAction::SendRequest { messages, .. } => Some(messages),
            _ => None,
        })
        .expect("the next request follows");
    let tool_replies: Vec<_> = req.iter().filter(|m| m.role == WireRole::Tool).collect();
    assert_eq!(tool_replies.len(), 2);
    for reply in tool_replies {
        assert_eq!(reply.content, b"Tool Execution Error: registry gone".to_vec());
    }
    // the transcript is balanced: two calls opened, two answered
    let opened: usize = req.iter().map(|m| m.calls.len()).sum();
    assert_eq!(opened, 2);
}
