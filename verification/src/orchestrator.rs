//! The turn orchestrator: the state machine that drives one user turn
//! against the model backend.
//!
//! A turn fetches the tool catalog once, then repeats up to
//! [`MAX_TURN_CYCLES`] request/decode cycles: send a chat request,
//! consume the decoded stream, and — when the response requested tool
//! calls — dispatch each call strictly in arrival order before asking
//! the model again.  A rejection in the 400 class is retried exactly
//! once with the tool specification omitted, after a user-visible
//! fallback notice.  Every exit path emits exactly one turn-finished
//! signal.
//!
//! The orchestrator performs no I/O itself.  The surrounding runtime
//! fetches, sends, streams and calls tools, and feeds every outcome
//! back in as a [`TurnEvent`]; the orchestrator answers with the
//! [`TurnAction`]s to perform next.  Decoded stream events come from
//! the [`crate::decoder::Decoder`], one at a time.

use vstd::prelude::*;
use vstd::utf8::encode_utf8;

use crate::decoder::StreamEvent;
use crate::decoder::StreamEvModel;
use crate::decoder::stream_ev_model;
use crate::decoder::ToolCall;
use crate::decoder::call_model;
use crate::transcript::ChatMessage;
use crate::transcript::WireRole;
use crate::transcript::spec_wire_role;
use crate::transcript::wire_role;

verus! {

/// The most request/decode cycles one turn may run.
pub const MAX_TURN_CYCLES: u8 = 10;

/// One tool offered by the registry: name, description and the JSON
/// schema of its input, as serialised text.
#[derive(Debug)]
pub struct ToolSpec {
    pub name: Vec<u8>,
    pub description: Vec<u8>,
    pub schema: Vec<u8>,
}

/// The spec-level value of a tool offer.
#[verifier::ext_equal]
pub struct ToolSpecModel {
    pub name: Seq<u8>,
    pub description: Seq<u8>,
    pub schema: Seq<u8>,
}

pub open spec fn tool_spec_model(t: ToolSpec) -> ToolSpecModel {
    ToolSpecModel { name: t.name@, description: t.description@, schema: t.schema@ }
}

pub open spec fn catalog_model(ts: Seq<ToolSpec>) -> Seq<ToolSpecModel>
    decreases ts.len(),
{
    if ts.len() == 0 {
        Seq::empty()
    } else {
        seq![tool_spec_model(ts[0])] + catalog_model(ts.drop_first())
    }
}

/// One message of the wire transcript sent to the backend.
#[derive(Debug)]
pub struct WireMsg {
    pub role: WireRole,
    pub content: Vec<u8>,
    pub calls: Vec<ToolCall>,
}

/// The spec-level value of a wire message.
#[verifier::ext_equal]
pub struct WireMsgModel {
    pub role: WireRole,
    pub content: Seq<u8>,
    pub calls: Seq<(Seq<u8>, Seq<u8>)>,
}

pub open spec fn calls_model(cs: Seq<ToolCall>) -> Seq<(Seq<u8>, Seq<u8>)>
    decreases cs.len(),
{
    if cs.len() == 0 {
        Seq::empty()
    } else {
        seq![call_model(cs[0])] + calls_model(cs.drop_first())
    }
}

pub open spec fn wire_msg_model(m: WireMsg) -> WireMsgModel {
    WireMsgModel { role: m.role, content: m.content@, calls: calls_model(m.calls@) }
}

pub open spec fn wire_msgs_model(ms: Seq<WireMsg>) -> Seq<WireMsgModel>
    decreases ms.len(),
{
    if ms.len() == 0 {
        Seq::empty()
    } else {
        seq![wire_msg_model(ms[0])] + wire_msgs_model(ms.drop_first())
    }
}

/// One event for the presentation collaborator.
#[derive(Debug, Clone, PartialEq, Eq)]
pub enum UiEvent {
    /// A fragment of assistant content, shown live.
    Token(Vec<u8>),
    /// A fragment of reasoning text, shown live.
    Thinking(Vec<u8>),
    /// A tool call is about to run; the payload is its display label.
    CommandStart(Vec<u8>),
    /// A tool call finished; the payload is its result text.
    CommandEnd(Vec<u8>),
    /// A line the shell printed.
    TerminalLine(Vec<u8>),
    /// An error to surface.
    Error(Vec<u8>),
    /// The one terminal signal of a turn.
    TurnFinished,
}

/// The spec-level value of a presentation event.
pub enum UiEventModel {
    Token(Seq<u8>),
    Thinking(Seq<u8>),
    CommandStart(Seq<u8>),
    CommandEnd(Seq<u8>),
    TerminalLine(Seq<u8>),
    Error(Seq<u8>),
    TurnFinished,
}

pub open spec fn ui_event_model(e: UiEvent) -> UiEventModel {
    match e {
        UiEvent::Token(v) => UiEventModel::Token(v@),
        UiEvent::Thinking(v) => UiEventModel::Thinking(v@),
        UiEvent::CommandStart(v) => UiEventModel::CommandStart(v@),
        UiEvent::CommandEnd(v) => UiEventModel::CommandEnd(v@),
        UiEvent::TerminalLine(v) => UiEventModel::TerminalLine(v@),
        UiEvent::Error(v) => UiEventModel::Error(v@),
        UiEvent::TurnFinished => UiEventModel::TurnFinished,
    }
}

/// One thing the surrounding runtime is asked to do.
#[derive(Debug)]
pub enum TurnAction {
    /// Send a chat request carrying this wire transcript and, unless
    /// the fallback dropped it, this tool specification.
    SendRequest { messages: Vec<WireMsg>, tools: Vec<ToolSpec>, include_tools: bool },
    /// Forward an event to the presentation collaborator.
    Emit(UiEvent),
    /// Call a tool over a single-use reply channel and report the
    /// outcome back.
    CallTool { name: Vec<u8>, arguments: Vec<u8> },
}

/// The spec-level value of an action.
pub enum ActModel {
    SendRequest { messages: Seq<WireMsgModel>, tools: Seq<ToolSpecModel>, include_tools: bool },
    Emit(UiEventModel),
    CallTool { name: Seq<u8>, arguments: Seq<u8> },
}

pub open spec fn act_model(a: TurnAction) -> ActModel {
    match a {
        TurnAction::SendRequest { messages, tools, include_tools } => ActModel::SendRequest {
            messages: wire_msgs_model(messages@),
            tools: catalog_model(tools@),
            include_tools,
        },
        TurnAction::Emit(e) => ActModel::Emit(ui_event_model(e)),
        TurnAction::CallTool { name, arguments } => ActModel::CallTool {
            name: name@,
            arguments: arguments@,
        },
    }
}

pub open spec fn acts_model(acts: Seq<TurnAction>) -> Seq<ActModel>
    decreases acts.len(),
{
    if acts.len() == 0 {
        Seq::empty()
    } else {
        seq![act_model(acts[0])] + acts_model(acts.drop_first())
    }
}

/// How one tool call ended: its output, an execution error reported by
/// the registry, or a reply channel that closed without an answer.
#[derive(Debug, Clone, PartialEq, Eq)]
pub enum ToolOutcome {
    Success(Vec<u8>),
    Failure(Vec<u8>),
    ChannelClosed,
}

/// The spec-level value of a tool outcome.
pub enum OutcomeModel {
    Success(Seq<u8>),
    Failure(Seq<u8>),
    ChannelClosed,
}

pub open spec fn outcome_model(o: ToolOutcome) -> OutcomeModel {
    match o {
        ToolOutcome::Success(v) => OutcomeModel::Success(v@),
        ToolOutcome::Failure(v) => OutcomeModel::Failure(v@),
        ToolOutcome::ChannelClosed => OutcomeModel::ChannelClosed,
    }
}

/// One thing that happened outside, fed into the orchestrator.
#[derive(Debug)]
pub enum TurnEvent {
    /// The tool catalog arrived.
    ToolsListed(Vec<ToolSpec>),
    /// The tool registry could not be reached; the payload is the
    /// error text to surface.
    ToolsFailed(Vec<u8>),
    /// The chat request failed at the connection level.
    SendFailed(Vec<u8>),
    /// The chat response arrived with this status code; the body text
    /// is used when the status is an error.
    Status { code: u16, body: Vec<u8> },
    /// One decoded stream event.
    Stream(StreamEvent),
    /// The response byte stream ended.
    StreamEnd,
    /// The pending tool call answered.
    ToolReplied(ToolOutcome),
    /// The pending tool call could not be submitted to the registry.
    ToolSendFailed(Vec<u8>),
}

/// The spec-level value of an outside event.
pub enum EvModel {
    ToolsListed(Seq<ToolSpecModel>),
    ToolsFailed(Seq<u8>),
    SendFailed(Seq<u8>),
    Status { code: u16, body: Seq<u8> },
    Stream(StreamEvModel),
    StreamEnd,
    ToolReplied(OutcomeModel),
    ToolSendFailed(Seq<u8>),
}

pub open spec fn ev_model(e: TurnEvent) -> EvModel {
    match e {
        TurnEvent::ToolsListed(ts) => EvModel::ToolsListed(catalog_model(ts@)),
        TurnEvent::ToolsFailed(v) => EvModel::ToolsFailed(v@),
        TurnEvent::SendFailed(v) => EvModel::SendFailed(v@),
        TurnEvent::Status { code, body } => EvModel::Status { code, body: body@ },
        TurnEvent::Stream(s) => EvModel::Stream(stream_ev_model(s)),
        TurnEvent::StreamEnd => EvModel::StreamEnd,
        TurnEvent::ToolReplied(o) => EvModel::ToolReplied(outcome_model(o)),
        TurnEvent::ToolSendFailed(v) => EvModel::ToolSendFailed(v@),
    }
}

/// Where in the turn the orchestrator stands.
#[derive(Debug, Clone, Copy, PartialEq, Eq, Structural)]
pub enum Phase {
    /// Waiting for the tool catalog.
    FetchingTools,
    /// A request is out; waiting for its status.  `fallback` marks the
    /// retry without tools.
    AwaitingStatus { fallback: bool },
    /// Consuming the decoded response stream.
    Streaming { fallback: bool },
    /// Waiting for the answer to the first pending tool call.
    AwaitingTool,
    /// The turn is over; every further event is ignored.
    Done,
}

/// The orchestrator's abstract state.
#[verifier::ext_equal]
pub struct OrchModel {
    pub phase: Phase,
    /// Request/decode cycles begun so far, at most [`MAX_TURN_CYCLES`].
    pub loops: u8,
    /// The wire transcript the next request will carry.
    pub messages: Seq<WireMsgModel>,
    /// The tool catalog, fetched once per turn.
    pub tools: Seq<ToolSpecModel>,
    /// Text the fallback notice carries.
    pub notice: Seq<u8>,
    /// Assistant content accumulated from the current response.
    pub content: Seq<u8>,
    /// Tool calls accumulated from the current response.
    pub calls: Seq<(Seq<u8>, Seq<u8>)>,
    /// Calls still to dispatch, first one in flight.
    pub pending: Seq<(Seq<u8>, Seq<u8>)>,
}

/// A well-formed orchestrator state: the cycle counter never passes the
/// bound, and a tool call is awaited only while one is pending.
pub open spec fn orch_wf(st: OrchModel) -> bool {
    &&& st.loops <= MAX_TURN_CYCLES
    &&& (st.phase is AwaitingTool ==> st.pending.len() >= 1)
}

/// The one terminal signal.
pub open spec fn finish_acts() -> Seq<ActModel> {
    seq![ActModel::Emit(UiEventModel::TurnFinished)]
}

/// A terminal error: reported once, then the turn is finished.
pub open spec fn fail_acts(txt: Seq<u8>) -> Seq<ActModel> {
    seq![ActModel::Emit(UiEventModel::Error(txt)), ActModel::Emit(UiEventModel::TurnFinished)]
}

/// Begin the next request/decode cycle, or end the turn quietly when
/// the bound is reached.
pub open spec fn start_cycle(st: OrchModel) -> (OrchModel, Seq<ActModel>) {
    if st.loops >= MAX_TURN_CYCLES {
        (
            OrchModel { phase: Phase::Done, ..st },
            finish_acts(),
        )
    } else {
        (
            OrchModel {
                phase: Phase::AwaitingStatus { fallback: false },
                loops: (st.loops + 1) as u8,
                content: Seq::empty(),
                calls: Seq::empty(),
                pending: Seq::empty(),
                ..st
            },
            seq![
                ActModel::SendRequest {
                    messages: st.messages,
                    tools: st.tools,
                    include_tools: true,
                },
            ],
        )
    }
}

/// The display label of a tool call: its name followed by `(...)`.
pub open spec fn call_label(name: Seq<u8>) -> Seq<u8> {
    name + seq![40u8, 46u8, 46u8, 46u8, 41u8]
}

/// Announce and submit one tool call.
pub open spec fn dispatch_acts(c: (Seq<u8>, Seq<u8>)) -> Seq<ActModel> {
    seq![
        ActModel::Emit(UiEventModel::CommandStart(call_label(c.0))),
        ActModel::CallTool { name: c.0, arguments: c.1 },
    ]
}

/// The transcript text a tool outcome leaves behind: the output on
/// success, a synthetic error text otherwise.
pub open spec fn outcome_text(o: OutcomeModel) -> Seq<u8> {
    match o {
        OutcomeModel::Success(v) => v,
        OutcomeModel::Failure(v) => encode_utf8("Tool Execution Error: "@) + v,
        OutcomeModel::ChannelClosed => encode_utf8("Tool Execution Panicked"@),
    }
}

/// The synthetic tool-result messages for calls that could not be
/// submitted to the registry: one failure reply per unanswered call,
/// so no tool call is ever left without a result in the transcript.
pub open spec fn failure_replies(n: nat, txt: Seq<u8>) -> Seq<WireMsgModel>
    decreases n,
{
    if n == 0 {
        Seq::empty()
    } else {
        failure_replies((n - 1) as nat, txt).push(
            WireMsgModel {
                role: WireRole::Tool,
                content: outcome_text(OutcomeModel::Failure(txt)),
                calls: Seq::empty(),
            },
        )
    }
}

/// The response stream is over: end the turn if it requested no tool
/// calls, else record the assistant message and dispatch the first
/// call.
pub open spec fn end_of_stream(st: OrchModel) -> (OrchModel, Seq<ActModel>) {
    if st.calls.len() == 0 {
        (OrchModel { phase: Phase::Done, ..st }, finish_acts())
    } else {
        let assistant = WireMsgModel {
            role: WireRole::Assistant,
            content: st.content,
            calls: st.calls,
        };
        (
            OrchModel {
                phase: Phase::AwaitingTool,
                messages: st.messages.push(assistant),
                pending: st.calls,
                ..st
            },
            dispatch_acts(st.calls[0]),
        )
    }
}

/// One step of the turn state machine: the next state and the actions
/// the runtime must perform, in order.  An event that does not fit the
/// phase is ignored.
pub open spec fn orch_step(st: OrchModel, ev: EvModel) -> (OrchModel, Seq<ActModel>) {
    match ev {
        EvModel::ToolsListed(ts) => {
            if st.phase is FetchingTools {
                start_cycle(OrchModel { tools: ts, ..st })
            } else {
                (st, Seq::empty())
            }
        },
        EvModel::ToolsFailed(txt) => {
            if st.phase is FetchingTools {
                (OrchModel { phase: Phase::Done, ..st }, fail_acts(txt))
            } else {
                (st, Seq::empty())
            }
        },
        EvModel::SendFailed(txt) => {
            if st.phase is AwaitingStatus {
                (OrchModel { phase: Phase::Done, ..st }, fail_acts(txt))
            } else {
                (st, Seq::empty())
            }
        },
        EvModel::Status { code, body } => {
            match st.phase {
                Phase::AwaitingStatus { fallback } => {
                    if 200 <= code < 300 {
                        (
                            OrchModel { phase: Phase::Streaming { fallback }, ..st },
                            Seq::empty(),
                        )
                    } else if 400 <= code < 500 && !fallback {
                        (
                            OrchModel { phase: Phase::AwaitingStatus { fallback: true }, ..st },
                            seq![
                                ActModel::Emit(UiEventModel::Thinking(st.notice)),
                                ActModel::SendRequest {
                                    messages: st.messages,
                                    tools: Seq::empty(),
                                    include_tools: false,
                                },
                            ],
                        )
                    } else {
                        (OrchModel { phase: Phase::Done, ..st }, fail_acts(body))
                    }
                },
                _ => (st, Seq::empty()),
            }
        },
        EvModel::Stream(sev) => {
            if st.phase is Streaming {
                match sev {
                    StreamEvModel::Token(v) => (
                        OrchModel { content: st.content + v, ..st },
                        seq![ActModel::Emit(UiEventModel::Token(v))],
                    ),
                    StreamEvModel::Thinking(v) => (
                        st,
                        seq![ActModel::Emit(UiEventModel::Thinking(v))],
                    ),
                    StreamEvModel::Call(name, args) => (
                        OrchModel { calls: st.calls.push((name, args)), ..st },
                        Seq::empty(),
                    ),
                    StreamEvModel::ErrorNotice(v) => (
                        st,
                        seq![ActModel::Emit(UiEventModel::Error(v))],
                    ),
                    StreamEvModel::Done => end_of_stream(st),
                }
            } else {
                (st, Seq::empty())
            }
        },
        EvModel::StreamEnd => {
            if st.phase is Streaming {
                end_of_stream(st)
            } else {
                (st, Seq::empty())
            }
        },
        EvModel::ToolReplied(o) => {
            if st.phase is AwaitingTool && st.pending.len() >= 1 {
                let txt = outcome_text(o);
                let reply = WireMsgModel { role: WireRole::Tool, content: txt, calls: Seq::empty() };
                let st2 = OrchModel {
                    messages: st.messages.push(reply),
                    pending: st.pending.drop_first(),
                    ..st
                };
                let end_act = seq![ActModel::Emit(UiEventModel::CommandEnd(txt))];
                if st2.pending.len() == 0 {
                    let started = start_cycle(st2);
                    (started.0, end_act + started.1)
                } else {
                    (st2, end_act + dispatch_acts(st2.pending[0]))
                }
            } else {
                (st, Seq::empty())
            }
        },
        EvModel::ToolSendFailed(txt) => {
            if st.phase is AwaitingTool {
                // recovered locally: every call still pending gets a
                // synthetic failure result before the next request
                let answered = OrchModel {
                    messages: st.messages + failure_replies(st.pending.len(), txt),
                    pending: Seq::empty(),
                    ..st
                };
                let started = start_cycle(answered);
                (
                    started.0,
                    seq![ActModel::Emit(UiEventModel::Error(txt))] + started.1,
                )
            } else {
                (st, Seq::empty())
            }
        },
    }
}

/// The state a fresh turn starts in.
pub open spec fn orch_init(
    messages: Seq<WireMsgModel>,
    notice: Seq<u8>,
) -> OrchModel {
    OrchModel {
        phase: Phase::FetchingTools,
        loops: 0,
        messages,
        tools: Seq::empty(),
        notice,
        content: Seq::empty(),
        calls: Seq::empty(),
        pending: Seq::empty(),
    }
}

/// Run the state machine over a whole sequence of events.
pub open spec fn orch_run(st: OrchModel, evs: Seq<EvModel>) -> (OrchModel, Seq<ActModel>)
    decreases evs.len(),
{
    if evs.len() == 0 {
        (st, Seq::empty())
    } else {
        let first = orch_step(st, evs[0]);
        let rest = orch_run(first.0, evs.drop_first());
        (rest.0, first.1 + rest.1)
    }
}

/// How many request/decode cycles a run of actions begins: the requests
/// that carry the tool specification.  The fallback retry belongs to
/// the cycle that began it.
pub open spec fn cycles_started(acts: Seq<ActModel>) -> nat
    decreases acts.len(),
{
    if acts.len() == 0 {
        0
    } else {
        (match acts[0] {
            ActModel::SendRequest { messages: _, tools: _, include_tools } => if include_tools {
                1nat
            } else {
                0nat
            },
            _ => 0nat,
        }) + cycles_started(acts.drop_first())
    }
}

/// How many fallback notices a run of actions emits: the reasoning
/// notes shown right before a retry without tools.
pub open spec fn fallback_notices(acts: Seq<ActModel>) -> nat
    decreases acts.len(),
{
    if acts.len() == 0 {
        0
    } else {
        (match acts[0] {
            ActModel::Emit(e) => match e {
                UiEventModel::Thinking(_) => 1nat,
                _ => 0nat,
            },
            _ => 0nat,
        }) + fallback_notices(acts.drop_first())
    }
}

/// How many turn-finished signals a run of actions emits.
pub open spec fn finish_signals(acts: Seq<ActModel>) -> nat
    decreases acts.len(),
{
    if acts.len() == 0 {
        0
    } else {
        (match acts[0] {
            ActModel::Emit(e) => match e {
                UiEventModel::TurnFinished => 1nat,
                _ => 0nat,
            },
            _ => 0nat,
        }) + finish_signals(acts.drop_first())
    }
}

pub proof fn lemma_cycles_append(a: Seq<ActModel>, b: Seq<ActModel>)
    ensures
        cycles_started(a + b) == cycles_started(a) + cycles_started(b),
    decreases a.len(),
{
    if a.len() == 0 {
        assert(a + b == b);
    } else {
        lemma_cycles_append(a.drop_first(), b);
        assert((a + b).drop_first() =~= a.drop_first() + b);
        assert((a + b)[0] == a[0]);
    }
}

/// One step keeps the state well formed, never drives the cycle
/// counter past the bound, and begins exactly as many cycles as the
/// counter grows by.
pub proof fn lemma_step_bound(st: OrchModel, ev: EvModel)
    requires
        orch_wf(st),
    ensures
        orch_wf(orch_step(st, ev).0),
        orch_step(st, ev).0.loops <= MAX_TURN_CYCLES,
        st.loops <= orch_step(st, ev).0.loops,
        cycles_started(orch_step(st, ev).1) == orch_step(st, ev).0.loops - st.loops,
{
    reveal_with_fuel(cycles_started, 5);
    match ev {
        EvModel::ToolsListed(ts) => {
            if st.phase is FetchingTools {
                lemma_start_cycle_counts(OrchModel { tools: ts, ..st });
            }
        },
        EvModel::ToolReplied(o) => {
            if st.phase is AwaitingTool && st.pending.len() >= 1 {
                let txt = outcome_text(o);
                let reply = WireMsgModel { role: WireRole::Tool, content: txt, calls: Seq::empty() };
                let st2 = OrchModel {
                    messages: st.messages.push(reply),
                    pending: st.pending.drop_first(),
                    ..st
                };
                let end_act = seq![ActModel::Emit(UiEventModel::CommandEnd(txt))];
                if st2.pending.len() == 0 {
                    lemma_start_cycle_counts(st2);
                    lemma_cycles_append(end_act, start_cycle(st2).1);
                    assert(cycles_started(end_act) == 0);
                } else {
                    lemma_cycles_append(end_act, dispatch_acts(st2.pending[0]));
                    assert(cycles_started(end_act) == 0);
                    assert(cycles_started(dispatch_acts(st2.pending[0])) == 0);
                }
            }
        },
        EvModel::ToolSendFailed(txt) => {
            if st.phase is AwaitingTool {
                let answered = OrchModel {
                    messages: st.messages + failure_replies(st.pending.len(), txt),
                    pending: Seq::empty(),
                    ..st
                };
                lemma_start_cycle_counts(answered);
                lemma_cycles_append(
                    seq![ActModel::Emit(UiEventModel::Error(txt))],
                    start_cycle(answered).1,
                );
            }
        },
        _ => {},
    }
}

/// `start_cycle` begins one cycle below the bound and none at it.
proof fn lemma_start_cycle_counts(st: OrchModel)
    requires
        st.loops <= MAX_TURN_CYCLES,
    ensures
        orch_wf(start_cycle(st).0),
        st.loops <= start_cycle(st).0.loops <= MAX_TURN_CYCLES,
        cycles_started(start_cycle(st).1) == start_cycle(st).0.loops - st.loops,
{
    reveal_with_fuel(cycles_started, 3);
}

/// The orchestrator never exceeds the cycle bound: over any sequence
/// of outside events, a turn begins at most [`MAX_TURN_CYCLES`]
/// request/decode cycles, however many tool calls the responses ask
/// for.
pub proof fn lemma_turn_cycle_bound(st: OrchModel, evs: Seq<EvModel>)
    requires
        orch_wf(st),
    ensures
        orch_wf(orch_run(st, evs).0),
        cycles_started(orch_run(st, evs).1) <= MAX_TURN_CYCLES - st.loops,
    decreases evs.len(),
{
    if evs.len() == 0 {
        assert(cycles_started(Seq::<ActModel>::empty()) == 0);
    } else {
        let first = orch_step(st, evs[0]);
        lemma_step_bound(st, evs[0]);
        lemma_turn_cycle_bound(first.0, evs.drop_first());
        lemma_cycles_append(first.1, orch_run(first.0, evs.drop_first()).1);
    }
}

/// The fallback policy retries exactly once: a rejection in the 400
/// class on the first try emits exactly one fallback notice and resends
/// the identical transcript without tools; a success answering the
/// retry emits none and proceeds to streaming; accumulated content is
/// untouched by both, so the final content reflects the retried
/// response alone.
pub proof fn lemma_fallback_once(st: OrchModel, code1: u16, body1: Seq<u8>, code2: u16, body2: Seq<u8>)
    requires
        orch_wf(st),
        st.phase == (Phase::AwaitingStatus { fallback: false }),
        400 <= code1 < 500,
        200 <= code2 < 300,
    ensures
        ({
            let (st1, acts1) = orch_step(st, EvModel::Status { code: code1, body: body1 });
            let (st2, acts2) = orch_step(st1, EvModel::Status { code: code2, body: body2 });
            &&& fallback_notices(acts1) == 1
            &&& acts1 == seq![
                ActModel::Emit(UiEventModel::Thinking(st.notice)),
                ActModel::SendRequest {
                    messages: st.messages,
                    tools: Seq::empty(),
                    include_tools: false,
                },
            ]
            &&& st1.phase == (Phase::AwaitingStatus { fallback: true })
            &&& st1.content == st.content
            &&& fallback_notices(acts2) == 0
            &&& acts2 == Seq::<ActModel>::empty()
            &&& st2.phase == (Phase::Streaming { fallback: true })
            &&& st2.content == st.content
        }),
{
    reveal_with_fuel(fallback_notices, 3);
}

/// A further rejection of the retry is terminal: no second fallback
/// notice, the error is reported once and the turn finishes.
pub proof fn lemma_no_second_fallback(st: OrchModel, code: u16, body: Seq<u8>)
    requires
        orch_wf(st),
        st.phase == (Phase::AwaitingStatus { fallback: true }),
        !(200 <= code < 300),
    ensures
        ({
            let (st2, acts) = orch_step(st, EvModel::Status { code, body });
            &&& fallback_notices(acts) == 0
            &&& acts == fail_acts(body)
            &&& st2.phase is Done
            &&& finish_signals(acts) == 1
        }),
{
    reveal_with_fuel(fallback_notices, 3);
    reveal_with_fuel(finish_signals, 3);
}


/// One more call extends the call models at the end.
pub proof fn lemma_calls_model_push(cs: Seq<ToolCall>, c: ToolCall)
    ensures
        calls_model(cs.push(c)) == calls_model(cs).push(call_model(c)),
    decreases cs.len(),
{
    reveal_with_fuel(calls_model, 2);
    if cs.len() == 0 {
        assert(cs.push(c).drop_first() =~= Seq::<ToolCall>::empty());
        assert(cs.push(c)[0] == c);
        assert(calls_model(cs.push(c)) =~= calls_model(cs).push(call_model(c)));
    } else {
        lemma_calls_model_push(cs.drop_first(), c);
        assert(cs.push(c).drop_first() =~= cs.drop_first().push(c));
        assert(cs.push(c)[0] == cs[0]);
        assert(calls_model(cs.push(c)) =~= calls_model(cs).push(call_model(c)));
    }
}

/// One more message extends the wire models at the end.
pub proof fn lemma_wire_msgs_push(ms: Seq<WireMsg>, m: WireMsg)
    ensures
        wire_msgs_model(ms.push(m)) == wire_msgs_model(ms).push(wire_msg_model(m)),
    decreases ms.len(),
{
    reveal_with_fuel(wire_msgs_model, 2);
    if ms.len() == 0 {
        assert(ms.push(m).drop_first() =~= Seq::<WireMsg>::empty());
        assert(ms.push(m)[0] == m);
        assert(wire_msgs_model(ms.push(m)) =~= wire_msgs_model(ms).push(wire_msg_model(m)));
    } else {
        lemma_wire_msgs_push(ms.drop_first(), m);
        assert(ms.push(m).drop_first() =~= ms.drop_first().push(m));
        assert(ms.push(m)[0] == ms[0]);
        assert(wire_msgs_model(ms.push(m)) =~= wire_msgs_model(ms).push(wire_msg_model(m)));
    }
}

/// One more offer extends the tool-spec models at the end.
pub proof fn lemma_tool_specs_push(ts: Seq<ToolSpec>, t: ToolSpec)
    ensures
        catalog_model(ts.push(t)) == catalog_model(ts).push(tool_spec_model(t)),
    decreases ts.len(),
{
    reveal_with_fuel(catalog_model, 2);
    if ts.len() == 0 {
        assert(ts.push(t).drop_first() =~= Seq::<ToolSpec>::empty());
        assert(ts.push(t)[0] == t);
        assert(catalog_model(ts.push(t)) =~= catalog_model(ts).push(tool_spec_model(t)));
    } else {
        lemma_tool_specs_push(ts.drop_first(), t);
        assert(ts.push(t).drop_first() =~= ts.drop_first().push(t));
        assert(ts.push(t)[0] == ts[0]);
        assert(catalog_model(ts.push(t)) =~= catalog_model(ts).push(tool_spec_model(t)));
    }
}

/// One more action extends the action models at the end.
pub proof fn lemma_acts_push(acts: Seq<TurnAction>, a: TurnAction)
    ensures
        acts_model(acts.push(a)) == acts_model(acts).push(act_model(a)),
    decreases acts.len(),
{
    reveal_with_fuel(acts_model, 2);
    if acts.len() == 0 {
        assert(acts.push(a).drop_first() =~= Seq::<TurnAction>::empty());
        assert(acts.push(a)[0] == a);
        assert(acts_model(acts.push(a)) =~= acts_model(acts).push(act_model(a)));
    } else {
        lemma_acts_push(acts.drop_first(), a);
        assert(acts.push(a).drop_first() =~= acts.drop_first().push(a));
        assert(acts.push(a)[0] == acts[0]);
        assert(acts_model(acts.push(a)) =~= acts_model(acts).push(act_model(a)));
    }
}

/// Copy a byte vector.
fn copy_bytes(v: &Vec<u8>) -> (r: Vec<u8>)
    ensures
        r@ == v@,
{
    vstd::slice::slice_to_vec(v.as_slice())
}

/// Copy one tool call.
fn copy_call(c: &ToolCall) -> (r: ToolCall)
    ensures
        call_model(r) == call_model(*c),
{
    ToolCall { name: copy_bytes(&c.name), arguments: copy_bytes(&c.arguments) }
}

/// Copy a list of tool calls.
#[verifier::loop_isolation(false)]
fn copy_calls(cs: &Vec<ToolCall>) -> (r: Vec<ToolCall>)
    ensures
        calls_model(r@) == calls_model(cs@),
{
    let mut r: Vec<ToolCall> = Vec::new();
    let mut i: usize = 0;
    proof {
        assert(cs@.take(0) =~= Seq::<ToolCall>::empty());
        assert(calls_model(r@) =~= calls_model(cs@.take(0)));
    }
    while i < cs.len()
        invariant
            0 <= i <= cs@.len(),
            calls_model(r@) == calls_model(cs@.take(i as int)),
        decreases cs@.len() - i,
    {
        let ghost r_pre = r@;
        let c = copy_call(&cs[i]);
        let ghost gc = c;
        r.push(c);
        proof {
            lemma_calls_model_push(r_pre, gc);
            lemma_calls_model_push(cs@.take(i as int), cs@[i as int]);
            assert(cs@.take(i + 1) =~= cs@.take(i as int).push(cs@[i as int]));
        }
        i = i + 1;
    }
    proof {
        assert(cs@.take(cs@.len() as int) =~= cs@);
    }
    r
}

/// Copy one wire message.
fn copy_wire_msg(m: &WireMsg) -> (r: WireMsg)
    ensures
        wire_msg_model(r) == wire_msg_model(*m),
{
    let r = WireMsg {
        role: m.role,
        content: copy_bytes(&m.content),
        calls: copy_calls(&m.calls),
    };
    assert(wire_msg_model(r) =~= wire_msg_model(*m));
    r
}

/// Copy the wire transcript.
#[verifier::loop_isolation(false)]
fn copy_wire_msgs(ms: &Vec<WireMsg>) -> (r: Vec<WireMsg>)
    ensures
        wire_msgs_model(r@) == wire_msgs_model(ms@),
{
    let mut r: Vec<WireMsg> = Vec::new();
    let mut i: usize = 0;
    proof {
        assert(ms@.take(0) =~= Seq::<WireMsg>::empty());
        assert(wire_msgs_model(r@) =~= wire_msgs_model(ms@.take(0)));
    }
    while i < ms.len()
        invariant
            0 <= i <= ms@.len(),
            wire_msgs_model(r@) == wire_msgs_model(ms@.take(i as int)),
        decreases ms@.len() - i,
    {
        let ghost r_pre = r@;
        let m = copy_wire_msg(&ms[i]);
        let ghost gm = m;
        r.push(m);
        proof {
            lemma_wire_msgs_push(r_pre, gm);
            lemma_wire_msgs_push(ms@.take(i as int), ms@[i as int]);
            assert(ms@.take(i + 1) =~= ms@.take(i as int).push(ms@[i as int]));
        }
        i = i + 1;
    }
    proof {
        assert(ms@.take(ms@.len() as int) =~= ms@);
    }
    r
}

/// Copy one tool offer.
fn copy_tool_spec(t: &ToolSpec) -> (r: ToolSpec)
    ensures
        tool_spec_model(r) == tool_spec_model(*t),
{
    let r = ToolSpec {
        name: copy_bytes(&t.name),
        description: copy_bytes(&t.description),
        schema: copy_bytes(&t.schema),
    };
    assert(tool_spec_model(r) =~= tool_spec_model(*t));
    r
}


/// Copy the tool catalog.
#[verifier::loop_isolation(false)]
fn copy_catalog(ts: &Vec<ToolSpec>) -> (r: Vec<ToolSpec>)
    ensures
        catalog_model(r@) == catalog_model(ts@),
{
    let mut r: Vec<ToolSpec> = Vec::new();
    let mut i: usize = 0;
    proof {
        assert(ts@.take(0) =~= Seq::<ToolSpec>::empty());
        assert(catalog_model(r@) =~= catalog_model(ts@.take(0)));
    }
    while i < ts.len()
        invariant
            0 <= i <= ts@.len(),
            catalog_model(r@) == catalog_model(ts@.take(i as int)),
        decreases ts@.len() - i,
    {
        let ghost r_pre = r@;
        let t = copy_tool_spec(&ts[i]);
        let ghost gt = t;
        r.push(t);
        proof {
            lemma_tool_specs_push(r_pre, gt);
            lemma_tool_specs_push(ts@.take(i as int), ts@[i as int]);
            assert(ts@.take(i + 1) =~= ts@.take(i as int).push(ts@[i as int]));
        }
        i = i + 1;
    }
    proof {
        assert(ts@.take(ts@.len() as int) =~= ts@);
    }
    r
}

/// `acts_model` distributes over concatenation.
pub proof fn lemma_acts_append(a: Seq<TurnAction>, b: Seq<TurnAction>)
    ensures
        acts_model(a + b) == acts_model(a) + acts_model(b),
    decreases a.len(),
{
    if a.len() == 0 {
        assert(a + b == b);
        assert(acts_model(a) + acts_model(b) =~= acts_model(b));
    } else {
        lemma_acts_append(a.drop_first(), b);
        assert((a + b).drop_first() =~= a.drop_first() + b);
        assert((a + b)[0] == a[0]);
        assert(acts_model(a + b) =~= acts_model(a) + acts_model(b));
    }
}

/// The model of a call list has the list's length and starts with the
/// model of its first call.
pub proof fn lemma_calls_model_len(cs: Seq<ToolCall>)
    ensures
        calls_model(cs).len() == cs.len(),
        cs.len() > 0 ==> calls_model(cs)[0] == call_model(cs[0]),
    decreases cs.len(),
{
    if cs.len() == 0 {
    } else {
        lemma_calls_model_len(cs.drop_first());
    }
}

/// The wire form of a stored transcript: each message mapped onto the
/// backend's role taxonomy, its content encoded, with no tool calls.
pub open spec fn history_model(ms: Seq<ChatMessage>) -> Seq<WireMsgModel>
    decreases ms.len(),
{
    if ms.len() == 0 {
        Seq::empty()
    } else {
        seq![
            WireMsgModel {
                role: spec_wire_role(ms[0].role),
                content: encode_utf8(ms[0].content@),
                calls: Seq::empty(),
            },
        ] + history_model(ms.drop_first())
    }
}

/// One more message extends the wire form at the end.
pub proof fn lemma_history_model_push(ms: Seq<ChatMessage>, m: ChatMessage)
    ensures
        history_model(ms.push(m)) == history_model(ms).push(
            WireMsgModel {
                role: spec_wire_role(m.role),
                content: encode_utf8(m.content@),
                calls: Seq::empty(),
            },
        ),
    decreases ms.len(),
{
    reveal_with_fuel(history_model, 2);
    let wm = WireMsgModel {
        role: spec_wire_role(m.role),
        content: encode_utf8(m.content@),
        calls: Seq::empty(),
    };
    if ms.len() == 0 {
        assert(ms.push(m).drop_first() =~= Seq::<ChatMessage>::empty());
        assert(ms.push(m)[0] == m);
        assert(history_model(ms.push(m)) =~= history_model(ms).push(wm));
    } else {
        lemma_history_model_push(ms.drop_first(), m);
        assert(ms.push(m).drop_first() =~= ms.drop_first().push(m));
        assert(ms.push(m)[0] == ms[0]);
        assert(history_model(ms.push(m)) =~= history_model(ms).push(wm));
    }
}

/// An empty action list.
fn no_acts() -> (out: Vec<TurnAction>)
    ensures
        acts_model(out@) == Seq::<ActModel>::empty(),
{
    let out: Vec<TurnAction> = Vec::new();
    assert(acts_model(out@) =~= Seq::<ActModel>::empty());
    out
}

/// The transcript text of a tool outcome.
fn outcome_bytes(o: ToolOutcome) -> (r: Vec<u8>)
    ensures
        r@ == outcome_text(outcome_model(o)),
{
    match o {
        ToolOutcome::Success(v) => v,
        ToolOutcome::Failure(v) => {
            let mut r = "Tool Execution Error: ".as_bytes_vec();
            r.extend_from_slice(v.as_slice());
            r
        },
        ToolOutcome::ChannelClosed => "Tool Execution Panicked".as_bytes_vec(),
    }
}

/// The turn orchestrator.  See the module documentation for the flow.
pub struct Orchestrator {
    phase: Phase,
    loops: u8,
    messages: Vec<WireMsg>,
    tools: Vec<ToolSpec>,
    notice: Vec<u8>,
    content: Vec<u8>,
    calls: Vec<ToolCall>,
    pending: Vec<ToolCall>,
}

impl View for Orchestrator {
    type V = OrchModel;

    closed spec fn view(&self) -> OrchModel {
        OrchModel {
            phase: self.phase,
            loops: self.loops,
            messages: wire_msgs_model(self.messages@),
            tools: catalog_model(self.tools@),
            notice: self.notice@,
            content: self.content@,
            calls: calls_model(self.calls@),
            pending: calls_model(self.pending@),
        }
    }
}

impl Orchestrator {
    /// Begin a turn over a snapshot of the transcript.  `notice` is the
    /// text shown if the backend rejects the tool specification and the
    /// request is retried without it.  The caller must now ask the tool
    /// registry for its catalog and feed the answer in.
    #[verifier::loop_isolation(false)]
    pub fn new(history: &Vec<ChatMessage>, notice: Vec<u8>) -> (o: Orchestrator)
        ensures
            o@ == orch_init(history_model(history@), notice@),
            orch_wf(o@),
    {
        let mut messages: Vec<WireMsg> = Vec::new();
        let mut i: usize = 0;
        proof {
            assert(history@.take(0) =~= Seq::<ChatMessage>::empty());
            assert(wire_msgs_model(messages@) =~= history_model(history@.take(0)));
        }
        while i < history.len()
            invariant
                0 <= i <= history@.len(),
                wire_msgs_model(messages@) == history_model(history@.take(i as int)),
            decreases history@.len() - i,
        {
            let m = &history[i];
            let ghost msgs_pre = messages@;
            let wm = WireMsg {
                role: wire_role(m.role),
                content: m.content.as_str().as_bytes_vec(),
                calls: Vec::new(),
            };
            let ghost gwm = wm;
            messages.push(wm);
            proof {
                lemma_wire_msgs_push(msgs_pre, gwm);
                lemma_history_model_push(history@.take(i as int), history@[i as int]);
                assert(history@.take(i + 1) =~= history@.take(i as int).push(
                    history@[i as int],
                ));
                assert(calls_model(Seq::<ToolCall>::empty())
                    =~= Seq::<(Seq<u8>, Seq<u8>)>::empty());
                assert(wire_msg_model(gwm) =~= WireMsgModel {
                    role: spec_wire_role(history@[i as int].role),
                    content: encode_utf8(history@[i as int].content@),
                    calls: Seq::empty(),
                });
            }
            i = i + 1;
        }
        proof {
            assert(history@.take(history@.len() as int) =~= history@);
        }
        let o = Orchestrator {
            phase: Phase::FetchingTools,
            loops: 0,
            messages,
            tools: Vec::new(),
            notice,
            content: Vec::new(),
            calls: Vec::new(),
            pending: Vec::new(),
        };
        proof {
            assert(catalog_model(Seq::<ToolSpec>::empty()) =~= Seq::<ToolSpecModel>::empty());
            assert(calls_model(Seq::<ToolCall>::empty()) =~= Seq::<(Seq<u8>, Seq<u8>)>::empty());
            assert(o@ =~= orch_init(history_model(history@), notice@));
        }
        o
    }

    /// Whether the turn is over.
    pub fn is_done(&self) -> (r: bool)
        ensures
            r == (self@.phase is Done),
    {
        match self.phase {
            Phase::Done => true,
            _ => false,
        }
    }

    /// End the turn with one reported error.
    fn fail_turn(&mut self, txt: Vec<u8>) -> (out: Vec<TurnAction>)
        ensures
            final(self)@ == (OrchModel { phase: Phase::Done, ..old(self)@ }),
            acts_model(out@) == fail_acts(txt@),
    {
        self.phase = Phase::Done;
        let ghost gtxt = txt@;
        let mut out: Vec<TurnAction> = Vec::new();
        let act1 = TurnAction::Emit(UiEvent::Error(txt));
        let ghost ga1 = act1;
        out.push(act1);
        out.push(TurnAction::Emit(UiEvent::TurnFinished));
        proof {
            reveal_with_fuel(acts_model, 3);
            assert(out@ =~= Seq::<TurnAction>::empty().push(ga1).push(
                TurnAction::Emit(UiEvent::TurnFinished),
            ));
            lemma_acts_push(Seq::<TurnAction>::empty(), ga1);
            lemma_acts_push(
                Seq::<TurnAction>::empty().push(ga1),
                TurnAction::Emit(UiEvent::TurnFinished),
            );
            assert(acts_model(out@) =~= fail_acts(gtxt));
            assert(self@ =~= (OrchModel { phase: Phase::Done, ..old(self)@ }));
        }
        out
    }

    /// Begin the next request/decode cycle, or end the turn quietly at
    /// the bound.
    fn begin_cycle(&mut self) -> (out: Vec<TurnAction>)
        ensures
            final(self)@ == start_cycle(old(self)@).0,
            acts_model(out@) == start_cycle(old(self)@).1,
    {
        let ghost st0 = self@;
        let mut out: Vec<TurnAction> = Vec::new();
        if self.loops >= MAX_TURN_CYCLES {
            self.phase = Phase::Done;
            out.push(TurnAction::Emit(UiEvent::TurnFinished));
            proof {
                reveal_with_fuel(acts_model, 2);
                assert(out@ =~= Seq::<TurnAction>::empty().push(
                    TurnAction::Emit(UiEvent::TurnFinished),
                ));
                lemma_acts_push(
                    Seq::<TurnAction>::empty(),
                    TurnAction::Emit(UiEvent::TurnFinished),
                );
                assert(acts_model(out@) =~= finish_acts());
                assert(self@ =~= start_cycle(st0).0);
            }
        } else {
            self.phase = Phase::AwaitingStatus { fallback: false };
            self.loops = self.loops + 1;
            self.content = Vec::new();
            self.calls = Vec::new();
            self.pending = Vec::new();
            let msgs = copy_wire_msgs(&self.messages);
            let tools = copy_catalog(&self.tools);
            let act = TurnAction::SendRequest { messages: msgs, tools, include_tools: true };
            let ghost gact = act;
            out.push(act);
            proof {
                lemma_acts_push(Seq::<TurnAction>::empty(), gact);
                assert(calls_model(Seq::<ToolCall>::empty())
                    =~= Seq::<(Seq<u8>, Seq<u8>)>::empty());
                assert(self@ =~= start_cycle(st0).0);
                assert(acts_model(out@) =~= start_cycle(st0).1);
            }
        }
        out
    }

    /// Announce and submit the call at the front of the queue.
    fn dispatch_front(c: &ToolCall) -> (out: Vec<TurnAction>)
        ensures
            acts_model(out@) == dispatch_acts(call_model(*c)),
    {
        let mut label = copy_bytes(&c.name);
        label.push(40);
        label.push(46);
        label.push(46);
        label.push(46);
        label.push(41);
        proof {
            assert(label@ =~= call_label(c.name@));
        }
        let mut out: Vec<TurnAction> = Vec::new();
        let act1 = TurnAction::Emit(UiEvent::CommandStart(label));
        let ghost ga1 = act1;
        out.push(act1);
        let act2 = TurnAction::CallTool {
            name: copy_bytes(&c.name),
            arguments: copy_bytes(&c.arguments),
        };
        let ghost ga2 = act2;
        out.push(act2);
        proof {
            lemma_acts_push(Seq::<TurnAction>::empty(), ga1);
            lemma_acts_push(Seq::<TurnAction>::empty().push(ga1), ga2);
            assert(out@ =~= Seq::<TurnAction>::empty().push(ga1).push(ga2));
            assert(acts_model(out@) =~= dispatch_acts(call_model(*c)));
        }
        out
    }

    /// The response stream is over: finish the turn or start the tool
    /// dispatch.
    fn end_stream(&mut self) -> (out: Vec<TurnAction>)
        ensures
            final(self)@ == end_of_stream(old(self)@).0,
            acts_model(out@) == end_of_stream(old(self)@).1,
    {
        let ghost st0 = self@;
        proof {
            lemma_calls_model_len(self.calls@);
        }
        if self.calls.len() == 0 {
            self.phase = Phase::Done;
            let mut out: Vec<TurnAction> = Vec::new();
            out.push(TurnAction::Emit(UiEvent::TurnFinished));
            proof {
                lemma_acts_push(
                    Seq::<TurnAction>::empty(),
                    TurnAction::Emit(UiEvent::TurnFinished),
                );
                assert(out@ =~= Seq::<TurnAction>::empty().push(
                    TurnAction::Emit(UiEvent::TurnFinished),
                ));
                assert(acts_model(out@) =~= finish_acts());
                assert(self@ =~= end_of_stream(st0).0);
            }
            out
        } else {
            let assistant = WireMsg {
                role: WireRole::Assistant,
                content: copy_bytes(&self.content),
                calls: copy_calls(&self.calls),
            };
            let ghost gassistant = assistant;
            let ghost msgs_pre = self.messages@;
            self.messages.push(assistant);
            self.pending = copy_calls(&self.calls);
            self.phase = Phase::AwaitingTool;
            let out = Orchestrator::dispatch_front(&self.pending[0]);
            proof {
                lemma_wire_msgs_push(msgs_pre, gassistant);
                assert(wire_msg_model(gassistant) =~= WireMsgModel {
                    role: WireRole::Assistant,
                    content: st0.content,
                    calls: st0.calls,
                });
                assert(self@ =~= end_of_stream(st0).0);
                lemma_calls_model_len(self.pending@);
                assert(call_model(self.pending@[0]) == st0.calls[0]);
            }
            out
        }
    }

    /// One step of the turn: feed one outside event, get the actions to
    /// perform next, in order.
    #[verifier::rlimit(60)]
    pub fn step(&mut self, ev: TurnEvent) -> (out: Vec<TurnAction>)
        ensures
            final(self)@ == orch_step(old(self)@, ev_model(ev)).0,
            acts_model(out@) == orch_step(old(self)@, ev_model(ev)).1,
    {
        let ghost st0 = self@;
        match ev {
            TurnEvent::ToolsListed(ts) => {
                match self.phase {
                    Phase::FetchingTools => {
                        let ghost gts = ts@;
                        self.tools = ts;
                        proof {
                            assert(self@ =~= (OrchModel { tools: catalog_model(gts), ..st0 }));
                        }
                        self.begin_cycle()
                    },
                    _ => {
                        no_acts()
                    },
                }
            },
            TurnEvent::ToolsFailed(txt) => {
                match self.phase {
                    Phase::FetchingTools => {
                        self.fail_turn(txt)
                    },
                    _ => {
                        no_acts()
                    },
                }
            },
            TurnEvent::SendFailed(txt) => {
                match self.phase {
                    Phase::AwaitingStatus { fallback: _ } => {
                        self.fail_turn(txt)
                    },
                    _ => {
                        no_acts()
                    },
                }
            },
            TurnEvent::Status { code, body } => {
                match self.phase {
                    Phase::AwaitingStatus { fallback } => {
                        if 200 <= code && code < 300 {
                            self.phase = Phase::Streaming { fallback };
                            let out = no_acts();
                            proof {
                                assert(self@ =~= (OrchModel {
                                    phase: Phase::Streaming { fallback },
                                    ..st0
                                }));
                            }
                            out
                        } else if 400 <= code && code < 500 && !fallback {
                            self.phase = Phase::AwaitingStatus { fallback: true };
                            let notice = copy_bytes(&self.notice);
                            let msgs = copy_wire_msgs(&self.messages);
                            let mut out: Vec<TurnAction> = Vec::new();
                            let act1 = TurnAction::Emit(UiEvent::Thinking(notice));
                            let ghost ga1 = act1;
                            out.push(act1);
                            let act2 = TurnAction::SendRequest {
                                messages: msgs,
                                tools: Vec::new(),
                                include_tools: false,
                            };
                            let ghost ga2 = act2;
                            out.push(act2);
                            proof {
                                lemma_acts_push(Seq::<TurnAction>::empty(), ga1);
                                lemma_acts_push(Seq::<TurnAction>::empty().push(ga1), ga2);
                                assert(out@ =~= Seq::<TurnAction>::empty().push(ga1).push(ga2));
                                assert(catalog_model(Seq::<ToolSpec>::empty())
                                    =~= Seq::<ToolSpecModel>::empty());
                                assert(acts_model(out@) =~= orch_step(
                                    st0,
                                    EvModel::Status { code, body: body@ },
                                ).1);
                            }
                            out
                        } else {
                            self.fail_turn(body)
                        }
                    },
                    _ => {
                        no_acts()
                    },
                }
            },
            TurnEvent::Stream(sev) => {
                match self.phase {
                    Phase::Streaming { fallback: _ } => {
                        match sev {
                            StreamEvent::Token(v) => {
                                self.content.extend_from_slice(v.as_slice());
                                let mut out: Vec<TurnAction> = Vec::new();
                                let act = TurnAction::Emit(UiEvent::Token(v));
                                let ghost ga = act;
                                out.push(act);
                                proof {
                                    lemma_acts_push(Seq::<TurnAction>::empty(), ga);
                                    assert(out@ =~= Seq::<TurnAction>::empty().push(ga));
                                }
                                out
                            },
                            StreamEvent::Thinking(v) => {
                                let mut out: Vec<TurnAction> = Vec::new();
                                let act = TurnAction::Emit(UiEvent::Thinking(v));
                                let ghost ga = act;
                                out.push(act);
                                proof {
                                    lemma_acts_push(Seq::<TurnAction>::empty(), ga);
                                    assert(out@ =~= Seq::<TurnAction>::empty().push(ga));
                                }
                                out
                            },
                            StreamEvent::Call(c) => {
                                let ghost calls_pre = self.calls@;
                                let ghost gc = c;
                                self.calls.push(c);
                                proof {
                                    lemma_calls_model_push(calls_pre, gc);
                                }
                                no_acts()
                            },
                            StreamEvent::ErrorNotice(v) => {
                                let mut out: Vec<TurnAction> = Vec::new();
                                let act = TurnAction::Emit(UiEvent::Error(v));
                                let ghost ga = act;
                                out.push(act);
                                proof {
                                    lemma_acts_push(Seq::<TurnAction>::empty(), ga);
                                    assert(out@ =~= Seq::<TurnAction>::empty().push(ga));
                                }
                                out
                            },
                            StreamEvent::Done => {
                                self.end_stream()
                            },
                        }
                    },
                    _ => {
                        no_acts()
                    },
                }
            },
            TurnEvent::StreamEnd => {
                match self.phase {
                    Phase::Streaming { fallback: _ } => {
                        self.end_stream()
                    },
                    _ => {
                        no_acts()
                    },
                }
            },
            TurnEvent::ToolReplied(o) => {
                proof {
                    lemma_calls_model_len(self.pending@);
                }
                let mut at_tool = false;
                match self.phase {
                    Phase::AwaitingTool => {
                        at_tool = true;
                    },
                    _ => {},
                }
                if at_tool && self.pending.len() > 0 {
                    let ghost om = outcome_model(o);
                    let txt = outcome_bytes(o);
                    let ghost gtxt = txt@;
                    let reply = WireMsg {
                        role: WireRole::Tool,
                        content: copy_bytes(&txt),
                        calls: Vec::new(),
                    };
                    let ghost greply = reply;
                    let ghost msgs_pre = self.messages@;
                    self.messages.push(reply);
                    proof {
                        lemma_wire_msgs_push(msgs_pre, greply);
                        assert(calls_model(Seq::<ToolCall>::empty())
                            =~= Seq::<(Seq<u8>, Seq<u8>)>::empty());
                        assert(wire_msg_model(greply) =~= WireMsgModel {
                            role: WireRole::Tool,
                            content: outcome_text(om),
                            calls: Seq::empty(),
                        });
                        assert(self.pending@.remove(0) =~= self.pending@.drop_first());
                        assert(calls_model(self.pending@).drop_first() =~= calls_model(
                            self.pending@.drop_first(),
                        ));
                    }
                    let _served = self.pending.remove(0);
                    let ghost st2 = self@;
                    let mut out: Vec<TurnAction> = Vec::new();
                    let act1 = TurnAction::Emit(UiEvent::CommandEnd(txt));
                    let ghost ga1 = act1;
                    out.push(act1);
                    proof {
                        lemma_acts_push(Seq::<TurnAction>::empty(), ga1);
                        assert(out@ =~= Seq::<TurnAction>::empty().push(ga1));
                        lemma_calls_model_len(self.pending@);
                    }
                    if self.pending.len() == 0 {
                        let ghost out_pre = out@;
                        let mut more = self.begin_cycle();
                        let ghost more_v = more@;
                        out.append(&mut more);
                        proof {
                            lemma_acts_append(out_pre, more_v);
                        }
                        out
                    } else {
                        let ghost out_pre = out@;
                        let mut more = Orchestrator::dispatch_front(&self.pending[0]);
                        let ghost more_v = more@;
                        out.append(&mut more);
                        proof {
                            lemma_acts_append(out_pre, more_v);
                            lemma_calls_model_len(self.pending@);
                            assert(call_model(self.pending@[0]) == st2.pending[0]);
                        }
                        out
                    }
                } else {
                    no_acts()
                }
            },
            TurnEvent::ToolSendFailed(txt) => {
                match self.phase {
                    Phase::AwaitingTool => {
                        // answer every still-pending call with a
                        // synthetic failure result before moving on
                        proof {
                            lemma_calls_model_len(self.pending@);
                        }
                        let n = self.pending.len();
                        let mut k: usize = 0;
                        proof {
                            assert(st0.messages + failure_replies(0, txt@) =~= st0.messages);
                        }
                        while k < n
                            invariant
                                0 <= k <= n,
                                n == st0.pending.len(),
                                wire_msgs_model(self.messages@) == st0.messages
                                    + failure_replies(k as nat, txt@),
                                self@.phase == st0.phase,
                                self@.loops == st0.loops,
                                self@.tools == st0.tools,
                                self@.notice == st0.notice,
                                self@.content == st0.content,
                                self@.calls == st0.calls,
                                self@.pending == st0.pending,
                            decreases n - k,
                        {
                            let mut content = "Tool Execution Error: ".as_bytes_vec();
                            content.extend_from_slice(txt.as_slice());
                            let reply = WireMsg {
                                role: WireRole::Tool,
                                content,
                                calls: Vec::new(),
                            };
                            let ghost greply = reply;
                            let ghost msgs_pre = self.messages@;
                            self.messages.push(reply);
                            proof {
                                lemma_wire_msgs_push(msgs_pre, greply);
                                assert(calls_model(Seq::<ToolCall>::empty())
                                    =~= Seq::<(Seq<u8>, Seq<u8>)>::empty());
                                assert(wire_msg_model(greply) =~= WireMsgModel {
                                    role: WireRole::Tool,
                                    content: outcome_text(OutcomeModel::Failure(txt@)),
                                    calls: Seq::empty(),
                                });
                                assert(wire_msgs_model(self.messages@) =~= st0.messages
                                    + failure_replies((k + 1) as nat, txt@));
                            }
                            k = k + 1;
                        }
                        self.pending = Vec::new();
                        proof {
                            assert(calls_model(Seq::<ToolCall>::empty())
                                =~= Seq::<(Seq<u8>, Seq<u8>)>::empty());
                            assert(self@ =~= (OrchModel {
                                messages: st0.messages + failure_replies(
                                    st0.pending.len(),
                                    txt@,
                                ),
                                pending: Seq::empty(),
                                ..st0
                            }));
                        }
                        let mut out: Vec<TurnAction> = Vec::new();
                        let act1 = TurnAction::Emit(UiEvent::Error(txt));
                        let ghost ga1 = act1;
                        out.push(act1);
                        proof {
                            lemma_acts_push(Seq::<TurnAction>::empty(), ga1);
                            assert(out@ =~= Seq::<TurnAction>::empty().push(ga1));
                        }
                        let ghost out_pre = out@;
                        let mut more = self.begin_cycle();
                        let ghost more_v = more@;
                        out.append(&mut more);
                        proof {
                            lemma_acts_append(out_pre, more_v);
                        }
                        out
                    },
                    _ => {
                        no_acts()
                    },
                }
            },
        }
    }
}


/// `finish_signals` distributes over concatenation.
pub proof fn lemma_finish_append(a: Seq<ActModel>, b: Seq<ActModel>)
    ensures
        finish_signals(a + b) == finish_signals(a) + finish_signals(b),
    decreases a.len(),
{
    if a.len() == 0 {
        assert(a + b == b);
    } else {
        lemma_finish_append(a.drop_first(), b);
        assert((a + b).drop_first() =~= a.drop_first() + b);
        assert((a + b)[0] == a[0]);
    }
}

/// A finished turn is inert: every further event is ignored.
pub proof fn lemma_done_is_inert(st: OrchModel, evs: Seq<EvModel>)
    requires
        st.phase is Done,
    ensures
        orch_run(st, evs).0 == st,
        orch_run(st, evs).1 == Seq::<ActModel>::empty(),
    decreases evs.len(),
{
    if evs.len() == 0 {
    } else {
        assert(orch_step(st, evs[0]).0 == st);
        assert(orch_step(st, evs[0]).1 =~= Seq::<ActModel>::empty());
        lemma_done_is_inert(st, evs.drop_first());
        assert(orch_step(st, evs[0]).1 + orch_run(st, evs.drop_first()).1 =~= Seq::<
            ActModel,
        >::empty());
    }
}

/// One step emits the turn-finished signal exactly when it ends the
/// turn, and never again afterwards.
pub proof fn lemma_finish_per_step(st: OrchModel, ev: EvModel)
    ensures
        finish_signals(orch_step(st, ev).1) == (if !(st.phase is Done) && orch_step(
            st,
            ev,
        ).0.phase is Done {
            1nat
        } else {
            0nat
        }),
        st.phase is Done ==> orch_step(st, ev).0 == st,
{
    reveal_with_fuel(finish_signals, 5);
    match ev {
        EvModel::ToolReplied(o) => {
            if st.phase is AwaitingTool && st.pending.len() >= 1 {
                let txt = outcome_text(o);
                let reply = WireMsgModel { role: WireRole::Tool, content: txt, calls: Seq::empty() };
                let st2 = OrchModel {
                    messages: st.messages.push(reply),
                    pending: st.pending.drop_first(),
                    ..st
                };
                let end_act = seq![ActModel::Emit(UiEventModel::CommandEnd(txt))];
                if st2.pending.len() == 0 {
                    lemma_finish_append(end_act, start_cycle(st2).1);
                } else {
                    lemma_finish_append(end_act, dispatch_acts(st2.pending[0]));
                }
            }
        },
        EvModel::ToolSendFailed(txt) => {
            if st.phase is AwaitingTool {
                let answered = OrchModel {
                    messages: st.messages + failure_replies(st.pending.len(), txt),
                    pending: Seq::empty(),
                    ..st
                };
                lemma_finish_append(
                    seq![ActModel::Emit(UiEventModel::Error(txt))],
                    start_cycle(answered).1,
                );
            }
        },
        _ => {},
    }
}

/// Every exit path emits exactly one turn-finished signal: over any
/// sequence of outside events, a running turn emits the signal at most
/// once, and has emitted it exactly once precisely when it has ended.
pub proof fn lemma_exactly_one_finish(st: OrchModel, evs: Seq<EvModel>)
    requires
        !(st.phase is Done),
    ensures
        finish_signals(orch_run(st, evs).1) <= 1,
        (orch_run(st, evs).0.phase is Done) <==> finish_signals(orch_run(st, evs).1) == 1,
    decreases evs.len(),
{
    if evs.len() == 0 {
        assert(finish_signals(Seq::<ActModel>::empty()) == 0);
    } else {
        let first = orch_step(st, evs[0]);
        lemma_finish_per_step(st, evs[0]);
        lemma_finish_append(first.1, orch_run(first.0, evs.drop_first()).1);
        if first.0.phase is Done {
            lemma_done_is_inert(first.0, evs.drop_first());
        } else {
            lemma_exactly_one_finish(first.0, evs.drop_first());
        }
    }
}



/// What one wire message contributes to the count of unanswered tool
/// calls: an assistant message opens one per call, a tool-result
/// message answers one.
pub open spec fn call_tally(m: WireMsgModel) -> int {
    if m.role is Tool {
        -1
    } else {
        m.calls.len() as int
    }
}

/// Tool calls opened in the wire transcript and not yet answered by a
/// tool-result message.
pub open spec fn unanswered_calls(ms: Seq<WireMsgModel>) -> int
    decreases ms.len(),
{
    if ms.len() == 0 {
        0
    } else {
        call_tally(ms[0]) + unanswered_calls(ms.drop_first())
    }
}

pub proof fn lemma_unanswered_push(ms: Seq<WireMsgModel>, m: WireMsgModel)
    ensures
        unanswered_calls(ms.push(m)) == unanswered_calls(ms) + call_tally(m),
    decreases ms.len(),
{
    reveal_with_fuel(unanswered_calls, 2);
    if ms.len() == 0 {
        assert(ms.push(m).drop_first() =~= Seq::<WireMsgModel>::empty());
        assert(ms.push(m)[0] == m);
    } else {
        lemma_unanswered_push(ms.drop_first(), m);
        assert(ms.push(m).drop_first() =~= ms.drop_first().push(m));
        assert(ms.push(m)[0] == ms[0]);
    }
}

pub proof fn lemma_unanswered_append(a: Seq<WireMsgModel>, b: Seq<WireMsgModel>)
    ensures
        unanswered_calls(a + b) == unanswered_calls(a) + unanswered_calls(b),
    decreases a.len(),
{
    if a.len() == 0 {
        assert(a + b == b);
    } else {
        lemma_unanswered_append(a.drop_first(), b);
        assert((a + b).drop_first() =~= a.drop_first() + b);
        assert((a + b)[0] == a[0]);
    }
}

/// The synthetic failure replies answer exactly the calls they stand
/// for.
pub proof fn lemma_failure_replies_answer(n: nat, txt: Seq<u8>)
    ensures
        unanswered_calls(failure_replies(n, txt)) == -(n as int),
    decreases n,
{
    if n == 0 {
    } else {
        lemma_failure_replies_answer((n - 1) as nat, txt);
        lemma_unanswered_push(
            failure_replies((n - 1) as nat, txt),
            WireMsgModel {
                role: WireRole::Tool,
                content: outcome_text(OutcomeModel::Failure(txt)),
                calls: Seq::empty(),
            },
        );
    }
}

/// The wire form of a stored transcript opens no tool calls.
pub proof fn lemma_history_answered(ms: Seq<ChatMessage>)
    ensures
        unanswered_calls(history_model(ms)) == 0,
    decreases ms.len(),
{
    reveal_with_fuel(history_model, 2);
    reveal_with_fuel(unanswered_calls, 2);
    if ms.len() == 0 {
    } else {
        lemma_history_answered(ms.drop_first());
        assert(history_model(ms)[0] == WireMsgModel {
            role: spec_wire_role(ms[0].role),
            content: encode_utf8(ms[0].content@),
            calls: Seq::empty(),
        });
        assert(history_model(ms).drop_first() =~= history_model(ms.drop_first()));
    }
}

/// A balanced state: while a tool call is awaited, the transcript has
/// exactly the pending calls unanswered; in every other phase, every
/// tool call in the transcript already has its result.
pub open spec fn balanced(st: OrchModel) -> bool {
    unanswered_calls(st.messages) == (if st.phase is AwaitingTool {
        st.pending.len() as int
    } else {
        0
    })
}

/// A fresh turn over a stored transcript is balanced.
pub proof fn lemma_init_balanced(history: Seq<ChatMessage>, notice: Seq<u8>)
    ensures
        balanced(orch_init(history_model(history), notice)),
{
    lemma_history_answered(history);
}

/// Every step keeps the transcript balanced: tool calls are answered,
/// one for one, before the turn moves on.
pub proof fn lemma_step_balanced(st: OrchModel, ev: EvModel)
    requires
        balanced(st),
    ensures
        balanced(orch_step(st, ev).0),
{
    match ev {
        EvModel::Stream(sev) => {
            if st.phase is Streaming {
                match sev {
                    StreamEvModel::Done => {
                        if st.calls.len() > 0 {
                            lemma_unanswered_push(
                                st.messages,
                                WireMsgModel {
                                    role: WireRole::Assistant,
                                    content: st.content,
                                    calls: st.calls,
                                },
                            );
                        }
                    },
                    _ => {},
                }
            }
        },
        EvModel::StreamEnd => {
            if st.phase is Streaming && st.calls.len() > 0 {
                lemma_unanswered_push(
                    st.messages,
                    WireMsgModel {
                        role: WireRole::Assistant,
                        content: st.content,
                        calls: st.calls,
                    },
                );
            }
        },
        EvModel::ToolReplied(o) => {
            if st.phase is AwaitingTool && st.pending.len() >= 1 {
                lemma_unanswered_push(
                    st.messages,
                    WireMsgModel {
                        role: WireRole::Tool,
                        content: outcome_text(o),
                        calls: Seq::empty(),
                    },
                );
            }
        },
        EvModel::ToolSendFailed(txt) => {
            if st.phase is AwaitingTool {
                lemma_unanswered_append(st.messages, failure_replies(st.pending.len(), txt));
                lemma_failure_replies_answer(st.pending.len(), txt);
            }
        },
        _ => {},
    }
}

/// Whether every request in a run of actions carries a wire transcript
/// with all tool calls answered.
pub open spec fn requests_answered(acts: Seq<ActModel>) -> bool {
    forall|i: int|
        0 <= i < acts.len() ==> match #[trigger] acts[i] {
            ActModel::SendRequest { messages, tools: _, include_tools: _ } => unanswered_calls(
                messages,
            ) == 0,
            _ => true,
        }
}

/// Tool calls are never left unanswered before a model request: every
/// request a step of a balanced turn emits carries a wire transcript in
/// which each tool call of an assistant message is matched by exactly
/// one tool-result message.
pub proof fn lemma_requests_carry_answered_calls(st: OrchModel, ev: EvModel)
    requires
        balanced(st),
    ensures
        requests_answered(orch_step(st, ev).1),
{
    reveal_with_fuel(unanswered_calls, 2);
    match ev {
        EvModel::ToolReplied(o) => {
            if st.phase is AwaitingTool && st.pending.len() >= 1 {
                lemma_unanswered_push(
                    st.messages,
                    WireMsgModel {
                        role: WireRole::Tool,
                        content: outcome_text(o),
                        calls: Seq::empty(),
                    },
                );
            }
        },
        EvModel::ToolSendFailed(txt) => {
            if st.phase is AwaitingTool {
                lemma_unanswered_append(st.messages, failure_replies(st.pending.len(), txt));
                lemma_failure_replies_answer(st.pending.len(), txt);
            }
        },
        _ => {},
    }
}



/// The same, over a whole turn: from a balanced start, no request ever
/// goes out with a tool call left unanswered, whatever the outside
/// events are.
pub proof fn lemma_turn_never_requests_unanswered(st: OrchModel, evs: Seq<EvModel>)
    requires
        balanced(st),
    ensures
        balanced(orch_run(st, evs).0),
        requests_answered(orch_run(st, evs).1),
    decreases evs.len(),
{
    if evs.len() == 0 {
    } else {
        let first = orch_step(st, evs[0]);
        let rest = orch_run(first.0, evs.drop_first());
        lemma_step_balanced(st, evs[0]);
        lemma_requests_carry_answered_calls(st, evs[0]);
        lemma_turn_never_requests_unanswered(first.0, evs.drop_first());
        assert forall|i: int| 0 <= i < (first.1 + rest.1).len() implies match #[trigger] (first.1
            + rest.1)[i] {
            ActModel::SendRequest { messages, tools: _, include_tools: _ } => unanswered_calls(
                messages,
            ) == 0,
            _ => true,
        } by {
            if i < first.1.len() {
                assert((first.1 + rest.1)[i] == first.1[i]);
            } else {
                assert((first.1 + rest.1)[i] == rest.1[i - first.1.len()]);
            }
        }
    }
}


} // verus!
