//! Streaming response decoder.
//!
//! The backend answers a chat request with a stream of newline-terminated
//! JSON objects.  The decoder buffers raw bytes, frames them into lines,
//! decodes each line, and turns it into semantic events: content tokens,
//! reasoning ("thinking") fragments, tool-call fragments, error notices
//! and a done signal.  Blank lines are ignored and a line that fails to
//! parse is dropped without aborting the stream.  Content text is routed
//! through the thinking-tag splitter, whose state survives across lines
//! and chunks.

use vstd::prelude::*;

use crate::splitter::SplitState;
use crate::splitter::Splitter;
use crate::splitter::Routed;
use crate::splitter::initial_split_state;
use crate::splitter::split_run;
use crate::splitter::split_wf;
use crate::splitter::said_bytes;
use crate::splitter::mused_bytes;
use crate::splitter::flush_pieces;
use crate::splitter::routed_pieces;
use crate::splitter::spans_of;
use crate::splitter::visible;
use crate::splitter::coalesce;
use crate::splitter::routed_piece;
use crate::splitter::lemma_routed_pieces_push;
use crate::splitter::lemma_said_append;
use crate::splitter::lemma_mused_append;
use crate::splitter::lemma_said_one;
use crate::splitter::lemma_mused_one;
use crate::splitter::lemma_run_append;
use crate::splitter::Piece;

verus! {

/// One tool call requested by the model: the tool's name and its
/// arguments as serialised JSON text.
#[derive(Debug, Clone, PartialEq, Eq)]
pub struct ToolCall {
    pub name: Vec<u8>,
    pub arguments: Vec<u8>,
}

/// The spec-level value of a tool call: name and argument bytes.
pub open spec fn call_model(c: ToolCall) -> (Seq<u8>, Seq<u8>) {
    (c.name@, c.arguments@)
}

/// What the backend-protocol JSON decoder yields for the error text
/// and the done flag of one line: `None` when the line is not valid
/// JSON.  A line without those fields yields no error text and a false
/// flag.  The value depends on the bytes alone.
pub uninterp spec fn chat_line_head(s: Seq<u8>) -> Option<(Option<Vec<u8>>, bool)>;

/// What the backend-protocol JSON decoder yields for the content,
/// thinking and alternate reasoning texts of one line: `None` when the
/// line is not valid JSON; fields the line lacks come back absent.
/// The value depends on the bytes alone.
pub uninterp spec fn chat_line_message(s: Seq<u8>) -> Option<
    (Option<Vec<u8>>, Option<Vec<u8>>, Option<Vec<u8>>),
>;

/// What the backend-protocol JSON decoder yields for the tool-call
/// entries of one line, in order: each entry's name and its arguments
/// as serialised JSON.  The value depends on the bytes alone; a line
/// without such entries — malformed or not — has none.
pub uninterp spec fn chat_line_tools(s: Seq<u8>) -> Seq<(Seq<u8>, Seq<u8>)>;

/// Relies on `serde_json::from_slice` and the accessors of
/// `serde_json::Value`: decodes one line as a JSON object and reads its
/// `error` and `done` fields.
#[verifier::external_body]
fn parse_line_head(line: &Vec<u8>) -> (r: Option<(Option<Vec<u8>>, bool)>)
    ensures
        r == chat_line_head(line@),
{
    let v: serde_json::Value = match serde_json::from_slice(line.as_slice()) {
        Ok(v) => v,
        Err(_) => return None,
    };
    Some((
        v.get("error").and_then(|x| x.as_str()).map(|s| s.as_bytes().to_vec()),
        v.get("done").and_then(|x| x.as_bool()).unwrap_or(false),
    ))
}

/// Relies on `serde_json::from_slice` and `serde_json::Value::pointer`:
/// decodes one line as a JSON object and reads its `message.content`,
/// `message.thinking` and `message.reasoning_content` fields.
#[verifier::external_body]
fn parse_line_message(line: &Vec<u8>) -> (r: Option<
    (Option<Vec<u8>>, Option<Vec<u8>>, Option<Vec<u8>>),
>)
    ensures
        r == chat_line_message(line@),
{
    let v: serde_json::Value = match serde_json::from_slice(line.as_slice()) {
        Ok(v) => v,
        Err(_) => return None,
    };
    Some((
        v.pointer("/message/content").and_then(|x| x.as_str()).map(|s| s.as_bytes().to_vec()),
        v.pointer("/message/thinking").and_then(|x| x.as_str()).map(|s| s.as_bytes().to_vec()),
        v.pointer("/message/reasoning_content").and_then(|x| x.as_str()).map(
            |s| s.as_bytes().to_vec(),
        ),
    ))
}

/// Relies on `serde_json::from_slice` and `serde_json::Value::pointer`:
/// reads the `message.tool_calls` array of one line and each entry's
/// `function.name` and `function.arguments`.
#[verifier::external_body]
fn parse_line_tools(line: &Vec<u8>) -> (r: Vec<ToolCall>)
    ensures
        r@.map_values(|c: ToolCall| call_model(c)) == chat_line_tools(line@),
{
    let v: serde_json::Value = match serde_json::from_slice(line.as_slice()) {
        Ok(v) => v,
        Err(_) => return Vec::new(),
    };
    let mut out = Vec::new();
    let calls = v.pointer("/message/tool_calls").and_then(|t| t.as_array());
    for c in calls.into_iter().flatten() {
        let name = c.pointer("/function/name").and_then(|n| n.as_str());
        if let (Some(n), Some(a)) = (name, c.pointer("/function/arguments")) {
            out.push(ToolCall { name: n.as_bytes().to_vec(), arguments: a.to_string().into_bytes() });
        }
    }
    out
}

/// One semantic event decoded from the stream.
#[derive(Debug, Clone, PartialEq, Eq)]
pub enum StreamEvent {
    /// A fragment of ordinary assistant content.
    Token(Vec<u8>),
    /// A fragment of reasoning text.
    Thinking(Vec<u8>),
    /// A tool-call fragment.
    Call(ToolCall),
    /// A non-fatal error reported inside the stream.
    ErrorNotice(Vec<u8>),
    /// The backend flagged the response as complete.
    Done,
}

/// Concatenation of all `Token` payloads, in order.
pub open spec fn ev_tokens(es: Seq<StreamEvent>) -> Seq<u8>
    decreases es.len(),
{
    if es.len() == 0 {
        Seq::empty()
    } else {
        let head = match es[0] {
            StreamEvent::Token(v) => v@,
            _ => Seq::empty(),
        };
        head + ev_tokens(es.drop_first())
    }
}

/// Concatenation of all `Thinking` payloads, in order.
pub open spec fn ev_thinks(es: Seq<StreamEvent>) -> Seq<u8>
    decreases es.len(),
{
    if es.len() == 0 {
        Seq::empty()
    } else {
        let head = match es[0] {
            StreamEvent::Thinking(v) => v@,
            _ => Seq::empty(),
        };
        head + ev_thinks(es.drop_first())
    }
}

/// All `ErrorNotice` payloads, in order.
pub open spec fn ev_notices(es: Seq<StreamEvent>) -> Seq<Seq<u8>>
    decreases es.len(),
{
    if es.len() == 0 {
        Seq::empty()
    } else {
        let head: Seq<Seq<u8>> = match es[0] {
            StreamEvent::ErrorNotice(v) => seq![v@],
            _ => Seq::empty(),
        };
        head + ev_notices(es.drop_first())
    }
}

/// All tool-call fragments, in order.
pub open spec fn ev_calls(es: Seq<StreamEvent>) -> Seq<(Seq<u8>, Seq<u8>)>
    decreases es.len(),
{
    if es.len() == 0 {
        Seq::empty()
    } else {
        let head: Seq<(Seq<u8>, Seq<u8>)> = match es[0] {
            StreamEvent::Call(c) => seq![call_model(c)],
            _ => Seq::empty(),
        };
        head + ev_calls(es.drop_first())
    }
}

/// How many `Done` events there are.
pub open spec fn ev_dones(es: Seq<StreamEvent>) -> nat
    decreases es.len(),
{
    if es.len() == 0 {
        0
    } else {
        (match es[0] {
            StreamEvent::Done => 1nat,
            _ => 0nat,
        }) + ev_dones(es.drop_first())
    }
}

/// The spec-level value of a decoded stream event.
pub enum StreamEvModel {
    Token(Seq<u8>),
    Thinking(Seq<u8>),
    Call(Seq<u8>, Seq<u8>),
    ErrorNotice(Seq<u8>),
    Done,
}

pub open spec fn stream_ev_model(e: StreamEvent) -> StreamEvModel {
    match e {
        StreamEvent::Token(v) => StreamEvModel::Token(v@),
        StreamEvent::Thinking(v) => StreamEvModel::Thinking(v@),
        StreamEvent::Call(c) => StreamEvModel::Call(c.name@, c.arguments@),
        StreamEvent::ErrorNotice(v) => StreamEvModel::ErrorNotice(v@),
        StreamEvent::Done => StreamEvModel::Done,
    }
}

/// The spec-level values of a run of events, in order.
pub open spec fn evs_model(es: Seq<StreamEvent>) -> Seq<StreamEvModel>
    decreases es.len(),
{
    if es.len() == 0 {
        Seq::empty()
    } else {
        seq![stream_ev_model(es[0])] + evs_model(es.drop_first())
    }
}

/// One more event extends the models at the end.
pub proof fn lemma_evs_push(es: Seq<StreamEvent>, e: StreamEvent)
    ensures
        evs_model(es.push(e)) == evs_model(es).push(stream_ev_model(e)),
    decreases es.len(),
{
    reveal_with_fuel(evs_model, 2);
    if es.len() == 0 {
        assert(es.push(e).drop_first() =~= Seq::<StreamEvent>::empty());
        assert(es.push(e)[0] == e);
        assert(evs_model(es.push(e)) =~= evs_model(es).push(stream_ev_model(e)));
    } else {
        lemma_evs_push(es.drop_first(), e);
        assert(es.push(e).drop_first() =~= es.drop_first().push(e));
        assert(es.push(e)[0] == es[0]);
        assert(evs_model(es.push(e)) =~= evs_model(es).push(stream_ev_model(e)));
    }
}

/// The events a run of routed spans decodes to: a token per content
/// span, a thinking fragment per reasoning span.
pub open spec fn piece_events(ps: Seq<Piece>) -> Seq<StreamEvModel>
    decreases ps.len(),
{
    if ps.len() == 0 {
        Seq::empty()
    } else {
        (match ps[0] {
            Piece::Said(s) => seq![StreamEvModel::Token(s)],
            Piece::Mused(s) => seq![StreamEvModel::Thinking(s)],
            _ => Seq::empty(),
        }) + piece_events(ps.drop_first())
    }
}

/// One more span extends the events at the end.
pub proof fn lemma_piece_events_push(ps: Seq<Piece>, p: Piece)
    ensures
        piece_events(ps.push(p)) == piece_events(ps) + (match p {
            Piece::Said(s) => seq![StreamEvModel::Token(s)],
            Piece::Mused(s) => seq![StreamEvModel::Thinking(s)],
            _ => Seq::<StreamEvModel>::empty(),
        }),
    decreases ps.len(),
{
    reveal_with_fuel(piece_events, 2);
    let tail: Seq<StreamEvModel> = match p {
        Piece::Said(s) => seq![StreamEvModel::Token(s)],
        Piece::Mused(s) => seq![StreamEvModel::Thinking(s)],
        _ => Seq::empty(),
    };
    if ps.len() == 0 {
        assert(ps.push(p).drop_first() =~= Seq::<Piece>::empty());
        assert(ps.push(p)[0] == p);
        assert(piece_events(ps.push(p)) =~= piece_events(ps) + tail);
    } else {
        lemma_piece_events_push(ps.drop_first(), p);
        assert(ps.push(p).drop_first() =~= ps.drop_first().push(p));
        assert(ps.push(p)[0] == ps[0]);
        assert(piece_events(ps.push(p)) =~= piece_events(ps) + tail);
    }
}

/// The events a run of tool-call fragments decodes to, in order.
pub open spec fn call_events(cs: Seq<(Seq<u8>, Seq<u8>)>) -> Seq<StreamEvModel>
    decreases cs.len(),
{
    if cs.len() == 0 {
        Seq::empty()
    } else {
        seq![StreamEvModel::Call(cs[0].0, cs[0].1)] + call_events(cs.drop_first())
    }
}

/// One more fragment extends the events at the end.
pub proof fn lemma_call_events_push(cs: Seq<(Seq<u8>, Seq<u8>)>, c: (Seq<u8>, Seq<u8>))
    ensures
        call_events(cs.push(c)) == call_events(cs).push(StreamEvModel::Call(c.0, c.1)),
    decreases cs.len(),
{
    reveal_with_fuel(call_events, 2);
    if cs.len() == 0 {
        assert(cs.push(c).drop_first() =~= Seq::<(Seq<u8>, Seq<u8>)>::empty());
        assert(cs.push(c)[0] == c);
        assert(call_events(cs.push(c)) =~= call_events(cs).push(StreamEvModel::Call(c.0, c.1)));
    } else {
        lemma_call_events_push(cs.drop_first(), c);
        assert(cs.push(c).drop_first() =~= cs.drop_first().push(c));
        assert(cs.push(c)[0] == cs[0]);
        assert(call_events(cs.push(c)) =~= call_events(cs).push(StreamEvModel::Call(c.0, c.1)));
    }
}

/// Every projection of a run of events, extended by one event.
pub proof fn lemma_ev_push(es: Seq<StreamEvent>, e: StreamEvent)
    ensures
        ev_tokens(es.push(e)) == ev_tokens(es) + (match e {
            StreamEvent::Token(v) => v@,
            _ => Seq::<u8>::empty(),
        }),
        ev_thinks(es.push(e)) == ev_thinks(es) + (match e {
            StreamEvent::Thinking(v) => v@,
            _ => Seq::<u8>::empty(),
        }),
        ev_notices(es.push(e)) == ev_notices(es) + (match e {
            StreamEvent::ErrorNotice(v) => seq![v@],
            _ => Seq::<Seq<u8>>::empty(),
        }),
        ev_calls(es.push(e)) == ev_calls(es) + (match e {
            StreamEvent::Call(c) => seq![call_model(c)],
            _ => Seq::<(Seq<u8>, Seq<u8>)>::empty(),
        }),
        ev_dones(es.push(e)) == ev_dones(es) + (match e {
            StreamEvent::Done => 1nat,
            _ => 0nat,
        }),
    decreases es.len(),
{
    reveal_with_fuel(ev_tokens, 3);
    reveal_with_fuel(ev_thinks, 3);
    reveal_with_fuel(ev_notices, 3);
    reveal_with_fuel(ev_calls, 3);
    reveal_with_fuel(ev_dones, 3);
    if es.len() == 0 {
        assert(es.push(e).drop_first() =~= Seq::<StreamEvent>::empty());
        assert(es.push(e)[0] == e);
        assert(ev_tokens(es.push(e)) =~= ev_tokens(es) + (match e {
            StreamEvent::Token(v) => v@,
            _ => Seq::<u8>::empty(),
        }));
        assert(ev_thinks(es.push(e)) =~= ev_thinks(es) + (match e {
            StreamEvent::Thinking(v) => v@,
            _ => Seq::<u8>::empty(),
        }));
        assert(ev_notices(es.push(e)) =~= ev_notices(es) + (match e {
            StreamEvent::ErrorNotice(v) => seq![v@],
            _ => Seq::<Seq<u8>>::empty(),
        }));
        assert(ev_calls(es.push(e)) =~= ev_calls(es) + (match e {
            StreamEvent::Call(c) => seq![call_model(c)],
            _ => Seq::<(Seq<u8>, Seq<u8>)>::empty(),
        }));
    } else {
        lemma_ev_push(es.drop_first(), e);
        assert(es.push(e).drop_first() =~= es.drop_first().push(e));
        assert(es.push(e)[0] == es[0]);
        assert(ev_tokens(es.push(e)) =~= ev_tokens(es) + (match e {
            StreamEvent::Token(v) => v@,
            _ => Seq::<u8>::empty(),
        }));
        assert(ev_thinks(es.push(e)) =~= ev_thinks(es) + (match e {
            StreamEvent::Thinking(v) => v@,
            _ => Seq::<u8>::empty(),
        }));
        assert(ev_notices(es.push(e)) =~= ev_notices(es) + (match e {
            StreamEvent::ErrorNotice(v) => seq![v@],
            _ => Seq::<Seq<u8>>::empty(),
        }));
        assert(ev_calls(es.push(e)) =~= ev_calls(es) + (match e {
            StreamEvent::Call(c) => seq![call_model(c)],
            _ => Seq::<(Seq<u8>, Seq<u8>)>::empty(),
        }));
    }
}

/// The index of the first newline byte in `s`, or `s.len()` if there
/// is none.
pub open spec fn first_nl(s: Seq<u8>) -> nat
    decreases s.len(),
{
    if s.len() == 0 {
        0
    } else if s[0] == 10 {
        0
    } else {
        1 + first_nl(s.drop_first())
    }
}

pub proof fn lemma_first_nl(s: Seq<u8>)
    ensures
        first_nl(s) <= s.len(),
        first_nl(s) < s.len() ==> s[first_nl(s) as int] == 10,
        forall|j: int| 0 <= j < first_nl(s) ==> s[j] != 10,
    decreases s.len(),
{
    if s.len() == 0 {
    } else if s[0] == 10 {
    } else {
        lemma_first_nl(s.drop_first());
        assert forall|j: int| 0 <= j < first_nl(s) implies s[j] != 10 by {
            if j > 0 {
                assert(s[j] == s.drop_first()[j - 1]);
            }
        }
    }
}

/// Frame a byte stream into its complete (newline-terminated) lines,
/// terminators stripped, and the unterminated remainder.
pub open spec fn framed(s: Seq<u8>) -> (Seq<Seq<u8>>, Seq<u8>)
    decreases s.len(),
{
    let i = first_nl(s);
    if i < s.len() {
        let rest = framed(s.skip(i + 1 as int));
        (seq![s.take(i as int)] + rest.0, rest.1)
    } else {
        (Seq::empty(), s)
    }
}

/// How one more byte changes the framing: a newline completes the
/// remainder into a line, any other byte extends the remainder.
pub proof fn lemma_framed_push(s: Seq<u8>, b: u8)
    ensures
        b == 10 ==> framed(s.push(b)) == (framed(s).0.push(framed(s).1), Seq::<u8>::empty()),
        b != 10 ==> framed(s.push(b)) == (framed(s).0, framed(s).1.push(b)),
    decreases s.len(),
{
    lemma_first_nl(s);
    lemma_first_nl(s.push(b));
    let i = first_nl(s);
    lemma_first_nl_push(s, b);
    if i < s.len() {
        assert(s.push(b).skip(i + 1 as int) =~= s.skip(i + 1 as int).push(b));
        assert(s.push(b).take(i as int) =~= s.take(i as int));
        lemma_framed_push(s.skip(i + 1 as int), b);
        if b == 10 {
            assert(framed(s.push(b)).0 =~= framed(s).0.push(framed(s).1));
        } else {
            assert(framed(s.push(b)).0 =~= framed(s).0);
        }
    } else {
        if b == 10 {
            assert(first_nl(s.push(b)) == s.len());
            assert(s.push(b).take(s.len() as int) =~= s);
            assert(s.push(b).skip(s.len() + 1 as int) =~= Seq::<u8>::empty());
            assert(framed(Seq::<u8>::empty()).0 =~= Seq::<Seq<u8>>::empty());
            assert(framed(s.push(b)).0 =~= framed(s).0.push(framed(s).1));
            assert(framed(s.push(b)).1 =~= Seq::<u8>::empty());
        } else {
            assert(first_nl(s.push(b)) == s.len() + 1);
            assert(framed(s.push(b)).0 =~= framed(s).0);
            assert(framed(s.push(b)).1 =~= framed(s).1.push(b));
        }
    }
}

/// How one more byte moves the first newline.
pub proof fn lemma_first_nl_push(s: Seq<u8>, b: u8)
    ensures
        first_nl(s) < s.len() ==> first_nl(s.push(b)) == first_nl(s),
        first_nl(s) == s.len() && b == 10 ==> first_nl(s.push(b)) == s.len(),
        first_nl(s) == s.len() && b != 10 ==> first_nl(s.push(b)) == s.len() + 1,
    decreases s.len(),
{
    reveal_with_fuel(first_nl, 2);
    lemma_first_nl(s);
    if s.len() == 0 {
        assert(s.push(b)[0] == b);
        if b != 10 {
            assert(s.push(b).drop_first() =~= Seq::<u8>::empty());
        }
    } else {
        assert(s.push(b)[0] == s[0]);
        if s[0] != 10 {
            assert(s.push(b).drop_first() =~= s.drop_first().push(b));
            lemma_first_nl_push(s.drop_first(), b);
        }
    }
}

/// Move every complete line out of `buf`, leaving the unterminated
/// remainder in place.
#[verifier::loop_isolation(false)]
pub fn take_lines(buf: &mut Vec<u8>) -> (lines: Vec<Vec<u8>>)
    ensures
        lines@.map_values(|l: Vec<u8>| l@) == framed(old(buf)@).0,
        final(buf)@ == framed(old(buf)@).1,
{
    let ghost total = buf@;
    let mut lines: Vec<Vec<u8>> = Vec::new();
    let mut cur: Vec<u8> = Vec::new();
    let mut i: usize = 0;
    proof {
        assert(total.take(0) =~= Seq::<u8>::empty());
        assert(lines@.map_values(|l: Vec<u8>| l@) =~= framed(total.take(0)).0);
    }
    while i < buf.len()
        invariant
            0 <= i <= total.len(),
            buf@ == total,
            lines@.map_values(|l: Vec<u8>| l@) == framed(total.take(i as int)).0,
            cur@ == framed(total.take(i as int)).1,
        decreases total.len() - i,
    {
        let b = buf[i];
        proof {
            assert(total.take(i + 1) =~= total.take(i as int).push(b));
            lemma_framed_push(total.take(i as int), b);
        }
        if b == 10 {
            let ghost lines_pre = lines@;
            let done = cur;
            cur = Vec::new();
            lines.push(done);
            proof {
                assert(lines@.map_values(|l: Vec<u8>| l@) =~= lines_pre.map_values(
                    |l: Vec<u8>| l@,
                ).push(done@));
            }
        } else {
            cur.push(b);
        }
        i = i + 1;
    }
    proof {
        assert(total.take(total.len() as int) =~= total);
    }
    *buf = cur;
    lines
}

/// ASCII whitespace, the bytes a blank protocol line may consist of.
pub open spec fn is_ws(b: u8) -> bool {
    b == 32 || b == 9 || b == 13 || b == 10
}

/// A line that holds nothing but whitespace is ignored.
pub open spec fn is_blank(s: Seq<u8>) -> bool {
    forall|j: int| 0 <= j < s.len() ==> is_ws(#[trigger] s[j])
}

/// Whether a line is blank.
pub fn is_blank_vec(line: &Vec<u8>) -> (r: bool)
    ensures
        r == is_blank(line@),
{
    let mut i: usize = 0;
    while i < line.len()
        invariant
            0 <= i <= line@.len(),
            forall|j: int| 0 <= j < i ==> is_ws(#[trigger] line@[j]),
        decreases line@.len() - i,
    {
        let b = line[i];
        if !(b == 32 || b == 9 || b == 13 || b == 10) {
            return false;
        }
        i = i + 1;
    }
    true
}

/// The reasoning text of one decoded message: the dedicated thinking
/// field when present, else the alternate reasoning field.
pub open spec fn native_think(thinking: Option<Vec<u8>>, reasoning: Option<Vec<u8>>) -> Seq<u8> {
    match thinking {
        Option::Some(t) => t@,
        Option::None => match reasoning {
            Option::Some(r) => r@,
            Option::None => Seq::empty(),
        },
    }
}

/// The content text of one decoded message.
pub open spec fn content_text(content: Option<Vec<u8>>) -> Seq<u8> {
    match content {
        Option::Some(c) => c@,
        Option::None => Seq::empty(),
    }
}

/// The error notices one line yields.
pub open spec fn line_notices(s: Seq<u8>) -> Seq<Seq<u8>> {
    if is_blank(s) {
        Seq::empty()
    } else {
        match chat_line_head(s) {
            Option::Some(h) => match h.0 {
                Option::Some(e) => seq![e@],
                Option::None => Seq::empty(),
            },
            Option::None => Seq::empty(),
        }
    }
}

/// The reasoning text one line carries in its dedicated fields: the
/// `thinking` field when present, else the alternate `reasoning` field.
pub open spec fn line_thinks(s: Seq<u8>) -> Seq<u8> {
    if is_blank(s) {
        Seq::empty()
    } else {
        match chat_line_message(s) {
            Option::Some(m) => native_think(m.1, m.2),
            Option::None => Seq::empty(),
        }
    }
}

/// The content text one line carries, still holding any inline
/// thinking-tag markers.
pub open spec fn line_text(s: Seq<u8>) -> Seq<u8> {
    if is_blank(s) {
        Seq::empty()
    } else {
        match chat_line_message(s) {
            Option::Some(m) => content_text(m.0),
            Option::None => Seq::empty(),
        }
    }
}

/// The tool-call fragments one line yields.
pub open spec fn line_calls(s: Seq<u8>) -> Seq<(Seq<u8>, Seq<u8>)> {
    if is_blank(s) {
        Seq::empty()
    } else {
        chat_line_tools(s)
    }
}

/// Whether one line flags the response as complete.
pub open spec fn line_done(s: Seq<u8>) -> bool {
    !is_blank(s) && match chat_line_head(s) {
        Option::Some(h) => h.1,
        Option::None => false,
    }
}

/// The empty routing has no visible spans and decodes to no events.
pub proof fn lemma_spans_of_empty()
    ensures
        spans_of(Seq::<Piece>::empty()) == Seq::<Piece>::empty(),
        piece_events(spans_of(Seq::<Piece>::empty())) == Seq::<StreamEvModel>::empty(),
{
    assert(visible(Seq::<Piece>::empty()) =~= Seq::<Piece>::empty());
    assert(coalesce(Seq::<Piece>::empty()) =~= Seq::<Piece>::empty());
}

/// The error-notice events one line yields, in order.
pub open spec fn head_events(s: Seq<u8>) -> Seq<StreamEvModel> {
    if is_blank(s) {
        Seq::empty()
    } else {
        match chat_line_head(s) {
            Option::Some(h) => match h.0 {
                Option::Some(e) => seq![StreamEvModel::ErrorNotice(e@)],
                Option::None => Seq::empty(),
            },
            Option::None => Seq::empty(),
        }
    }
}

/// The event the dedicated reasoning fields of one decoded message
/// yield: one thinking fragment when the preferred field is nonempty,
/// none otherwise.
pub open spec fn native_think_events(
    thinking: Option<Vec<u8>>,
    reasoning: Option<Vec<u8>>,
) -> Seq<StreamEvModel> {
    if native_think(thinking, reasoning).len() == 0 {
        Seq::empty()
    } else {
        seq![StreamEvModel::Thinking(native_think(thinking, reasoning))]
    }
}

/// The reasoning-field event one line yields.
pub open spec fn think_events(s: Seq<u8>) -> Seq<StreamEvModel> {
    if is_blank(s) {
        Seq::empty()
    } else {
        match chat_line_message(s) {
            Option::Some(m) => native_think_events(m.1, m.2),
            Option::None => Seq::empty(),
        }
    }
}

/// The completion event one line yields.
pub open spec fn done_events(s: Seq<u8>) -> Seq<StreamEvModel> {
    if line_done(s) {
        seq![StreamEvModel::Done]
    } else {
        Seq::empty()
    }
}

/// The full ordered event run one line decodes to: its error notice,
/// its reasoning fragment, the routed spans of its content, its
/// tool-call fragments, and its completion flag, in that order.
pub open spec fn line_events(s: Seq<u8>, st: SplitState) -> Seq<StreamEvModel> {
    head_events(s) + think_events(s) + piece_events(
        spans_of(split_run(st, line_text(s)).0),
    ) + call_events(line_calls(s)) + done_events(s)
}

/// The full ordered event run a stretch of lines decodes to, threading
/// the splitter state through.
pub open spec fn lines_events(ls: Seq<Seq<u8>>, st: SplitState) -> Seq<StreamEvModel>
    decreases ls.len(),
{
    if ls.len() == 0 {
        Seq::empty()
    } else {
        line_events(ls[0], st) + lines_events(
            ls.drop_first(),
            split_run(st, line_text(ls[0])).1,
        )
    }
}

/// Decoding one more line appends its events.
pub proof fn lemma_lines_events_snoc(ls: Seq<Seq<u8>>, l: Seq<u8>, st: SplitState)
    ensures
        lines_events(ls.push(l), st) == lines_events(ls, st) + line_events(
            l,
            decode_lines_model(ls, st).split,
        ),
    decreases ls.len(),
{
    reveal_with_fuel(lines_events, 2);
    reveal_with_fuel(decode_lines_model, 2);
    if ls.len() == 0 {
        assert(ls.push(l)[0] == l);
        assert(ls.push(l).drop_first() =~= Seq::<Seq<u8>>::empty());
        assert(lines_events(ls.push(l), st) =~= lines_events(ls, st) + line_events(l, st));
    } else {
        assert(ls.push(l)[0] == ls[0]);
        assert(ls.push(l).drop_first() =~= ls.drop_first().push(l));
        lemma_lines_events_snoc(ls.drop_first(), l, split_run(st, line_text(ls[0])).1);
        assert(decode_line_model(ls[0], st).split == split_run(st, line_text(ls[0])).1);
        assert(lines_events(ls.push(l), st) =~= lines_events(ls, st) + line_events(
            l,
            decode_lines_model(ls, st).split,
        ));
    }
}

/// Everything a stretch of decoded lines yields, and the splitter state
/// it leaves behind.
#[verifier::ext_equal]
pub struct Decoded {
    pub notices: Seq<Seq<u8>>,
    pub thinks: Seq<u8>,
    pub tokens: Seq<u8>,
    pub calls: Seq<(Seq<u8>, Seq<u8>)>,
    pub dones: nat,
    pub split: SplitState,
}

/// What one line yields, given the splitter state it starts in.
pub open spec fn decode_line_model(s: Seq<u8>, st: SplitState) -> Decoded {
    let r = split_run(st, line_text(s));
    Decoded {
        notices: line_notices(s),
        thinks: line_thinks(s) + mused_bytes(r.0),
        tokens: said_bytes(r.0),
        calls: line_calls(s),
        dones: if line_done(s) {
            1nat
        } else {
            0nat
        },
        split: r.1,
    }
}

/// What a run of lines yields, threading the splitter state through.
pub open spec fn decode_lines_model(ls: Seq<Seq<u8>>, st: SplitState) -> Decoded
    decreases ls.len(),
{
    if ls.len() == 0 {
        Decoded {
            notices: Seq::empty(),
            thinks: Seq::empty(),
            tokens: Seq::empty(),
            calls: Seq::empty(),
            dones: 0,
            split: st,
        }
    } else {
        let first = decode_line_model(ls[0], st);
        let rest = decode_lines_model(ls.drop_first(), first.split);
        Decoded {
            notices: first.notices + rest.notices,
            thinks: first.thinks + rest.thinks,
            tokens: first.tokens + rest.tokens,
            calls: first.calls + rest.calls,
            dones: first.dones + rest.dones,
            split: rest.split,
        }
    }
}

/// Decoding one more line extends each projection at the end.
pub proof fn lemma_decode_lines_snoc(ls: Seq<Seq<u8>>, l: Seq<u8>, st: SplitState)
    ensures
        ({
            let pre = decode_lines_model(ls, st);
            let last = decode_line_model(l, pre.split);
            decode_lines_model(ls.push(l), st) == Decoded {
                notices: pre.notices + last.notices,
                thinks: pre.thinks + last.thinks,
                tokens: pre.tokens + last.tokens,
                calls: pre.calls + last.calls,
                dones: pre.dones + last.dones,
                split: last.split,
            }
        }),
    decreases ls.len(),
{
    reveal_with_fuel(decode_lines_model, 3);
    let pre = decode_lines_model(ls, st);
    let last = decode_line_model(l, pre.split);
    if ls.len() == 0 {
        assert(ls.push(l)[0] == l);
        assert(ls.push(l).drop_first() =~= Seq::<Seq<u8>>::empty());
        let first = decode_line_model(l, st);
        assert(decode_lines_model(ls.push(l), st) =~= Decoded {
            notices: pre.notices + last.notices,
            thinks: pre.thinks + last.thinks,
            tokens: pre.tokens + last.tokens,
            calls: pre.calls + last.calls,
            dones: pre.dones + last.dones,
            split: last.split,
        });
    } else {
        assert(ls.push(l)[0] == ls[0]);
        assert(ls.push(l).drop_first() =~= ls.drop_first().push(l));
        let first = decode_line_model(ls[0], st);
        lemma_decode_lines_snoc(ls.drop_first(), l, first.split);
        assert(decode_lines_model(ls.push(l), st) =~= Decoded {
            notices: pre.notices + last.notices,
            thinks: pre.thinks + last.thinks,
            tokens: pre.tokens + last.tokens,
            calls: pre.calls + last.calls,
            dones: pre.dones + last.dones,
            split: last.split,
        });
    }
}

/// The decoder's abstract state: the bytes of an incomplete trailing
/// line, and the splitter state.
pub struct DecoderModel {
    pub buf: Seq<u8>,
    pub split: SplitState,
}

/// The streaming response decoder.
pub struct Decoder {
    buf: Vec<u8>,
    splitter: Splitter,
}

impl View for Decoder {
    type V = DecoderModel;

    closed spec fn view(&self) -> DecoderModel {
        DecoderModel { buf: self.buf@, split: self.splitter@ }
    }
}

impl Decoder {
    /// A fresh decoder with an empty buffer.
    pub fn new() -> (d: Decoder)
        ensures
            d@.buf == Seq::<u8>::empty(),
            d@.split == initial_split_state(),
            split_wf(d@.split),
    {
        let d = Decoder { buf: Vec::new(), splitter: Splitter::new() };
        assert(d@.buf =~= Seq::<u8>::empty());
        d
    }

    /// Decode one framed line into events, appended to `out`.
    #[verifier::loop_isolation(false)]
    #[verifier::rlimit(60)]
    fn decode_line(splitter: &mut Splitter, line: &Vec<u8>, out: &mut Vec<StreamEvent>)
        requires
            split_wf(old(splitter)@),
        ensures
            ({
                let d = decode_line_model(line@, old(splitter)@);
                &&& final(splitter)@ == d.split
                &&& split_wf(final(splitter)@)
                &&& ev_notices(final(out)@) == ev_notices(old(out)@) + d.notices
                &&& ev_thinks(final(out)@) == ev_thinks(old(out)@) + d.thinks
                &&& ev_tokens(final(out)@) == ev_tokens(old(out)@) + d.tokens
                &&& ev_calls(final(out)@) == ev_calls(old(out)@) + d.calls
                &&& ev_dones(final(out)@) == ev_dones(old(out)@) + d.dones
                &&& evs_model(final(out)@) == evs_model(old(out)@) + line_events(
                    line@,
                    old(splitter)@,
                )
            }),
    {
        let ghost st0 = splitter@;
        let ghost d = decode_line_model(line@, st0);
        if is_blank_vec(line) {
            proof {
                assert(split_run(st0, line_text(line@)).0 =~= Seq::<Piece>::empty());
                lemma_append_empties(out@);
                lemma_spans_of_empty();
                assert(call_events(line_calls(line@)) =~= Seq::<StreamEvModel>::empty());
                assert(line_events(line@, st0) =~= Seq::<StreamEvModel>::empty());
                assert(evs_model(out@) + line_events(line@, st0) =~= evs_model(out@));
            }
            return ;
        }
        let ghost evs0 = evs_model(out@);
        let head = parse_line_head(line);
        let msg = parse_line_message(line);
        let mut done_flag = false;
        match head {
            Option::Some(h) => {
                let (error, done) = h;
                done_flag = done;
                match error {
                    Option::Some(e) => {
                        let ghost out_pre = out@;
                        out.push(StreamEvent::ErrorNotice(e));
                        proof {
                            lemma_ev_push(out_pre, StreamEvent::ErrorNotice(e));
                            lemma_evs_push(out_pre, StreamEvent::ErrorNotice(e));
                            assert(evs_model(out@) =~= evs0 + head_events(line@));
                        }
                    },
                    Option::None => {
                        assert(evs_model(out@) + head_events(line@) =~= evs_model(out@));
                    },
                }
            },
            Option::None => {
                assert(evs_model(out@) + head_events(line@) =~= evs_model(out@));
            },
        }
        let ghost evs_head = evs_model(out@);
        match msg {
            Option::Some(m) => {
                let (content, thinking, reasoning) = m;
                Decoder::emit_message(splitter, content, thinking, reasoning, out);
                proof {
                    assert(evs_model(out@) =~= evs_head + think_events(line@) + piece_events(
                        spans_of(split_run(st0, line_text(line@)).0),
                    ));
                }
            },
            Option::None => {
                proof {
                    assert(split_run(st0, line_text(line@)).0 =~= Seq::<Piece>::empty());
                    lemma_spans_of_empty();
                    assert(ev_thinks(out@) + Seq::<u8>::empty() =~= ev_thinks(out@));
                    assert(ev_tokens(out@) + Seq::<u8>::empty() =~= ev_tokens(out@));
                    assert(evs_model(out@) =~= evs_head + think_events(line@) + piece_events(
                        spans_of(split_run(st0, line_text(line@)).0),
                    ));
                }
            },
        }
        let ghost evs_msg = evs_model(out@);
        let tools = parse_line_tools(line);
        Decoder::emit_calls(tools, out);
        proof {
            assert(evs_model(out@) =~= evs_msg + call_events(line_calls(line@)));
        }
        if done_flag {
            let ghost out_pre = out@;
            out.push(StreamEvent::Done);
            proof {
                lemma_ev_push(out_pre, StreamEvent::Done);
                lemma_evs_push(out_pre, StreamEvent::Done);
            }
        }
        proof {
            assert(evs_model(out@) =~= evs0 + line_events(line@, st0));
        }
    }

    /// Emit the reasoning and content text of one line: the dedicated
    /// thinking field (or its alternate) first, then the content routed
    /// through the splitter.
    #[verifier::loop_isolation(false)]
    #[verifier::rlimit(60)]
    fn emit_message(
        splitter: &mut Splitter,
        content: Option<Vec<u8>>,
        thinking: Option<Vec<u8>>,
        reasoning: Option<Vec<u8>>,
        out: &mut Vec<StreamEvent>,
    )
        requires
            split_wf(old(splitter)@),
        ensures
            ({
                let ctext = content_text(content);
                let r = split_run(old(splitter)@, ctext);
                &&& final(splitter)@ == r.1
                &&& split_wf(final(splitter)@)
                &&& ev_thinks(final(out)@) == ev_thinks(old(out)@) + native_think(
                    thinking,
                    reasoning,
                ) + mused_bytes(r.0)
                &&& ev_tokens(final(out)@) == ev_tokens(old(out)@) + said_bytes(r.0)
                &&& ev_notices(final(out)@) == ev_notices(old(out)@)
                &&& ev_calls(final(out)@) == ev_calls(old(out)@)
                &&& ev_dones(final(out)@) == ev_dones(old(out)@)
                &&& evs_model(final(out)@) == evs_model(old(out)@) + native_think_events(
                    thinking,
                    reasoning,
                ) + piece_events(spans_of(r.0))
            }),
    {
        let ghost st0 = splitter@;
        let ghost gthink = thinking;
        let ghost greason = reasoning;
        let ghost gcontent = content;
        match thinking {
            Option::Some(t) => {
                if t.len() > 0 {
                    let ghost out_pre = out@;
                    out.push(StreamEvent::Thinking(t));
                    proof {
                        lemma_ev_push(out_pre, StreamEvent::Thinking(t));
                        lemma_evs_push(out_pre, StreamEvent::Thinking(t));
                        assert(evs_model(out@) =~= evs_model(out_pre) + native_think_events(
                            gthink,
                            greason,
                        ));
                    }
                } else {
                    assert(t@ =~= Seq::<u8>::empty());
                    assert(evs_model(out@) + native_think_events(gthink, greason) =~= evs_model(
                        out@,
                    ));
                }
            },
            Option::None => {
                match reasoning {
                    Option::Some(r) => {
                        if r.len() > 0 {
                            let ghost out_pre = out@;
                            out.push(StreamEvent::Thinking(r));
                            proof {
                                lemma_ev_push(out_pre, StreamEvent::Thinking(r));
                                lemma_evs_push(out_pre, StreamEvent::Thinking(r));
                                assert(evs_model(out@) =~= evs_model(out_pre)
                                    + native_think_events(gthink, greason));
                            }
                        } else {
                            assert(r@ =~= Seq::<u8>::empty());
                            assert(evs_model(out@) + native_think_events(gthink, greason)
                                =~= evs_model(out@));
                        }
                    },
                    Option::None => {
                        assert(evs_model(out@) + native_think_events(gthink, greason)
                            =~= evs_model(out@));
                    },
                }
            },
        }
        let ghost after_think = out@;
        match content {
            Option::Some(c) => {
                if c.len() > 0 {
                    let mut routed = splitter.feed(&c);
                    let rlen = routed.len();
                    let ghost rall = routed@;
                    let mut k: usize = 0;
                    let ghost base = out@;
                    proof {
                        assert(routed_pieces(rall.take(0)) =~= Seq::<Piece>::empty());
                        assert(piece_events(routed_pieces(rall.take(0))) =~= Seq::<
                            StreamEvModel,
                        >::empty());
                        assert(evs_model(base) + piece_events(routed_pieces(rall.take(0)))
                            =~= evs_model(base));
                        assert(rall.skip(0) =~= rall);
                    }
                    while routed.len() > 0
                        invariant
                            rall.len() == rlen,
                            k + routed@.len() == rall.len(),
                            routed@ == rall.skip(k as int),
                            ev_notices(out@) == ev_notices(base),
                            ev_calls(out@) == ev_calls(base),
                            ev_dones(out@) == ev_dones(base),
                            ev_tokens(out@) == ev_tokens(base) + said_bytes(
                                routed_pieces(rall.take(k as int)),
                            ),
                            ev_thinks(out@) == ev_thinks(base) + mused_bytes(
                                routed_pieces(rall.take(k as int)),
                            ),
                            evs_model(out@) == evs_model(base) + piece_events(
                                routed_pieces(rall.take(k as int)),
                            ),
                        decreases routed@.len(),
                    {
                        proof {
                            assert(rall[k as int] == routed@[0]);
                            assert(rall.take(k + 1 as int) =~= rall.take(k as int).push(
                                rall[k as int],
                            ));
                            lemma_routed_pieces_push(rall.take(k as int), rall[k as int]);
                            assert(routed_pieces(rall.take(k as int)).push(
                                routed_piece(rall[k as int]),
                            ) =~= routed_pieces(rall.take(k as int)) + seq![
                                routed_piece(rall[k as int]),
                            ]);
                            lemma_said_append(
                                routed_pieces(rall.take(k as int)),
                                seq![routed_piece(rall[k as int])],
                            );
                            lemma_mused_append(
                                routed_pieces(rall.take(k as int)),
                                seq![routed_piece(rall[k as int])],
                            );
                            lemma_said_one(routed_piece(rall[k as int]));
                            lemma_mused_one(routed_piece(rall[k as int]));
                            assert(routed@.remove(0) =~= routed@.drop_first());
                            assert(rall.skip(k + 1 as int) =~= rall.skip(
                                k as int,
                            ).drop_first());
                        }
                        proof {
                            lemma_piece_events_push(
                                routed_pieces(rall.take(k as int)),
                                routed_piece(rall[k as int]),
                            );
                        }
                        let r = routed.remove(0);
                        let ghost out_pre = out@;
                        match r {
                            Routed::Text(v) => {
                                out.push(StreamEvent::Token(v));
                                proof {
                                    lemma_ev_push(out_pre, StreamEvent::Token(v));
                                    lemma_evs_push(out_pre, StreamEvent::Token(v));
                                    assert(evs_model(out@) =~= evs_model(base) + piece_events(
                                        routed_pieces(rall.take(k + 1 as int)),
                                    ));
                                }
                            },
                            Routed::Thought(v) => {
                                out.push(StreamEvent::Thinking(v));
                                proof {
                                    lemma_ev_push(out_pre, StreamEvent::Thinking(v));
                                    lemma_evs_push(out_pre, StreamEvent::Thinking(v));
                                    assert(evs_model(out@) =~= evs_model(base) + piece_events(
                                        routed_pieces(rall.take(k + 1 as int)),
                                    ));
                                }
                            },
                        }
                        k = k + 1;
                    }
                    proof {
                        assert(rall.take(rall.len() as int) =~= rall);
                    }
                } else {
                    proof {
                        assert(c@ =~= Seq::<u8>::empty());
                        assert(split_run(st0, content_text(gcontent)).0
                            =~= Seq::<Piece>::empty());
                        lemma_spans_of_empty();
                        assert(ev_tokens(out@) + Seq::<u8>::empty() =~= ev_tokens(out@));
                        assert(evs_model(out@) + Seq::<StreamEvModel>::empty() =~= evs_model(
                            out@,
                        ));
                    }
                }
            },
            Option::None => {
                proof {
                    assert(split_run(st0, content_text(gcontent)).0 =~= Seq::<Piece>::empty());
                    lemma_spans_of_empty();
                    assert(ev_tokens(out@) + Seq::<u8>::empty() =~= ev_tokens(out@));
                    assert(evs_model(out@) + Seq::<StreamEvModel>::empty() =~= evs_model(out@));
                }
            },
        }
    }

    /// Emit the tool-call fragments of one line, in order.
    #[verifier::loop_isolation(false)]
    #[verifier::rlimit(60)]
    fn emit_calls(tools: Vec<ToolCall>, out: &mut Vec<StreamEvent>)
        ensures
            ev_calls(final(out)@) == ev_calls(old(out)@) + tools@.map_values(
                |c: ToolCall| call_model(c),
            ),
            ev_notices(final(out)@) == ev_notices(old(out)@),
            ev_tokens(final(out)@) == ev_tokens(old(out)@),
            ev_thinks(final(out)@) == ev_thinks(old(out)@),
            ev_dones(final(out)@) == ev_dones(old(out)@),
            evs_model(final(out)@) == evs_model(old(out)@) + call_events(
                tools@.map_values(|c: ToolCall| call_model(c)),
            ),
    {
        let mut tools = tools;
        let tlen = tools.len();
        let ghost tall = tools@;
        let ghost toolms = tall.map_values(|c: ToolCall| call_model(c));
        let mut k: usize = 0;
        let ghost base = out@;
        proof {
            assert(toolms.take(0) =~= Seq::<(Seq<u8>, Seq<u8>)>::empty());
            assert(ev_calls(base) + toolms.take(0) =~= ev_calls(base));
            assert(call_events(toolms.take(0)) =~= Seq::<StreamEvModel>::empty());
            assert(evs_model(base) + call_events(toolms.take(0)) =~= evs_model(base));
            assert(tall.skip(0) =~= tall);
        }
        while tools.len() > 0
            invariant
                tall.len() == tlen,
                k + tools@.len() == tall.len(),
                tools@ == tall.skip(k as int),
                ev_notices(out@) == ev_notices(base),
                ev_tokens(out@) == ev_tokens(base),
                ev_thinks(out@) == ev_thinks(base),
                ev_dones(out@) == ev_dones(base),
                ev_calls(out@) == ev_calls(base) + toolms.take(k as int),
                evs_model(out@) == evs_model(base) + call_events(toolms.take(k as int)),
            decreases tools@.len(),
        {
            proof {
                assert(tall[k as int] == tools@[0]);
                assert(toolms.take(k + 1 as int) =~= toolms.take(k as int).push(
                    call_model(tall[k as int]),
                ));
                assert(ev_calls(base) + toolms.take(k as int).push(call_model(tall[k as int]))
                    =~= (ev_calls(base) + toolms.take(k as int)) + seq![
                    call_model(tall[k as int]),
                ]);
                assert(tools@.remove(0) =~= tools@.drop_first());
                assert(tall.skip(k + 1 as int) =~= tall.skip(k as int).drop_first());
            }
            let c = tools.remove(0);
            let ghost out_pre = out@;
            let ghost gc = c;
            out.push(StreamEvent::Call(c));
            proof {
                lemma_ev_push(out_pre, StreamEvent::Call(gc));
                lemma_evs_push(out_pre, StreamEvent::Call(gc));
                lemma_call_events_push(toolms.take(k as int), call_model(gc));
                assert(evs_model(base) + call_events(toolms.take(k as int)).push(
                    StreamEvModel::Call(gc.name@, gc.arguments@),
                ) =~= (evs_model(base) + call_events(toolms.take(k as int))).push(
                    StreamEvModel::Call(gc.name@, gc.arguments@),
                ));
            }
            k = k + 1;
        }
        proof {
            assert(toolms.take(tall.len() as int) =~= toolms);
        }
    }

    /// Feed one raw chunk from the network.  Every line completed by
    /// the chunk is decoded in order; the returned events are exactly
    /// the ordered event run the abstract decoding of those lines
    /// yields, and the decoder keeps the unterminated remainder and
    /// the splitter state for the next chunk.
    #[verifier::loop_isolation(false)]
    pub fn feed(&mut self, chunk: &Vec<u8>) -> (out: Vec<StreamEvent>)
        requires
            split_wf(old(self)@.split),
        ensures
            ({
                let fr = framed(old(self)@.buf + chunk@);
                let d = decode_lines_model(fr.0, old(self)@.split);
                &&& final(self)@.buf == fr.1
                &&& final(self)@.split == d.split
                &&& split_wf(final(self)@.split)
                &&& ev_notices(out@) == d.notices
                &&& ev_thinks(out@) == d.thinks
                &&& ev_tokens(out@) == d.tokens
                &&& ev_calls(out@) == d.calls
                &&& ev_dones(out@) == d.dones
                &&& evs_model(out@) == lines_events(fr.0, old(self)@.split)
            }),
    {
        let ghost st0 = self@.split;
        let ghost total = self@.buf + chunk@;
        self.buf.extend_from_slice(chunk.as_slice());
        assert(self.buf@ == total);
        let lines = take_lines(&mut self.buf);
        let ghost lsv = lines@.map_values(|l: Vec<u8>| l@);
        let mut out: Vec<StreamEvent> = Vec::new();
        let mut i: usize = 0;
        proof {
            assert(lsv.take(0) =~= Seq::<Seq<u8>>::empty());
            assert(decode_lines_model(lsv.take(0), st0).split == st0);
            assert(lines_events(lsv.take(0), st0) =~= Seq::<StreamEvModel>::empty());
            assert(evs_model(out@) =~= Seq::<StreamEvModel>::empty());
        }
        while i < lines.len()
            invariant
                0 <= i <= lines@.len(),
                self@.buf == framed(total).1,
                self@.split == decode_lines_model(lsv.take(i as int), st0).split,
                split_wf(self@.split),
                ev_notices(out@) == decode_lines_model(lsv.take(i as int), st0).notices,
                ev_thinks(out@) == decode_lines_model(lsv.take(i as int), st0).thinks,
                ev_tokens(out@) == decode_lines_model(lsv.take(i as int), st0).tokens,
                ev_calls(out@) == decode_lines_model(lsv.take(i as int), st0).calls,
                ev_dones(out@) == decode_lines_model(lsv.take(i as int), st0).dones,
                evs_model(out@) == lines_events(lsv.take(i as int), st0),
            decreases lines@.len() - i,
        {
            let ghost pre = decode_lines_model(lsv.take(i as int), st0);
            proof {
                assert(lsv[i as int] == lines@[i as int]@);
                assert(lsv.take(i + 1 as int) =~= lsv.take(i as int).push(lsv[i as int]));
                lemma_decode_lines_snoc(lsv.take(i as int), lsv[i as int], st0);
                lemma_lines_events_snoc(lsv.take(i as int), lsv[i as int], st0);
            }
            Decoder::decode_line(&mut self.splitter, &lines[i], &mut out);
            i = i + 1;
        }
        proof {
            assert(lsv.take(lines@.len() as int) =~= lsv);
        }
        out
    }

    /// End of stream: flush any held-back bytes to their channel and
    /// signal completion.  Bytes of an incomplete trailing line stay
    /// buffered and are never decoded.
    pub fn finish(&mut self) -> (out: Vec<StreamEvent>)
        requires
            split_wf(old(self)@.split),
        ensures
            final(self)@.buf == old(self)@.buf,
            final(self)@.split.inside == old(self)@.split.inside,
            final(self)@.split.pend == Seq::<u8>::empty(),
            split_wf(final(self)@.split),
            ev_tokens(out@) == said_bytes(flush_pieces(old(self)@.split)),
            ev_thinks(out@) == mused_bytes(flush_pieces(old(self)@.split)),
            ev_notices(out@) == Seq::<Seq<u8>>::empty(),
            ev_calls(out@) == Seq::<(Seq<u8>, Seq<u8>)>::empty(),
            ev_dones(out@) == 1,
            evs_model(out@) == piece_events(flush_pieces(old(self)@.split)) + seq![
                StreamEvModel::Done,
            ],
    {
        let ghost st0 = self@.split;
        let mut out: Vec<StreamEvent> = Vec::new();
        let flushed = self.splitter.finish();
        match flushed {
            Option::Some(r) => {
                let ghost out_pre = out@;
                proof {
                    lemma_said_one(routed_piece(r));
                    lemma_mused_one(routed_piece(r));
                    lemma_piece_events_push(Seq::<Piece>::empty(), routed_piece(r));
                    assert(piece_events(Seq::<Piece>::empty()) =~= Seq::<StreamEvModel>::empty());
                }
                match r {
                    Routed::Text(v) => {
                        out.push(StreamEvent::Token(v));
                        proof {
                            lemma_ev_push(out_pre, StreamEvent::Token(v));
                            lemma_evs_push(out_pre, StreamEvent::Token(v));
                        }
                    },
                    Routed::Thought(v) => {
                        out.push(StreamEvent::Thinking(v));
                        proof {
                            lemma_ev_push(out_pre, StreamEvent::Thinking(v));
                            lemma_evs_push(out_pre, StreamEvent::Thinking(v));
                        }
                    },
                }
                proof {
                    assert(flush_pieces(st0) == seq![routed_piece(r)]);
                    assert(Seq::<Piece>::empty().push(routed_piece(r)) =~= seq![routed_piece(r)]);
                    assert(evs_model(out@) =~= piece_events(flush_pieces(st0)));
                }
            },
            Option::None => {
                proof {
                    assert(said_bytes(flush_pieces(st0)) =~= Seq::<u8>::empty());
                    assert(mused_bytes(flush_pieces(st0)) =~= Seq::<u8>::empty());
                    assert(piece_events(flush_pieces(st0)) =~= Seq::<StreamEvModel>::empty());
                    assert(evs_model(out@) =~= piece_events(flush_pieces(st0)));
                }
            },
        }
        let ghost out_pre = out@;
        out.push(StreamEvent::Done);
        proof {
            lemma_ev_push(out_pre, StreamEvent::Done);
            lemma_evs_push(out_pre, StreamEvent::Done);
            assert(Seq::<Seq<u8>>::empty() + Seq::<Seq<u8>>::empty() =~= Seq::<
                Seq<u8>,
            >::empty());
            assert(evs_model(out@) =~= piece_events(flush_pieces(st0)) + seq![
                StreamEvModel::Done,
            ]);
        }
        out
    }
}

/// Appending nothing changes no projection.
proof fn lemma_append_empties(es: Seq<StreamEvent>)
    ensures
        ev_notices(es) + Seq::<Seq<u8>>::empty() == ev_notices(es),
        ev_tokens(es) + Seq::<u8>::empty() == ev_tokens(es),
        ev_thinks(es) + Seq::<u8>::empty() == ev_thinks(es),
        ev_calls(es) + Seq::<(Seq<u8>, Seq<u8>)>::empty() == ev_calls(es),
{
    assert(ev_notices(es) + Seq::<Seq<u8>>::empty() =~= ev_notices(es));
    assert(ev_tokens(es) + Seq::<u8>::empty() =~= ev_tokens(es));
    assert(ev_thinks(es) + Seq::<u8>::empty() =~= ev_thinks(es));
    assert(ev_calls(es) + Seq::<(Seq<u8>, Seq<u8>)>::empty() =~= ev_calls(es));
}


/// The content text of a run of lines, concatenated.
pub open spec fn texts_of(ls: Seq<Seq<u8>>) -> Seq<u8>
    decreases ls.len(),
{
    if ls.len() == 0 {
        Seq::empty()
    } else {
        line_text(ls[0]) + texts_of(ls.drop_first())
    }
}

/// However the response was framed into lines, the decoder routes its
/// whole content through one splitter run: the tokens it emits are
/// exactly the content channel of routing the concatenated content
/// text, and the splitter ends in that run's state.
pub proof fn lemma_tokens_are_routed_content(ls: Seq<Seq<u8>>, st: SplitState)
    ensures
        decode_lines_model(ls, st).split == split_run(st, texts_of(ls)).1,
        decode_lines_model(ls, st).tokens == said_bytes(split_run(st, texts_of(ls)).0),
    decreases ls.len(),
{
    if ls.len() == 0 {
        assert(said_bytes(split_run(st, texts_of(ls)).0) =~= Seq::<u8>::empty());
    } else {
        let first = decode_line_model(ls[0], st);
        lemma_tokens_are_routed_content(ls.drop_first(), first.split);
        lemma_run_append(st, line_text(ls[0]), texts_of(ls.drop_first()));
        lemma_said_append(
            split_run(st, line_text(ls[0])).0,
            split_run(first.split, texts_of(ls.drop_first())).0,
        );
    }
}


} // verus!
