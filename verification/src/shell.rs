//! The shell actor core: the decisions of the event loop that owns one
//! long-lived interactive interpreter process.
//!
//! Two traffic classes share the process's single stdin/stdout pair:
//! correlated tool commands, whose output must be captured and answered
//! over a reply channel, and uncorrelated interactive input, which is
//! only observed.  Every submitted command is wrapped so its standard
//! error merges into standard output and a private sentinel line
//! follows, which marks completion deterministically and is never shown
//! to either consumer.  At most one responder is registered at any
//! instant: a new command or interactive input replaces or clears it,
//! so output can never be attributed to two commands at once.
//!
//! The core performs no I/O.  The surrounding runtime reads process
//! output and inbound requests, feeds them in as [`ShellEvent`]s in
//! arrival order, and performs the returned [`ShellAction`]s: writing
//! to the process, publishing terminal lines, and forwarding or closing
//! reply channels, which it looks up by ticket.

use vstd::prelude::*;
use vstd::utf8::encode_utf8;

use crate::decoder::is_ws;

verus! {

/// One request submitted to the actor.
#[derive(Debug, Clone, PartialEq, Eq)]
pub enum ShellRequest {
    /// Run a command and capture its output until the sentinel.
    RunCommand(Vec<u8>),
    /// Free-form input typed at the terminal; observation only.
    UserInput(Vec<u8>),
}

/// The spec-level value of a request.
pub enum ShellRequestModel {
    RunCommand(Seq<u8>),
    UserInput(Seq<u8>),
}

pub open spec fn request_model(r: ShellRequest) -> ShellRequestModel {
    match r {
        ShellRequest::RunCommand(c) => ShellRequestModel::RunCommand(c@),
        ShellRequest::UserInput(t) => ShellRequestModel::UserInput(t@),
    }
}

/// One thing that happened at the actor's inputs.
#[derive(Debug, Clone, PartialEq, Eq)]
pub enum ShellEvent {
    /// The next inbound request arrived.
    Request(ShellRequest),
    /// The process printed one line (terminator included).
    OutputLine(Vec<u8>),
    /// The process's output reached end of stream.
    OutputClosed,
}

/// The spec-level value of an actor input.
pub enum ShellEvModel {
    Request(ShellRequestModel),
    OutputLine(Seq<u8>),
    OutputClosed,
}

pub open spec fn shell_ev_model(e: ShellEvent) -> ShellEvModel {
    match e {
        ShellEvent::Request(r) => ShellEvModel::Request(request_model(r)),
        ShellEvent::OutputLine(l) => ShellEvModel::OutputLine(l@),
        ShellEvent::OutputClosed => ShellEvModel::OutputClosed,
    }
}

/// One thing the surrounding runtime must do.
#[derive(Debug, Clone, PartialEq, Eq)]
pub enum ShellAction {
    /// Write these bytes to the process's input.
    WriteInput(Vec<u8>),
    /// Publish this line to the passive terminal view.
    EmitTerminal(Vec<u8>),
    /// Forward this line to the reply channel of the command with this
    /// ticket.
    Forward { ticket: u64, line: Vec<u8> },
    /// Close the reply channel of the command with this ticket; no
    /// further line will reach it.
    CloseReply { ticket: u64 },
    /// The actor loop is over; it is not restarted here.
    Stop,
}

/// The spec-level value of an action.
pub enum ShellActModel {
    WriteInput(Seq<u8>),
    EmitTerminal(Seq<u8>),
    Forward { ticket: u64, line: Seq<u8> },
    CloseReply { ticket: u64 },
    Stop,
}

pub open spec fn shell_act_model(a: ShellAction) -> ShellActModel {
    match a {
        ShellAction::WriteInput(v) => ShellActModel::WriteInput(v@),
        ShellAction::EmitTerminal(v) => ShellActModel::EmitTerminal(v@),
        ShellAction::Forward { ticket, line } => ShellActModel::Forward { ticket, line: line@ },
        ShellAction::CloseReply { ticket } => ShellActModel::CloseReply { ticket },
        ShellAction::Stop => ShellActModel::Stop,
    }
}

pub open spec fn shell_acts_model(acts: Seq<ShellAction>) -> Seq<ShellActModel>
    decreases acts.len(),
{
    if acts.len() == 0 {
        Seq::empty()
    } else {
        seq![shell_act_model(acts[0])] + shell_acts_model(acts.drop_first())
    }
}

/// Whether `needle` occurs as a contiguous run inside `hay`.
pub open spec fn contains_seq(hay: Seq<u8>, needle: Seq<u8>) -> bool {
    exists|i: int|
        0 <= i && i + needle.len() <= hay.len() && #[trigger] hay.subrange(i, i + needle.len())
            == needle
}

/// Whether the bytes of `needle` stand at position `i` of `hay`.
#[verifier::loop_isolation(false)]
fn match_at(hay: &Vec<u8>, needle: &Vec<u8>, i: usize) -> (r: bool)
    requires
        i + needle@.len() <= hay@.len(),
    ensures
        r == (hay@.subrange(i as int, i + needle@.len()) == needle@),
{
    let _hl: usize = hay.len();
    let mut j: usize = 0;
    while j < needle.len()
        invariant
            0 <= j <= needle@.len(),
            forall|k: int| 0 <= k < j ==> hay@[i + k] == needle@[k],
        decreases needle@.len() - j,
    {
        if hay[i + j] != needle[j] {
            proof {
                let jj = j as int;
                assert(hay@.subrange(i as int, i + needle@.len())[jj] == hay@[i + jj]);
            }
            return false;
        }
        j = j + 1;
    }
    proof {
        assert(hay@.subrange(i as int, i + needle@.len()) =~= needle@);
    }
    true
}

/// Whether `needle` occurs inside `hay`.
#[verifier::loop_isolation(false)]
pub fn contains_bytes(hay: &Vec<u8>, needle: &Vec<u8>) -> (r: bool)
    ensures
        r == contains_seq(hay@, needle@),
{
    if needle.len() == 0 {
        proof {
            assert(hay@.subrange(0, 0 + needle@.len() as int) =~= needle@);
            assert(contains_seq(hay@, needle@));
        }
        return true;
    }
    if needle.len() > hay.len() {
        assert(!contains_seq(hay@, needle@));
        return false;
    }
    let mut i: usize = 0;
    while i <= hay.len() - needle.len()
        invariant
            0 <= i <= hay@.len() - needle@.len() + 1,
            forall|k: int|
                0 <= k < i ==> #[trigger] hay@.subrange(k, k + needle@.len()) != needle@,
        decreases hay@.len() - needle@.len() - i + 1,
    {
        if match_at(hay, needle, i) {
            return true;
        }
        i = i + 1;
    }
    false
}

/// The line with trailing whitespace removed.
pub open spec fn trimmed_end(s: Seq<u8>) -> Seq<u8>
    decreases s.len(),
{
    if s.len() > 0 && is_ws(s.last()) {
        trimmed_end(s.drop_last())
    } else {
        s
    }
}

/// Remove trailing whitespace from a line.
pub fn trim_end_bytes(line: &Vec<u8>) -> (r: Vec<u8>)
    ensures
        r@ == trimmed_end(line@),
{
    let mut end: usize = line.len();
    proof {
        assert(line@.take(line@.len() as int) =~= line@);
    }
    loop
        invariant
            0 <= end <= line@.len(),
            trimmed_end(line@) == trimmed_end(line@.take(end as int)),
        ensures
            0 <= end <= line@.len(),
            trimmed_end(line@) == line@.take(end as int),
        decreases end,
    {
        if end == 0 {
            assert(line@.take(0) =~= Seq::<u8>::empty());
            break ;
        }
        let b = line[end - 1];
        if !(b == 32 || b == 9 || b == 13 || b == 10) {
            break ;
        }
        proof {
            assert(line@.take(end as int).drop_last() =~= line@.take(end - 1));
            assert(line@.take(end as int).last() == line@[end - 1]);
        }
        end = end - 1;
    }
    let mut r: Vec<u8> = Vec::new();
    let mut i: usize = 0;
    while i < end
        invariant
            0 <= i <= end <= line@.len(),
            r@ == line@.take(end as int).take(i as int),
        decreases end - i,
    {
        r.push(line[i]);
        proof {
            assert(line@.take(end as int).take(i + 1) =~= line@.take(end as int).take(
                i as int,
            ).push(line@[i as int]));
        }
        i = i + 1;
    }
    proof {
        assert(line@.take(end as int).take(end as int) =~= line@.take(end as int));
        if end == line@.len() {
            assert(line@.take(end as int) =~= line@);
        }
    }
    r
}

/// The wrapped form of a command: standard error merged into standard
/// output, followed by an echo of the sentinel, newline-terminated.
pub open spec fn wrapped_command(cmd: Seq<u8>, sentinel: Seq<u8>) -> Seq<u8> {
    encode_utf8("{ "@) + cmd + encode_utf8("; } 2>&1; echo "@) + sentinel + seq![10u8]
}

/// The raw form of interactive input: the text, newline-terminated.
pub open spec fn raw_input(text: Seq<u8>) -> Seq<u8> {
    text + seq![10u8]
}

/// The shell actor's abstract state.
#[verifier::ext_equal]
pub struct ShellModel {
    /// The private completion marker.
    pub sentinel: Seq<u8>,
    /// The ticket of the command whose reply channel is registered, if
    /// any.
    pub responder: Option<u64>,
    /// The ticket the next command will get.
    pub next_ticket: u64,
    /// Whether the actor loop has ended.
    pub stopped: bool,
}

/// A well-formed state: tickets already handed out stay below the next
/// one.
pub open spec fn shell_wf(st: ShellModel) -> bool {
    match st.responder {
        Option::Some(t) => t < st.next_ticket,
        Option::None => true,
    }
}

/// One step of the actor's decision logic.
pub open spec fn shell_step(st: ShellModel, ev: ShellEvModel) -> (ShellModel, Seq<ShellActModel>) {
    if st.stopped {
        (st, Seq::empty())
    } else {
        match ev {
            ShellEvModel::Request(r) => {
                match r {
                    ShellRequestModel::RunCommand(cmd) => {
                        let t = st.next_ticket;
                        let closing: Seq<ShellActModel> = match st.responder {
                            Option::Some(prev) => seq![ShellActModel::CloseReply { ticket: prev }],
                            Option::None => Seq::empty(),
                        };
                        (
                            ShellModel {
                                responder: Option::Some(t),
                                next_ticket: if st.next_ticket == u64::MAX {
                                    0
                                } else {
                                    (st.next_ticket + 1) as u64
                                },
                                ..st
                            },
                            closing + seq![
                                ShellActModel::WriteInput(wrapped_command(cmd, st.sentinel)),
                            ],
                        )
                    },
                    ShellRequestModel::UserInput(text) => {
                        let closing: Seq<ShellActModel> = match st.responder {
                            Option::Some(prev) => seq![ShellActModel::CloseReply { ticket: prev }],
                            Option::None => Seq::empty(),
                        };
                        (
                            ShellModel { responder: Option::None, ..st },
                            closing + seq![ShellActModel::WriteInput(raw_input(text))],
                        )
                    },
                }
            },
            ShellEvModel::OutputLine(line) => {
                if contains_seq(line, st.sentinel) {
                    match st.responder {
                        Option::Some(t) => (
                            ShellModel { responder: Option::None, ..st },
                            seq![ShellActModel::CloseReply { ticket: t }],
                        ),
                        Option::None => (st, Seq::empty()),
                    }
                } else {
                    let clean = trimmed_end(line);
                    match st.responder {
                        Option::Some(t) => (
                            st,
                            seq![
                                ShellActModel::EmitTerminal(clean),
                                ShellActModel::Forward { ticket: t, line: clean },
                            ],
                        ),
                        Option::None => (st, seq![ShellActModel::EmitTerminal(clean)]),
                    }
                }
            },
            ShellEvModel::OutputClosed => (
                ShellModel { stopped: true, ..st },
                seq![ShellActModel::Stop],
            ),
        }
    }
}

/// The shell actor core.
pub struct ShellCore {
    sentinel: Vec<u8>,
    responder: Option<u64>,
    next_ticket: u64,
    stopped: bool,
}

impl View for ShellCore {
    type V = ShellModel;

    closed spec fn view(&self) -> ShellModel {
        ShellModel {
            sentinel: self.sentinel@,
            responder: self.responder,
            next_ticket: self.next_ticket,
            stopped: self.stopped,
        }
    }
}

impl ShellCore {
    /// A fresh actor core around the given sentinel text.
    pub fn new(sentinel: Vec<u8>) -> (s: ShellCore)
        ensures
            s@ == (ShellModel {
                sentinel: sentinel@,
                responder: Option::None,
                next_ticket: 0,
                stopped: false,
            }),
            shell_wf(s@),
    {
        ShellCore { sentinel, responder: None, next_ticket: 0, stopped: false }
    }

    /// Feed one input and get the actions to perform, in order.
    #[verifier::rlimit(30)]
    pub fn step(&mut self, ev: ShellEvent) -> (out: Vec<ShellAction>)
        ensures
            final(self)@ == shell_step(old(self)@, shell_ev_model(ev)).0,
            shell_acts_model(out@) == shell_step(old(self)@, shell_ev_model(ev)).1,
            shell_wf(old(self)@) && old(self)@.next_ticket < u64::MAX ==> shell_wf(
                final(self)@,
            ),
    {
        let ghost st0 = self@;
        proof {
            reveal_with_fuel(shell_acts_model, 4);
        }
        if self.stopped {
            let out: Vec<ShellAction> = Vec::new();
            assert(shell_acts_model(out@) =~= Seq::<ShellActModel>::empty());
            return out;
        }
        match ev {
            ShellEvent::Request(r) => {
                let mut out: Vec<ShellAction> = Vec::new();
                match self.responder {
                    Some(prev) => {
                        out.push(ShellAction::CloseReply { ticket: prev });
                    },
                    None => {},
                }
                let ghost closing = shell_acts_model(out@);
                proof {
                    match st0.responder {
                        Option::Some(prev) => {
                            assert(closing =~= seq![ShellActModel::CloseReply { ticket: prev }]);
                        },
                        Option::None => {
                            assert(closing =~= Seq::<ShellActModel>::empty());
                        },
                    }
                }
                match r {
                    ShellRequest::RunCommand(cmd) => {
                        let t = self.next_ticket;
                        self.responder = Some(t);
                        if self.next_ticket == u64::MAX {
                            self.next_ticket = 0;
                        } else {
                            self.next_ticket = self.next_ticket + 1;
                        }
                        let mut w = "{ ".as_bytes_vec();
                        w.extend_from_slice(cmd.as_slice());
                        let mut tail = "; } 2>&1; echo ".as_bytes_vec();
                        w.append(&mut tail);
                        w.extend_from_slice(self.sentinel.as_slice());
                        w.push(10);
                        proof {
                            assert(w@ =~= wrapped_command(cmd@, st0.sentinel));
                        }
                        let ghost wv = w@;
                        out.push(ShellAction::WriteInput(w));
                        proof {
                            lemma_shell_acts_push_any(out@, closing, wv);
                            assert(self@ =~= shell_step(
                                st0,
                                ShellEvModel::Request(ShellRequestModel::RunCommand(cmd@)),
                            ).0);
                            assert(shell_acts_model(out@) =~= closing + seq![
                                ShellActModel::WriteInput(wrapped_command(cmd@, st0.sentinel)),
                            ]);
                        }
                        out
                    },
                    ShellRequest::UserInput(text) => {
                        self.responder = None;
                        let mut w = copy_input(&text);
                        w.push(10);
                        proof {
                            assert(w@ =~= raw_input(text@));
                        }
                        let ghost wv = w@;
                        out.push(ShellAction::WriteInput(w));
                        proof {
                            lemma_shell_acts_push_any(out@, closing, wv);
                            assert(self@ =~= shell_step(
                                st0,
                                ShellEvModel::Request(ShellRequestModel::UserInput(text@)),
                            ).0);
                            assert(shell_acts_model(out@) =~= closing + seq![
                                ShellActModel::WriteInput(raw_input(text@)),
                            ]);
                        }
                        out
                    },
                }
            },
            ShellEvent::OutputLine(line) => {
                if contains_bytes(&line, &self.sentinel) {
                    let mut out: Vec<ShellAction> = Vec::new();
                    match self.responder {
                        Some(t) => {
                            self.responder = None;
                            out.push(ShellAction::CloseReply { ticket: t });
                        },
                        None => {},
                    }
                    out
                } else {
                    let clean = trim_end_bytes(&line);
                    let ghost gclean = clean@;
                    let mut out: Vec<ShellAction> = Vec::new();
                    match self.responder {
                        Some(t) => {
                            let second = copy_input(&clean);
                            out.push(ShellAction::EmitTerminal(clean));
                            out.push(ShellAction::Forward { ticket: t, line: second });
                        },
                        None => {
                            out.push(ShellAction::EmitTerminal(clean));
                        },
                    }
                    out
                }
            },
            ShellEvent::OutputClosed => {
                self.stopped = true;
                let mut out: Vec<ShellAction> = Vec::new();
                out.push(ShellAction::Stop);
                out
            },
        }
    }
}


/// Pushing a write action onto a prefix keeps the models aligned.
proof fn lemma_shell_acts_push_any(acts: Seq<ShellAction>, prefix: Seq<ShellActModel>, w: Seq<u8>)
    requires
        acts.len() >= 1,
        shell_acts_model(acts.drop_last()) == prefix,
        acts.last() matches ShellAction::WriteInput(v) && v@ == w,
    ensures
        shell_acts_model(acts) == prefix + seq![ShellActModel::WriteInput(w)],
{
    lemma_shell_acts_append(acts.drop_last(), seq![acts.last()]);
    assert(acts.drop_last() + seq![acts.last()] =~= acts);
    reveal_with_fuel(shell_acts_model, 2);
    assert(seq![acts.last()].drop_first() =~= Seq::<ShellAction>::empty());
    assert(shell_acts_model(seq![acts.last()]) =~= seq![ShellActModel::WriteInput(w)]);
}

/// `shell_acts_model` distributes over concatenation.
pub proof fn lemma_shell_acts_append(a: Seq<ShellAction>, b: Seq<ShellAction>)
    ensures
        shell_acts_model(a + b) == shell_acts_model(a) + shell_acts_model(b),
    decreases a.len(),
{
    if a.len() == 0 {
        assert(a + b == b);
        assert(shell_acts_model(a) + shell_acts_model(b) =~= shell_acts_model(b));
    } else {
        lemma_shell_acts_append(a.drop_first(), b);
        assert((a + b).drop_first() =~= a.drop_first() + b);
        assert((a + b)[0] == a[0]);
        assert(shell_acts_model(a + b) =~= shell_acts_model(a) + shell_acts_model(b));
    }
}

/// Copy a byte vector.
fn copy_input(v: &Vec<u8>) -> (r: Vec<u8>)
    ensures
        r@ == v@,
{
    vstd::slice::slice_to_vec(v.as_slice())
}

/// The sentinel never reaches either consumer: every terminal line and
/// every forwarded line that one step produces is free of the sentinel
/// text.
pub proof fn lemma_sentinel_never_surfaced(st: ShellModel, ev: ShellEvModel)
    ensures
        forall|i: int|
            0 <= i < shell_step(st, ev).1.len() ==> match #[trigger] shell_step(st, ev).1[i] {
                ShellActModel::EmitTerminal(l) => !contains_seq(l, st.sentinel),
                ShellActModel::Forward { ticket: _, line: l } => !contains_seq(l, st.sentinel),
                _ => true,
            },
{
    match ev {
        ShellEvModel::OutputLine(line) => {
            if !st.stopped && !contains_seq(line, st.sentinel) {
                lemma_trim_keeps_absence(line, st.sentinel);
            }
        },
        _ => {},
    }
}

/// Trimming a line cannot introduce an occurrence of the sentinel.
proof fn lemma_trim_keeps_absence(line: Seq<u8>, sentinel: Seq<u8>)
    requires
        !contains_seq(line, sentinel),
    ensures
        !contains_seq(trimmed_end(line), sentinel),
    decreases line.len(),
{
    if line.len() > 0 && is_ws(line.last()) {
        if contains_seq(line.drop_last(), sentinel) {
            let i = choose|i: int|
                0 <= i && i + sentinel.len() <= line.drop_last().len()
                    && #[trigger] line.drop_last().subrange(i, i + sentinel.len()) == sentinel;
            assert(line.subrange(i, i + sentinel.len()) =~= line.drop_last().subrange(
                i,
                i + sentinel.len(),
            ));
            assert(contains_seq(line, sentinel));
        }
        lemma_trim_keeps_absence(line.drop_last(), sentinel);
    }
}

/// Submitting a new command while one is pending abandons the prior
/// correlation: the earlier reply channel is closed unanswered, the new
/// command gets a fresh ticket, and every later output line is
/// forwarded to the new ticket alone.
pub proof fn lemma_second_command_steals_responder(st: ShellModel, cmd: Seq<u8>)
    requires
        shell_wf(st),
        !st.stopped,
        st.responder is Some,
        st.next_ticket < u64::MAX,
    ensures
        ({
            let (st2, acts) = shell_step(
                st,
                ShellEvModel::Request(ShellRequestModel::RunCommand(cmd)),
            );
            &&& acts[0] == ShellActModel::CloseReply { ticket: st.responder->0 }
            &&& st2.responder == Option::Some(st.next_ticket)
            &&& st2.responder->0 != st.responder->0
            &&& shell_wf(st2)
        }),
{
}

} // verus!
