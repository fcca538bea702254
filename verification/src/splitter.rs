//! Routing of streamed assistant text between the ordinary content
//! channel and the reasoning ("thinking") channel.
//!
//! Content text may embed literal `<think>` / `</think>` markers.  The
//! splitter keeps a boolean "inside thinking" state across chunks and
//! routes every byte to exactly one channel; the markers themselves are
//! consumed and never emitted.  A marker may straddle a chunk boundary,
//! so the splitter holds back any trailing bytes that form a proper
//! prefix of the marker it is watching for.

use vstd::prelude::*;

verus! {

/// One routed span of decoded assistant text: ordinary content (`Text`)
/// or reasoning content (`Thought`).
#[derive(Debug, Clone, PartialEq, Eq)]
pub enum Routed {
    Text(Vec<u8>),
    Thought(Vec<u8>),
}

/// Spec-level record of what the splitter did with a stretch of input:
/// spans routed to one of the two channels, and the markers that were
/// consumed without being emitted.
pub enum Piece {
    Said(Seq<u8>),
    Mused(Seq<u8>),
    OpenMark,
    CloseMark,
}

/// The splitter's abstract state: which channel bytes currently belong
/// to, and the held-back bytes that may still grow into a marker.
pub struct SplitState {
    pub inside: bool,
    pub pend: Seq<u8>,
}

/// The marker that switches routing into the thinking channel: `<think>`.
pub open spec fn open_mark() -> Seq<u8> {
    seq![60u8, 116u8, 104u8, 105u8, 110u8, 107u8, 62u8]
}

/// The marker that switches routing back to ordinary content: `</think>`.
pub open spec fn close_mark() -> Seq<u8> {
    seq![60u8, 47u8, 116u8, 104u8, 105u8, 110u8, 107u8, 62u8]
}

/// The marker the splitter watches for in the given state.
pub open spec fn watched_mark(inside: bool) -> Seq<u8> {
    if inside {
        close_mark()
    } else {
        open_mark()
    }
}

pub open spec fn is_prefix_of(p: Seq<u8>, s: Seq<u8>) -> bool {
    p.len() <= s.len() && p == s.subrange(0, p.len() as int)
}

/// A well-formed state holds back only bytes that could still grow into
/// the watched marker.
pub open spec fn split_wf(st: SplitState) -> bool {
    is_prefix_of(st.pend, watched_mark(st.inside))
}

/// The state before any input: outside the thinking channel, nothing
/// held back.
pub open spec fn initial_split_state() -> SplitState {
    SplitState { inside: false, pend: Seq::empty() }
}

/// A span on the channel selected by `inside`.
pub open spec fn visible_piece(inside: bool, bytes: Seq<u8>) -> Piece {
    if inside {
        Piece::Mused(bytes)
    } else {
        Piece::Said(bytes)
    }
}

/// The marker consumed when the channel selected by `inside` ends.
pub open spec fn mark_piece(inside: bool) -> Piece {
    if inside {
        Piece::CloseMark
    } else {
        Piece::OpenMark
    }
}

/// Release bytes from the front of `cand` until what remains is a
/// prefix of the marker `m`.  Returns the released bytes and the kept
/// remainder.
pub open spec fn settle(cand: Seq<u8>, m: Seq<u8>) -> (Seq<u8>, Seq<u8>)
    decreases cand.len(),
{
    if is_prefix_of(cand, m) {
        (Seq::empty(), cand)
    } else if cand.len() == 0 {
        (Seq::empty(), Seq::empty())
    } else {
        let rest = settle(cand.drop_first(), m);
        (seq![cand[0]] + rest.0, rest.1)
    }
}

/// One byte of input: extend the held-back bytes, complete a marker if
/// one is now whole, else release whatever can no longer be part of one.
pub open spec fn split_step(st: SplitState, b: u8) -> (Seq<Piece>, SplitState) {
    let cand = st.pend.push(b);
    let m = watched_mark(st.inside);
    if cand == m {
        (seq![mark_piece(st.inside)], SplitState { inside: !st.inside, pend: Seq::empty() })
    } else {
        let (out, kept) = settle(cand, m);
        if out.len() == 0 {
            (Seq::empty(), SplitState { inside: st.inside, pend: kept })
        } else {
            (
                seq![visible_piece(st.inside, out)],
                SplitState { inside: st.inside, pend: kept },
            )
        }
    }
}

/// Route a whole stretch of input, byte by byte.
pub open spec fn split_run(st: SplitState, s: Seq<u8>) -> (Seq<Piece>, SplitState)
    decreases s.len(),
{
    if s.len() == 0 {
        (Seq::empty(), st)
    } else {
        let first = split_step(st, s[0]);
        let rest = split_run(first.1, s.drop_first());
        (first.0 + rest.0, rest.1)
    }
}

/// At end of stream, held-back bytes were not part of a marker after
/// all: they belong to the current channel.
pub open spec fn flush_pieces(st: SplitState) -> Seq<Piece> {
    if st.pend.len() == 0 {
        Seq::empty()
    } else {
        seq![visible_piece(st.inside, st.pend)]
    }
}

/// The bytes a piece stood for in the input.
pub open spec fn piece_bytes(p: Piece) -> Seq<u8> {
    match p {
        Piece::Said(s) => s,
        Piece::Mused(s) => s,
        Piece::OpenMark => open_mark(),
        Piece::CloseMark => close_mark(),
    }
}

/// The input bytes that a run of pieces stood for, in order.
pub open spec fn rebuilt(ps: Seq<Piece>) -> Seq<u8>
    decreases ps.len(),
{
    if ps.len() == 0 {
        Seq::empty()
    } else {
        piece_bytes(ps[0]) + rebuilt(ps.drop_first())
    }
}

/// All bytes routed to the ordinary content channel, concatenated.
pub open spec fn said_bytes(ps: Seq<Piece>) -> Seq<u8>
    decreases ps.len(),
{
    if ps.len() == 0 {
        Seq::empty()
    } else {
        let head = match ps[0] {
            Piece::Said(s) => s,
            _ => Seq::empty(),
        };
        head + said_bytes(ps.drop_first())
    }
}

/// All bytes routed to the thinking channel, concatenated.
pub open spec fn mused_bytes(ps: Seq<Piece>) -> Seq<u8>
    decreases ps.len(),
{
    if ps.len() == 0 {
        Seq::empty()
    } else {
        let head = match ps[0] {
            Piece::Mused(s) => s,
            _ => Seq::empty(),
        };
        head + mused_bytes(ps.drop_first())
    }
}

/// The released and kept parts of `settle` together make up its input,
/// and the kept part is again a prefix of the marker.
pub proof fn lemma_settle(cand: Seq<u8>, m: Seq<u8>)
    ensures
        settle(cand, m).0 + settle(cand, m).1 == cand,
        is_prefix_of(settle(cand, m).1, m),
    decreases cand.len(),
{
    if is_prefix_of(cand, m) {
        assert(Seq::<u8>::empty() + cand =~= cand);
    } else if cand.len() == 0 {
        assert(cand =~= m.subrange(0, 0));
        assert(false);
    } else {
        let rest = settle(cand.drop_first(), m);
        lemma_settle(cand.drop_first(), m);
        assert((seq![cand[0]] + rest.0) + rest.1 =~= seq![cand[0]] + (rest.0 + rest.1));
        assert(seq![cand[0]] + cand.drop_first() =~= cand);
    }
}

/// One step accounts for exactly the bytes it was given: the pieces it
/// emits plus the bytes it now holds back are the old held-back bytes
/// plus the new byte.
pub proof fn lemma_step_rebuild(st: SplitState, b: u8)
    ensures
        rebuilt(split_step(st, b).0) + split_step(st, b).1.pend == st.pend.push(b),
{
    let cand = st.pend.push(b);
    let m = watched_mark(st.inside);
    if cand == m {
        let ps = split_step(st, b).0;
        assert(rebuilt(ps) == piece_bytes(ps[0]) + rebuilt(ps.drop_first()));
        assert(rebuilt(ps.drop_first()) == Seq::<u8>::empty());
        assert(rebuilt(ps) + split_step(st, b).1.pend == cand);
    } else {
        lemma_settle(cand, m);
        let (out, kept) = settle(cand, m);
        if out.len() == 0 {
            assert(rebuilt(split_step(st, b).0) + kept == cand);
        } else {
            let ps = split_step(st, b).0;
            assert(rebuilt(ps.drop_first()) == Seq::<u8>::empty());
            assert(piece_bytes(ps[0]) == out);
            assert(rebuilt(ps) == out + Seq::<u8>::empty());
            assert(rebuilt(ps) + kept == cand);
        }
    }
}

/// `rebuilt` distributes over concatenation of piece runs.
pub proof fn lemma_rebuilt_append(a: Seq<Piece>, b: Seq<Piece>)
    ensures
        rebuilt(a + b) == rebuilt(a) + rebuilt(b),
    decreases a.len(),
{
    if a.len() == 0 {
        assert(a + b == b);
        assert(rebuilt(a) + rebuilt(b) == rebuilt(b));
    } else {
        lemma_rebuilt_append(a.drop_first(), b);
        assert((a + b).drop_first() == a.drop_first() + b);
        assert(rebuilt(a + b) == piece_bytes(a[0]) + (rebuilt(a.drop_first()) + rebuilt(b)));
        assert(rebuilt(a + b) == rebuilt(a) + rebuilt(b));
    }
}

/// `said_bytes` distributes over concatenation of piece runs.
pub proof fn lemma_said_append(a: Seq<Piece>, b: Seq<Piece>)
    ensures
        said_bytes(a + b) == said_bytes(a) + said_bytes(b),
    decreases a.len(),
{
    if a.len() == 0 {
        assert(a + b == b);
        assert(said_bytes(a) + said_bytes(b) == said_bytes(b));
    } else {
        lemma_said_append(a.drop_first(), b);
        assert((a + b).drop_first() == a.drop_first() + b);
        let head = match a[0] {
            Piece::Said(s) => s,
            _ => Seq::<u8>::empty(),
        };
        assert(said_bytes(a + b) == head + (said_bytes(a.drop_first()) + said_bytes(b)));
        assert(said_bytes(a + b) == said_bytes(a) + said_bytes(b));
    }
}

/// `mused_bytes` distributes over concatenation of piece runs.
pub proof fn lemma_mused_append(a: Seq<Piece>, b: Seq<Piece>)
    ensures
        mused_bytes(a + b) == mused_bytes(a) + mused_bytes(b),
    decreases a.len(),
{
    if a.len() == 0 {
        assert(a + b == b);
        assert(mused_bytes(a) + mused_bytes(b) == mused_bytes(b));
    } else {
        lemma_mused_append(a.drop_first(), b);
        assert((a + b).drop_first() == a.drop_first() + b);
        let head = match a[0] {
            Piece::Mused(s) => s,
            _ => Seq::<u8>::empty(),
        };
        assert(mused_bytes(a + b) == head + (mused_bytes(a.drop_first()) + mused_bytes(b)));
        assert(mused_bytes(a + b) == mused_bytes(a) + mused_bytes(b));
    }
}

/// A whole run accounts for exactly the bytes it was given.
pub proof fn lemma_run_rebuild(st: SplitState, s: Seq<u8>)
    ensures
        rebuilt(split_run(st, s).0) + split_run(st, s).1.pend == st.pend + s,
    decreases s.len(),
{
    if s.len() == 0 {
        assert(Seq::<u8>::empty() + st.pend =~= st.pend + s);
    } else {
        let first = split_step(st, s[0]);
        let rest = split_run(first.1, s.drop_first());
        lemma_step_rebuild(st, s[0]);
        lemma_run_rebuild(first.1, s.drop_first());
        lemma_rebuilt_append(first.0, rest.0);
        assert((rebuilt(first.0) + rebuilt(rest.0)) + rest.1.pend
            =~= rebuilt(first.0) + (rebuilt(rest.0) + rest.1.pend));
        assert(rebuilt(first.0) + (first.1.pend + s.drop_first())
            =~= (rebuilt(first.0) + first.1.pend) + s.drop_first());
        assert(st.pend.push(s[0]) + s.drop_first() =~= st.pend + s);
    }
}

/// Feeding input in two parts is the same as feeding it whole: the
/// splitter's state is resumable across chunk boundaries.
pub proof fn lemma_run_append(st: SplitState, a: Seq<u8>, b: Seq<u8>)
    ensures
        split_run(st, a + b).0 == split_run(st, a).0 + split_run(split_run(st, a).1, b).0,
        split_run(st, a + b).1 == split_run(split_run(st, a).1, b).1,
    decreases a.len(),
{
    if a.len() == 0 {
        assert(a + b == b);
        assert(split_run(st, a).0 + split_run(split_run(st, a).1, b).0 == split_run(st, b).0);
    } else {
        let first = split_step(st, a[0]);
        lemma_run_append(first.1, a.drop_first(), b);
        assert((a + b).drop_first() == a.drop_first() + b);
        assert((a + b)[0] == a[0]);
        assert(split_run(st, a + b).0 == first.0 + (split_run(first.1, a.drop_first()).0
            + split_run(split_run(first.1, a.drop_first()).1, b).0));
        assert(split_run(st, a + b).0 == split_run(st, a).0 + split_run(split_run(st, a).1, b).0);
    }
}

/// The piece a routed span stands for.
pub open spec fn routed_piece(r: Routed) -> Piece {
    match r {
        Routed::Text(v) => Piece::Said(v@),
        Routed::Thought(v) => Piece::Mused(v@),
    }
}

/// The pieces a run of routed spans stands for, in order.
pub open spec fn routed_pieces(rs: Seq<Routed>) -> Seq<Piece>
    decreases rs.len(),
{
    if rs.len() == 0 {
        Seq::empty()
    } else {
        seq![routed_piece(rs[0])] + routed_pieces(rs.drop_first())
    }
}

/// `routed_pieces` distributes over appending one span.
pub proof fn lemma_routed_pieces_push(rs: Seq<Routed>, r: Routed)
    ensures
        routed_pieces(rs.push(r)) == routed_pieces(rs).push(routed_piece(r)),
    decreases rs.len(),
{
    if rs.len() == 0 {
        reveal_with_fuel(routed_pieces, 2);
        assert(rs.push(r).drop_first() =~= Seq::<Routed>::empty());
        assert(rs.push(r)[0] == r);
        assert(seq![routed_piece(r)] + Seq::<Piece>::empty() =~= seq![routed_piece(r)]);
        assert(Seq::<Piece>::empty().push(routed_piece(r)) =~= seq![routed_piece(r)]);
        assert(routed_pieces(rs) =~= Seq::<Piece>::empty());
    } else {
        lemma_routed_pieces_push(rs.drop_first(), r);
        assert(rs.push(r).drop_first() =~= rs.drop_first().push(r));
        assert(rs.push(r)[0] == rs[0]);
        assert(seq![routed_piece(rs[0])] + routed_pieces(rs.drop_first()).push(routed_piece(r))
            =~= (seq![routed_piece(rs[0])] + routed_pieces(rs.drop_first())).push(
            routed_piece(r),
        ));
    }
}

/// `said_bytes` of a single piece.
pub proof fn lemma_said_one(p: Piece)
    ensures
        said_bytes(seq![p]) == (match p {
            Piece::Said(s) => s,
            _ => Seq::<u8>::empty(),
        }),
{
    reveal_with_fuel(said_bytes, 2);
    assert(seq![p].drop_first() =~= Seq::<Piece>::empty());
    assert(seq![p][0] == p);
    let head = match p {
        Piece::Said(s) => s,
        _ => Seq::<u8>::empty(),
    };
    assert(head + Seq::<u8>::empty() =~= head);
}

/// `mused_bytes` of a single piece.
pub proof fn lemma_mused_one(p: Piece)
    ensures
        mused_bytes(seq![p]) == (match p {
            Piece::Mused(s) => s,
            _ => Seq::<u8>::empty(),
        }),
{
    reveal_with_fuel(mused_bytes, 2);
    assert(seq![p].drop_first() =~= Seq::<Piece>::empty());
    assert(seq![p][0] == p);
    let head = match p {
        Piece::Mused(s) => s,
        _ => Seq::<u8>::empty(),
    };
    assert(head + Seq::<u8>::empty() =~= head);
}

/// Routing a single byte is one step.
pub proof fn lemma_run_one(st: SplitState, b: u8)
    ensures
        split_run(st, seq![b]) == split_step(st, b),
{
    reveal_with_fuel(split_run, 2);
    assert(seq![b].drop_first() =~= Seq::<u8>::empty());
    assert(seq![b][0] == b);
    assert(split_step(st, b).0 + Seq::<Piece>::empty() =~= split_step(st, b).0);
}

/// No byte of content is dropped or duplicated: routing a stream from
/// the initial state and flushing at the end yields pieces — content
/// spans, thinking spans and the consumed markers — that together spell
/// the original input exactly.
pub proof fn lemma_no_byte_lost(s: Seq<u8>)
    ensures
        ({
            let r = split_run(initial_split_state(), s);
            rebuilt(r.0 + flush_pieces(r.1)) == s
        }),
{
    let r = split_run(initial_split_state(), s);
    lemma_run_rebuild(initial_split_state(), s);
    lemma_rebuilt_append(r.0, flush_pieces(r.1));
    if r.1.pend.len() == 0 {
        assert(rebuilt(flush_pieces(r.1)) == Seq::<u8>::empty());
        assert(rebuilt(r.0) + r.1.pend == rebuilt(r.0));
    } else {
        let fp = flush_pieces(r.1);
        assert(rebuilt(fp) == piece_bytes(fp[0]) + rebuilt(fp.drop_first()));
        assert(rebuilt(fp.drop_first()) == Seq::<u8>::empty());
        assert(rebuilt(fp) == r.1.pend);
    }
    assert(Seq::<u8>::empty() + s == s);
}

/// The open marker as bytes: `<think>`.
pub fn open_mark_vec() -> (v: Vec<u8>)
    ensures
        v@ == open_mark(),
{
    let mut v: Vec<u8> = Vec::new();
    v.push(60);
    v.push(116);
    v.push(104);
    v.push(105);
    v.push(110);
    v.push(107);
    v.push(62);
    assert(v@ =~= open_mark());
    v
}

/// The close marker as bytes: `</think>`.
pub fn close_mark_vec() -> (v: Vec<u8>)
    ensures
        v@ == close_mark(),
{
    let mut v: Vec<u8> = Vec::new();
    v.push(60);
    v.push(47);
    v.push(116);
    v.push(104);
    v.push(105);
    v.push(110);
    v.push(107);
    v.push(62);
    assert(v@ =~= close_mark());
    v
}

/// Whether `p` is a prefix of `s`.
pub fn is_prefix_vec(p: &Vec<u8>, s: &Vec<u8>) -> (r: bool)
    ensures
        r == is_prefix_of(p@, s@),
{
    if p.len() > s.len() {
        return false;
    }
    let mut i: usize = 0;
    while i < p.len()
        invariant
            0 <= i <= p@.len(),
            p@.len() <= s@.len(),
            forall|j: int| 0 <= j < i ==> p@[j] == s@[j],
        decreases p@.len() - i,
    {
        if p[i] != s[i] {
            assert(p@ != s@.subrange(0, p@.len() as int));
            return false;
        }
        i = i + 1;
    }
    assert(p@ =~= s@.subrange(0, p@.len() as int));
    true
}

/// Whether two byte vectors hold the same bytes.
pub fn bytes_eq(a: &Vec<u8>, b: &Vec<u8>) -> (r: bool)
    ensures
        r == (a@ == b@),
{
    if a.len() != b.len() {
        return false;
    }
    let mut i: usize = 0;
    while i < a.len()
        invariant
            0 <= i <= a@.len(),
            a@.len() == b@.len(),
            forall|j: int| 0 <= j < i ==> a@[j] == b@[j],
        decreases a@.len() - i,
    {
        if a[i] != b[i] {
            return false;
        }
        i = i + 1;
    }
    assert(a@ =~= b@);
    true
}

/// The routed span for a channel and its bytes.
fn make_routed(inside: bool, bytes: Vec<u8>) -> (r: Routed)
    ensures
        routed_piece(r) == visible_piece(inside, bytes@),
{
    if inside {
        Routed::Thought(bytes)
    } else {
        Routed::Text(bytes)
    }
}

/// The splitter: routes streamed content bytes between the ordinary and
/// the thinking channel, consuming the `<think>` / `</think>` markers.
/// Its state survives across chunks, so a marker split over two chunks
/// is still recognised.
pub struct Splitter {
    inside: bool,
    pend: Vec<u8>,
}

impl View for Splitter {
    type V = SplitState;

    closed spec fn view(&self) -> SplitState {
        SplitState { inside: self.inside, pend: self.pend@ }
    }
}

impl Splitter {
    /// A fresh splitter: outside the thinking channel, nothing held back.
    pub fn new() -> (s: Splitter)
        ensures
            s@ == initial_split_state(),
            split_wf(s@),
    {
        let s = Splitter { inside: false, pend: Vec::new() };
        assert(s@.pend =~= initial_split_state().pend);
        assert(s@ =~= initial_split_state());
        assert(s@.pend =~= open_mark().subrange(0, 0));
        s
    }

    /// Which channel bytes currently belong to: true while inside the
    /// thinking channel.
    pub fn channel(&self) -> (c: bool)
        ensures
            c == self@.inside,
    {
        self.inside
    }

    /// Route one byte.  Returns the bytes released to the channel that
    /// was current when the byte arrived; a completed marker releases
    /// nothing and flips the channel.
    #[verifier::loop_isolation(false)]
    fn step_byte(&mut self, b: u8, open_m: &Vec<u8>, close_m: &Vec<u8>) -> (released: Vec<u8>)
        requires
            split_wf(old(self)@),
            open_m@ == open_mark(),
            close_m@ == close_mark(),
        ensures
            final(self)@ == split_step(old(self)@, b).1,
            split_wf(final(self)@),
            said_bytes(split_step(old(self)@, b).0) == (if !old(self)@.inside {
                released@
            } else {
                Seq::<u8>::empty()
            }),
            mused_bytes(split_step(old(self)@, b).0) == (if old(self)@.inside {
                released@
            } else {
                Seq::<u8>::empty()
            }),
            visible(split_step(old(self)@, b).0) == (if released@.len() == 0 {
                Seq::<Piece>::empty()
            } else {
                seq![visible_piece(old(self)@.inside, released@)]
            }),
    {
        let ghost st_pre = self@;
        self.pend.push(b);
        let ghost cand = st_pre.pend.push(b);
        let m = if self.inside {
            close_m
        } else {
            open_m
        };
        assert(m@ == watched_mark(st_pre.inside));
        if bytes_eq(&self.pend, m) {
            // a whole marker: flip the channel, release nothing
            assert(cand == watched_mark(st_pre.inside));
            self.inside = !self.inside;
            self.pend.clear();
            proof {
                let p = mark_piece(st_pre.inside);
                lemma_said_one(p);
                lemma_mused_one(p);
                lemma_visible_one(p);
                assert(self@.pend =~= watched_mark(self@.inside).subrange(0, 0));
                assert(split_step(st_pre, b).1 == SplitState {
                    inside: !st_pre.inside,
                    pend: Seq::<u8>::empty(),
                });
                assert(self@ == SplitState { inside: !st_pre.inside, pend: Seq::<u8>::empty() });
            }
            Vec::new()
        } else {
            // release bytes that can no longer be part of a marker
            let mut released: Vec<u8> = Vec::new();
            proof {
                assert(Seq::<u8>::empty() + settle(self.pend@, m@).0 =~= settle(
                    self.pend@,
                    m@,
                ).0);
            }
            while !is_prefix_vec(&self.pend, m)
                invariant
                    self@.inside == st_pre.inside,
                    m@ == watched_mark(st_pre.inside),
                    released@ + settle(self.pend@, m@).0 == settle(cand, m@).0,
                    settle(self.pend@, m@).1 == settle(cand, m@).1,
                decreases self.pend@.len(),
            {
                proof {
                    if self.pend@.len() == 0 {
                        assert(self.pend@ =~= m@.subrange(0, 0));
                    }
                    assert(released@.push(self.pend@[0]) + settle(
                        self.pend@.drop_first(),
                        m@,
                    ).0 =~= released@ + (seq![self.pend@[0]] + settle(
                        self.pend@.drop_first(),
                        m@,
                    ).0));
                    assert(self.pend@.remove(0) =~= self.pend@.drop_first());
                }
                let b0 = self.pend.remove(0);
                released.push(b0);
            }
            proof {
                assert(settle(self.pend@, m@).0 =~= Seq::<u8>::empty());
                assert(released@ + Seq::<u8>::empty() =~= released@);
                assert(released@ == settle(cand, m@).0);
                assert(self.pend@ == settle(cand, m@).1);
                lemma_settle(cand, m@);
                let p = visible_piece(st_pre.inside, released@);
                lemma_said_one(p);
                lemma_mused_one(p);
                lemma_visible_one(p);
                if released@.len() == 0 {
                    assert(split_step(st_pre, b).0 =~= Seq::<Piece>::empty());
                }
            }
            released
        }
    }

    /// Route one chunk of content bytes.  The returned spans are
    /// exactly the visible spans of the abstract routing of this chunk,
    /// in order: markers dropped, adjacent same-channel spans merged,
    /// no empty span.  The splitter ends in the state the abstract
    /// routing ends in.
    #[verifier::loop_isolation(false)]
    pub fn feed(&mut self, chunk: &Vec<u8>) -> (out: Vec<Routed>)
        requires
            split_wf(old(self)@),
        ensures
            final(self)@ == split_run(old(self)@, chunk@).1,
            split_wf(final(self)@),
            routed_pieces(out@) == spans_of(split_run(old(self)@, chunk@).0),
            said_bytes(routed_pieces(out@)) == said_bytes(split_run(old(self)@, chunk@).0),
            mused_bytes(routed_pieces(out@)) == mused_bytes(split_run(old(self)@, chunk@).0),
    {
        let ghost st0 = self@;
        let open_m = open_mark_vec();
        let close_m = close_mark_vec();
        let mut out: Vec<Routed> = Vec::new();
        let mut cur: Vec<u8> = Vec::new();
        let mut cur_inside: bool = false;
        let mut i: usize = 0;
        proof {
            assert(chunk@.take(0) =~= Seq::<u8>::empty());
        }
        while i < chunk.len()
            invariant
                0 <= i <= chunk@.len(),
                self@ == split_run(st0, chunk@.take(i as int)).1,
                split_wf(self@),
                said_bytes(routed_pieces(out@)) + (if !cur_inside {
                    cur@
                } else {
                    Seq::<u8>::empty()
                }) == said_bytes(split_run(st0, chunk@.take(i as int)).0),
                mused_bytes(routed_pieces(out@)) + (if cur_inside {
                    cur@
                } else {
                    Seq::<u8>::empty()
                }) == mused_bytes(split_run(st0, chunk@.take(i as int)).0),
                cur@.len() == 0 ==> out@.len() == 0,
                cur@.len() == 0 ==> spans_of(split_run(st0, chunk@.take(i as int)).0) == Seq::<
                    Piece,
                >::empty(),
                cur@.len() > 0 ==> routed_pieces(out@).push(visible_piece(cur_inside, cur@))
                    == spans_of(split_run(st0, chunk@.take(i as int)).0),
            decreases chunk@.len() - i,
        {
            let ghost st_pre = self@;
            let ghost run_pre = split_run(st0, chunk@.take(i as int));
            let b = chunk[i];
            proof {
                assert(chunk@.take(i + 1) =~= chunk@.take(i as int) + seq![b]);
                lemma_run_append(st0, chunk@.take(i as int), seq![b]);
                lemma_run_one(st_pre, b);
                lemma_said_append(run_pre.0, split_step(st_pre, b).0);
                lemma_mused_append(run_pre.0, split_step(st_pre, b).0);
                lemma_visible_append(run_pre.0, split_step(st_pre, b).0);
            }
            let ch = self.channel();
            let released = self.step_byte(b, &open_m, &close_m);
            let ghost vp = visible(run_pre.0);
            let ghost vp2 = visible(split_run(st0, chunk@.take(i + 1)).0);
            if released.len() > 0 {
                let ghost p = visible_piece(ch, released@);
                let ghost ci_pre = cur_inside;
                let ghost cur_pre = cur@;
                proof {
                    assert(vp2 =~= vp.push(p));
                    lemma_coalesce_snoc(vp, p);
                    if cur_pre.len() == 0 {
                        if vp.len() > 0 {
                            lemma_coalesce_ends(vp);
                        }
                        assert(vp.len() == 0);
                    } else {
                        if vp.len() == 0 {
                            assert(coalesce(vp) =~= Seq::<Piece>::empty());
                        }
                        assert(vp.len() > 0);
                        lemma_coalesce_ends(vp);
                        assert(coalesce(vp).last() == visible_piece(ci_pre, cur_pre));
                    }
                }
                if cur.len() > 0 && cur_inside != ch {
                    let done = cur;
                    cur = Vec::new();
                    let ghost out_pre = out@;
                    let frag = make_routed(cur_inside, done);
                    out.push(frag);
                    proof {
                        lemma_routed_pieces_push(out_pre, frag);
                        lemma_said_append(routed_pieces(out_pre), seq![routed_piece(frag)]);
                        lemma_mused_append(routed_pieces(out_pre), seq![routed_piece(frag)]);
                        lemma_said_one(routed_piece(frag));
                        lemma_mused_one(routed_piece(frag));
                        assert(routed_pieces(out_pre).push(routed_piece(frag))
                            =~= routed_pieces(out_pre) + seq![routed_piece(frag)]);
                    }
                }
                cur_inside = ch;
                let mut rel = released;
                cur.append(&mut rel);
                proof {
                    if cur_pre.len() == 0 {
                        // a first span starts the run
                        assert(cur@ =~= released@);
                        assert(routed_pieces(out@) =~= Seq::<Piece>::empty());
                        assert(routed_pieces(out@).push(visible_piece(cur_inside, cur@))
                            =~= seq![p]);
                        assert(spans_of(split_run(st0, chunk@.take(i + 1)).0) == coalesce(
                            vp.push(p),
                        ));
                    } else if ci_pre == ch {
                        // a same-channel span joins the open one
                        assert(cur@ =~= cur_pre + released@);
                        let cp = visible_piece(ci_pre, cur_pre);
                        assert(joined(cp, p) == visible_piece(cur_inside, cur@)) by {
                            if ch {
                                assert(cur_pre + released@ =~= cur@);
                            } else {
                                assert(cur_pre + released@ =~= cur@);
                            }
                        }
                        assert(coalesce(vp).update(
                            coalesce(vp).len() - 1,
                            joined(cp, p),
                        ) =~= routed_pieces(out@).push(joined(cp, p)));
                        assert(routed_pieces(out@).push(visible_piece(cur_inside, cur@))
                            == coalesce(vp.push(p)));
                    } else {
                        // a channel switch closes the open span
                        assert(cur@ =~= released@);
                        assert(routed_pieces(out@) == coalesce(vp));
                        assert(coalesce(vp.push(p)) == coalesce(vp).push(p));
                        assert(routed_pieces(out@).push(visible_piece(cur_inside, cur@))
                            == coalesce(vp.push(p)));
                    }
                }
            } else {
                proof {
                    assert(vp2 =~= vp);
                }
            }
            proof {
                assert(said_bytes(routed_pieces(out@)) + (if !cur_inside {
                    cur@
                } else {
                    Seq::<u8>::empty()
                }) =~= said_bytes(split_run(st0, chunk@.take(i + 1)).0));
                assert(mused_bytes(routed_pieces(out@)) + (if cur_inside {
                    cur@
                } else {
                    Seq::<u8>::empty()
                }) =~= mused_bytes(split_run(st0, chunk@.take(i + 1)).0));
            }
            i = i + 1;
        }
        proof {
            assert(chunk@.take(chunk@.len() as int) =~= chunk@);
        }
        if cur.len() > 0 {
            let ghost out_pre = out@;
            let frag = make_routed(cur_inside, cur);
            out.push(frag);
            proof {
                lemma_routed_pieces_push(out_pre, frag);
                lemma_said_append(routed_pieces(out_pre), seq![routed_piece(frag)]);
                lemma_mused_append(routed_pieces(out_pre), seq![routed_piece(frag)]);
                lemma_said_one(routed_piece(frag));
                lemma_mused_one(routed_piece(frag));
                assert(routed_pieces(out_pre).push(routed_piece(frag)) =~= routed_pieces(out_pre)
                    + seq![routed_piece(frag)]);
            }
        } else {
            proof {
                assert(routed_pieces(out@) =~= Seq::<Piece>::empty());
            }
        }
        out
    }


    /// End of stream: bytes still held back were not part of a marker
    /// after all, so they belong to the current channel.
    pub fn finish(&mut self) -> (out: Option<Routed>)
        ensures
            final(self)@.inside == old(self)@.inside,
            final(self)@.pend == Seq::<u8>::empty(),
            split_wf(final(self)@),
            match out {
                Some(r) => flush_pieces(old(self)@) == seq![routed_piece(r)],
                None => flush_pieces(old(self)@) == Seq::<Piece>::empty(),
            },
    {
        proof {
            assert(Seq::<u8>::empty() =~= watched_mark(self@.inside).subrange(0, 0));
        }
        if self.pend.len() > 0 {
            let mut held: Vec<u8> = Vec::new();
            std::mem::swap(&mut held, &mut self.pend);
            let frag = make_routed(self.inside, held);
            Some(frag)
        } else {
            assert(self.pend@ =~= Seq::<u8>::empty());
            None
        }
    }
}


/// The channel a piece belongs to, with markers kept apart.
pub open spec fn chan(p: Piece) -> int {
    match p {
        Piece::Said(_) => 0,
        Piece::Mused(_) => 1,
        Piece::OpenMark => 2,
        Piece::CloseMark => 3,
    }
}

/// Whether two pieces are spans of the same channel.
pub open spec fn same_channel(p: Piece, q: Piece) -> bool {
    chan(p) == chan(q) && (chan(p) == 0 || chan(p) == 1)
}

/// Two same-channel spans joined into one.
pub open spec fn joined(p: Piece, q: Piece) -> Piece {
    match (p, q) {
        (Piece::Said(a), Piece::Said(b)) => Piece::Said(a + b),
        (Piece::Mused(a), Piece::Mused(b)) => Piece::Mused(a + b),
        _ => p,
    }
}

/// The spans one piece contributes once markers and empty spans are
/// dropped.
pub open spec fn visible_of(p: Piece) -> Seq<Piece> {
    match p {
        Piece::Said(s) => if s.len() == 0 {
            Seq::empty()
        } else {
            seq![Piece::Said(s)]
        },
        Piece::Mused(s) => if s.len() == 0 {
            Seq::empty()
        } else {
            seq![Piece::Mused(s)]
        },
        Piece::OpenMark => Seq::empty(),
        Piece::CloseMark => Seq::empty(),
    }
}

/// The pieces with markers and empty spans dropped, in order.
pub open spec fn visible(ps: Seq<Piece>) -> Seq<Piece>
    decreases ps.len(),
{
    if ps.len() == 0 {
        Seq::empty()
    } else {
        visible_of(ps[0]) + visible(ps.drop_first())
    }
}

/// Adjacent same-channel spans merged into one.
pub open spec fn coalesce(ps: Seq<Piece>) -> Seq<Piece>
    decreases ps.len(),
{
    if ps.len() == 0 {
        Seq::empty()
    } else {
        let rest = coalesce(ps.drop_first());
        if rest.len() > 0 && same_channel(ps[0], rest[0]) {
            seq![joined(ps[0], rest[0])] + rest.drop_first()
        } else {
            seq![ps[0]] + rest
        }
    }
}

/// The canonical output of a routing: its visible spans, in order,
/// each maximal — no marker, no empty span, no two adjacent spans of
/// one channel.
pub open spec fn spans_of(ps: Seq<Piece>) -> Seq<Piece> {
    coalesce(visible(ps))
}

/// `visible` distributes over concatenation.
pub proof fn lemma_visible_append(a: Seq<Piece>, b: Seq<Piece>)
    ensures
        visible(a + b) == visible(a) + visible(b),
    decreases a.len(),
{
    if a.len() == 0 {
        assert(a + b == b);
        assert(visible(a) + visible(b) =~= visible(b));
    } else {
        lemma_visible_append(a.drop_first(), b);
        assert((a + b).drop_first() =~= a.drop_first() + b);
        assert((a + b)[0] == a[0]);
        assert(visible(a + b) =~= visible(a) + visible(b));
    }
}

/// `visible` of a single piece.
pub proof fn lemma_visible_one(p: Piece)
    ensures
        visible(seq![p]) == visible_of(p),
{
    reveal_with_fuel(visible, 2);
    assert(seq![p].drop_first() =~= Seq::<Piece>::empty());
    assert(seq![p][0] == p);
    assert(visible_of(p) + Seq::<Piece>::empty() =~= visible_of(p));
}

/// Coalescing keeps a run's first and last channels and never empties
/// a nonempty run.
pub proof fn lemma_coalesce_ends(qs: Seq<Piece>)
    requires
        qs.len() > 0,
    ensures
        coalesce(qs).len() > 0,
        chan(coalesce(qs)[0]) == chan(qs[0]),
        chan(coalesce(qs).last()) == chan(qs.last()),
    decreases qs.len(),
{
    reveal_with_fuel(coalesce, 2);
    if qs.len() == 1 {
        assert(qs.drop_first() =~= Seq::<Piece>::empty());
    } else {
        lemma_coalesce_ends(qs.drop_first());
        let rest = coalesce(qs.drop_first());
        if rest.len() > 0 && same_channel(qs[0], rest[0]) {
            if rest.len() == 1 {
                assert(coalesce(qs).last() == joined(qs[0], rest[0]));
                assert(chan(joined(qs[0], rest[0])) == chan(qs[0]));
            } else {
                assert(coalesce(qs).last() == rest.drop_first().last());
                assert(rest.drop_first().last() == rest.last());
            }
        } else {
            assert(coalesce(qs).last() == rest.last());
        }
        assert(qs.drop_first().last() == qs.last());
    }
}

/// How one more span changes a coalesced run: a first span starts the
/// run, a same-channel span joins the last one, any other span is
/// appended.
#[verifier::rlimit(100)]
pub proof fn lemma_coalesce_snoc(qs: Seq<Piece>, p: Piece)
    requires
        chan(p) == 0 || chan(p) == 1,
    ensures
        qs.len() == 0 ==> coalesce(qs.push(p)) == seq![p],
        qs.len() > 0 && same_channel(qs.last(), p) ==> coalesce(qs.push(p)) == coalesce(
            qs,
        ).update(coalesce(qs).len() - 1, joined(coalesce(qs).last(), p)),
        qs.len() > 0 && !same_channel(qs.last(), p) ==> coalesce(qs.push(p)) == coalesce(
            qs,
        ).push(p),
    decreases qs.len(),
{
    reveal_with_fuel(coalesce, 3);
    if qs.len() == 0 {
        assert(qs.push(p).drop_first() =~= Seq::<Piece>::empty());
        assert(qs.push(p)[0] == p);
        assert(coalesce(qs.push(p)) =~= seq![p]);
    } else if qs.len() == 1 {
        assert(qs.push(p).drop_first() =~= seq![p]);
        assert(seq![p].drop_first() =~= Seq::<Piece>::empty());
        assert(coalesce(seq![p]) =~= seq![p]);
        assert(qs.push(p)[0] == qs[0]);
        assert(qs.drop_first() =~= Seq::<Piece>::empty());
        assert(coalesce(qs) =~= seq![qs[0]]);
        if same_channel(qs[0], p) {
            assert(coalesce(qs.push(p)) =~= seq![joined(qs[0], p)]);
            assert(coalesce(qs).update(0, joined(qs[0], p)) =~= seq![joined(qs[0], p)]);
        } else {
            assert(coalesce(qs.push(p)) =~= seq![qs[0], p]);
            assert(coalesce(qs).push(p) =~= seq![qs[0], p]);
        }
    } else {
        let tail = qs.drop_first();
        assert(qs.push(p).drop_first() =~= tail.push(p));
        assert(qs.push(p)[0] == qs[0]);
        assert(tail.last() == qs.last());
        lemma_coalesce_snoc(tail, p);
        lemma_coalesce_ends(tail);
        lemma_coalesce_ends(tail.push(p));
        let rest = coalesce(tail);
        let rest2 = coalesce(tail.push(p));
        assert(tail.push(p)[0] == tail[0]);
        assert(chan(rest2[0]) == chan(rest[0]));
        if same_channel(qs.last(), p) {
            assert(rest2 == rest.update(rest.len() - 1, joined(rest.last(), p)));
            assert(rest2[0] == (if rest.len() == 1 {
                joined(rest.last(), p)
            } else {
                rest[0]
            }));
            if rest.len() > 0 && same_channel(qs[0], rest[0]) {
                // the head still joins; the update stays behind it
                if rest.len() == 1 {
                    assert(coalesce(qs) =~= seq![joined(qs[0], rest[0])]);
                    assert(rest2 =~= seq![joined(rest[0], p)]);
                    assert(coalesce(qs.push(p)) =~= seq![joined(qs[0], joined(rest[0], p))]);
                    assert(joined(qs[0], joined(rest[0], p)) == joined(
                        joined(qs[0], rest[0]),
                        p,
                    )) by {
                        match (qs[0], rest[0], p) {
                            (Piece::Said(a), Piece::Said(b), Piece::Said(c)) => {
                                assert(a + (b + c) =~= (a + b) + c);
                            },
                            (Piece::Mused(a), Piece::Mused(b), Piece::Mused(c)) => {
                                assert(a + (b + c) =~= (a + b) + c);
                            },
                            _ => {},
                        }
                    }
                    assert(coalesce(qs).update(0, joined(coalesce(qs).last(), p)) =~= seq![
                        joined(joined(qs[0], rest[0]), p),
                    ]);
                } else {
                    assert(rest2.drop_first() =~= rest.drop_first().update(
                        rest.len() - 2,
                        joined(rest.last(), p),
                    ));
                    assert(coalesce(qs) =~= seq![joined(qs[0], rest[0])] + rest.drop_first());
                    assert(coalesce(qs).last() == rest.last());
                    assert(coalesce(qs.push(p)) =~= coalesce(qs).update(
                        coalesce(qs).len() - 1,
                        joined(coalesce(qs).last(), p),
                    ));
                }
            } else {
                assert(coalesce(qs) =~= seq![qs[0]] + rest);
                assert(coalesce(qs).last() == rest.last());
                assert(coalesce(qs.push(p)) =~= seq![qs[0]] + rest2);
                assert(coalesce(qs.push(p)) =~= coalesce(qs).update(
                    coalesce(qs).len() - 1,
                    joined(coalesce(qs).last(), p),
                ));
            }
        } else {
            assert(rest2 == rest.push(p));
            assert(rest2[0] == rest[0]);
            if rest.len() > 0 && same_channel(qs[0], rest[0]) {
                assert(rest2.drop_first() =~= rest.drop_first().push(p));
                assert(coalesce(qs) =~= seq![joined(qs[0], rest[0])] + rest.drop_first());
                assert(coalesce(qs.push(p)) =~= coalesce(qs).push(p));
            } else {
                assert(coalesce(qs) =~= seq![qs[0]] + rest);
                assert(coalesce(qs.push(p)) =~= coalesce(qs).push(p));
            }
        }
    }
}


} // verus!
