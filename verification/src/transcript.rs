//! The conversation transcript: role-tagged messages, appended in order
//! within a turn.  Streamed fragments of the same role merge into the
//! last message; everything else starts a new one.  The transcript is
//! order-preserving and lossless, so a saved and reloaded session shows
//! the same conversation.

use vstd::prelude::*;
use vstd::string::StringExecFns;

verus! {

/// The role a message is tagged with.
#[derive(Debug, Clone, Copy, PartialEq, Eq, Structural)]
pub enum MessageRole {
    User,
    Assistant,
    System,
    Error,
    Thinking,
}

/// One message of the conversation.  `collapsed` is presentation state:
/// whether a thinking block is folded away.
#[derive(Debug, Clone)]
pub struct ChatMessage {
    pub role: MessageRole,
    pub content: String,
    pub collapsed: bool,
}

/// The (role, content) pair a message carries.
pub open spec fn msg_pair(m: ChatMessage) -> (MessageRole, Seq<char>) {
    (m.role, m.content@)
}

/// The ordered (role, content) pairs of a transcript.
pub open spec fn pairs_of(ms: Seq<ChatMessage>) -> Seq<(MessageRole, Seq<char>)>
    decreases ms.len(),
{
    if ms.len() == 0 {
        Seq::empty()
    } else {
        seq![msg_pair(ms[0])] + pairs_of(ms.drop_first())
    }
}

/// One more message extends the pairs at the end.
pub proof fn lemma_pairs_push(ms: Seq<ChatMessage>, m: ChatMessage)
    ensures
        pairs_of(ms.push(m)) == pairs_of(ms).push(msg_pair(m)),
    decreases ms.len(),
{
    reveal_with_fuel(pairs_of, 2);
    if ms.len() == 0 {
        assert(ms.push(m).drop_first() =~= Seq::<ChatMessage>::empty());
        assert(ms.push(m)[0] == m);
        assert(pairs_of(ms.push(m)) =~= pairs_of(ms).push(msg_pair(m)));
    } else {
        lemma_pairs_push(ms.drop_first(), m);
        assert(ms.push(m).drop_first() =~= ms.drop_first().push(m));
        assert(ms.push(m)[0] == ms[0]);
        assert(pairs_of(ms.push(m)) =~= pairs_of(ms).push(msg_pair(m)));
    }
}

/// Whether a streamed fragment of role `new` merges into a trailing
/// message of role `last`: only consecutive assistant fragments and
/// consecutive thinking fragments merge.
pub open spec fn merges_with(last: MessageRole, new: MessageRole) -> bool {
    (last is Assistant && new is Assistant) || (last is Thinking && new is Thinking)
}

/// Append a whole message to the transcript.
pub fn push_message(messages: &mut Vec<ChatMessage>, content: String, role: MessageRole)
    ensures
        final(messages)@.len() == old(messages)@.len() + 1,
        forall|j: int| 0 <= j < old(messages)@.len() ==> final(messages)@[j] == old(
            messages,
        )@[j],
        final(messages)@.last().role == role,
        final(messages)@.last().content@ == content@,
        final(messages)@.last().collapsed == false,
{
    messages.push(ChatMessage { role, content, collapsed: false });
}

/// Fold one streamed fragment into the transcript: extend the last
/// message when the roles merge, else start a new message.  A new
/// thinking message starts out collapsed.
pub fn append_streamed(messages: &mut Vec<ChatMessage>, content: String, role: MessageRole)
    ensures
        ({
            let pre = old(messages)@;
            let post = final(messages)@;
            if pre.len() > 0 && merges_with(pre.last().role, role) {
                &&& post.len() == pre.len()
                &&& forall|j: int| 0 <= j < pre.len() - 1 ==> post[j] == pre[j]
                &&& post.last().role == pre.last().role
                &&& post.last().content@ == pre.last().content@ + content@
                &&& post.last().collapsed == pre.last().collapsed
            } else {
                &&& post.len() == pre.len() + 1
                &&& forall|j: int| 0 <= j < pre.len() ==> post[j] == pre[j]
                &&& post.last().role == role
                &&& post.last().content@ == content@
                &&& post.last().collapsed == (role is Thinking)
            }
        }),
{
    let mut start_new = true;
    if messages.len() > 0 {
        let last = &messages[messages.len() - 1];
        if (last.role == MessageRole::Assistant && role == MessageRole::Assistant) || (
        last.role == MessageRole::Thinking && role == MessageRole::Thinking) {
            start_new = false;
        }
    }
    if start_new {
        let collapsed = role == MessageRole::Thinking;
        messages.push(ChatMessage { role, content, collapsed });
    } else {
        let last = messages.pop().unwrap();
        let ChatMessage { role: last_role, content: mut joined, collapsed } = last;
        joined.append(content.as_str());
        messages.push(ChatMessage { role: last_role, content: joined, collapsed });
        assert(final(messages)@.len() == old(messages)@.len());
    }
}

/// One persisted entry of a session: the pair a message is reduced to.
#[derive(Debug, Clone)]
pub struct SessionRecord {
    pub role: MessageRole,
    pub content: String,
}

/// The (role, content) pair a record carries.
pub open spec fn record_pair(r: SessionRecord) -> (MessageRole, Seq<char>) {
    (r.role, r.content@)
}

/// The ordered (role, content) pairs of a saved session.
pub open spec fn pairs_of_records(rs: Seq<SessionRecord>) -> Seq<(MessageRole, Seq<char>)>
    decreases rs.len(),
{
    if rs.len() == 0 {
        Seq::empty()
    } else {
        seq![record_pair(rs[0])] + pairs_of_records(rs.drop_first())
    }
}

/// One more record extends the pairs at the end.
pub proof fn lemma_record_pairs_push(rs: Seq<SessionRecord>, r: SessionRecord)
    ensures
        pairs_of_records(rs.push(r)) == pairs_of_records(rs).push(record_pair(r)),
    decreases rs.len(),
{
    reveal_with_fuel(pairs_of_records, 2);
    if rs.len() == 0 {
        assert(rs.push(r).drop_first() =~= Seq::<SessionRecord>::empty());
        assert(rs.push(r)[0] == r);
        assert(pairs_of_records(rs.push(r)) =~= pairs_of_records(rs).push(record_pair(r)));
    } else {
        lemma_record_pairs_push(rs.drop_first(), r);
        assert(rs.push(r).drop_first() =~= rs.drop_first().push(r));
        assert(rs.push(r)[0] == rs[0]);
        assert(pairs_of_records(rs.push(r)) =~= pairs_of_records(rs).push(record_pair(r)));
    }
}

/// Reduce a transcript to the records the persistence layer stores:
/// the same (role, content) pairs, in the same order.
pub fn to_records(messages: &Vec<ChatMessage>) -> (rs: Vec<SessionRecord>)
    ensures
        pairs_of_records(rs@) == pairs_of(messages@),
{
    let mut rs: Vec<SessionRecord> = Vec::new();
    let mut i: usize = 0;
    proof {
        assert(messages@.take(0) =~= Seq::<ChatMessage>::empty());
        assert(pairs_of_records(rs@) =~= pairs_of(messages@.take(0)));
    }
    while i < messages.len()
        invariant
            0 <= i <= messages@.len(),
            pairs_of_records(rs@) == pairs_of(messages@.take(i as int)),
        decreases messages@.len() - i,
    {
        let m = &messages[i];
        let ghost rs_pre = rs@;
        let rec = SessionRecord { role: m.role, content: m.content.clone() };
        let ghost grec = rec;
        rs.push(rec);
        proof {
            lemma_record_pairs_push(rs_pre, grec);
            lemma_pairs_push(messages@.take(i as int), messages@[i as int]);
            assert(messages@.take(i + 1) =~= messages@.take(i as int).push(
                messages@[i as int],
            ));
            assert(record_pair(grec) == msg_pair(messages@[i as int]));
        }
        i = i + 1;
    }
    proof {
        assert(messages@.take(messages@.len() as int) =~= messages@);
    }
    rs
}

/// Rebuild a transcript from stored records: the same (role, content)
/// pairs, in the same order, with every message unfolded.
pub fn from_records(records: Vec<SessionRecord>) -> (ms: Vec<ChatMessage>)
    ensures
        pairs_of(ms@) == pairs_of_records(records@),
        forall|j: int| 0 <= j < ms@.len() ==> (#[trigger] ms@[j]).collapsed == false,
{
    let mut ms: Vec<ChatMessage> = Vec::new();
    let mut rest = records;
    let ghost rall = rest@;
    let rlen = rest.len();
    let mut i: usize = 0;
    proof {
        assert(rall.take(0) =~= Seq::<SessionRecord>::empty());
        assert(pairs_of(ms@) =~= pairs_of_records(rall.take(0)));
        assert(rall.skip(0) =~= rall);
    }
    while rest.len() > 0
        invariant
            rall.len() == rlen,
            i + rest@.len() == rall.len(),
            rest@ == rall.skip(i as int),
            pairs_of(ms@) == pairs_of_records(rall.take(i as int)),
            forall|j: int| 0 <= j < ms@.len() ==> (#[trigger] ms@[j]).collapsed == false,
        decreases rest@.len(),
    {
        proof {
            assert(rall[i as int] == rest@[0]);
            assert(rest@.remove(0) =~= rest@.drop_first());
            assert(rall.skip(i + 1 as int) =~= rall.skip(i as int).drop_first());
        }
        let r = rest.remove(0);
        let ghost ms_pre = ms@;
        let ghost grec = rall[i as int];
        let m = ChatMessage { role: r.role, content: r.content, collapsed: false };
        let ghost gm = m;
        ms.push(m);
        proof {
            lemma_pairs_push(ms_pre, gm);
            lemma_record_pairs_push(rall.take(i as int), grec);
            assert(rall.take(i + 1 as int) =~= rall.take(i as int).push(grec));
            assert(msg_pair(gm) == record_pair(grec));
        }
        i = i + 1;
    }
    proof {
        assert(rall.take(rall.len() as int) =~= rall);
    }
    ms
}

/// Saving and loading is lossless: a transcript reduced to records and
/// a transcript rebuilt from those records carry identical ordered
/// (role, content) pairs.
pub proof fn lemma_records_round_trip(
    ms: Seq<ChatMessage>,
    rs: Seq<SessionRecord>,
    reloaded: Seq<ChatMessage>,
)
    requires
        pairs_of_records(rs) == pairs_of(ms),
        pairs_of(reloaded) == pairs_of_records(rs),
    ensures
        pairs_of(reloaded) == pairs_of(ms),
{
}

/// The backend's neutral role taxonomy.
#[derive(Debug, Clone, Copy, PartialEq, Eq, Structural)]
pub enum WireRole {
    User,
    Assistant,
    System,
    /// The result of a tool call, fed back to the model mid-turn.
    Tool,
}

/// How transcript roles map onto the backend's taxonomy: assistant and
/// thinking messages both speak as the assistant, system and error
/// messages both speak as the system.
pub open spec fn spec_wire_role(role: MessageRole) -> WireRole {
    match role {
        MessageRole::User => WireRole::User,
        MessageRole::Assistant => WireRole::Assistant,
        MessageRole::Thinking => WireRole::Assistant,
        MessageRole::System => WireRole::System,
        MessageRole::Error => WireRole::System,
    }
}

/// Map one transcript role onto the backend's taxonomy.
pub fn wire_role(role: MessageRole) -> (w: WireRole)
    ensures
        w == spec_wire_role(role),
{
    match role {
        MessageRole::User => WireRole::User,
        MessageRole::Assistant => WireRole::Assistant,
        MessageRole::Thinking => WireRole::Assistant,
        MessageRole::System => WireRole::System,
        MessageRole::Error => WireRole::System,
    }
}

} // verus!
