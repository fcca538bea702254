//! Ordering of the session list: saved sessions are shown newest
//! first.  Session names begin with a timestamp, so sorting them in
//! descending byte order puts the most recent one on top.  UTF-8
//! compares bytewise exactly like code points, so this order is the
//! standard string order.

use vstd::prelude::*;
use vstd::utf8::encode_utf8;
use vstd::string::StrSliceExecFns;

verus! {

/// Byte-lexicographic order: whether `a` sorts at or before `b`.
pub open spec fn bytes_le(a: Seq<u8>, b: Seq<u8>) -> bool
    decreases a.len(),
{
    if a.len() == 0 {
        true
    } else if b.len() == 0 {
        false
    } else if a[0] != b[0] {
        a[0] < b[0]
    } else {
        bytes_le(a.drop_first(), b.drop_first())
    }
}

/// The bytes a name is compared by.
pub open spec fn name_bytes(s: String) -> Seq<u8> {
    encode_utf8(s@)
}

/// Whether name `a` sorts at or before name `b`.
pub open spec fn name_le(a: String, b: String) -> bool {
    bytes_le(name_bytes(a), name_bytes(b))
}

/// The order is total.
pub proof fn lemma_bytes_le_total(a: Seq<u8>, b: Seq<u8>)
    ensures
        bytes_le(a, b) || bytes_le(b, a),
    decreases a.len(),
{
    if a.len() == 0 {
    } else if b.len() == 0 {
    } else if a[0] == b[0] {
        lemma_bytes_le_total(a.drop_first(), b.drop_first());
    }
}

/// The order is transitive.
pub proof fn lemma_bytes_le_trans(a: Seq<u8>, b: Seq<u8>, c: Seq<u8>)
    requires
        bytes_le(a, b),
        bytes_le(b, c),
    ensures
        bytes_le(a, c),
    decreases a.len(),
{
    if a.len() == 0 {
    } else {
        assert(b.len() > 0);
        assert(c.len() > 0);
        if a[0] == b[0] && b[0] == c[0] {
            lemma_bytes_le_trans(a.drop_first(), b.drop_first(), c.drop_first());
        }
    }
}

/// Newest first: every earlier entry sorts at or after every later one.
pub open spec fn sorted_desc(ns: Seq<String>) -> bool {
    forall|i: int, j: int|
        0 <= i < j < ns.len() ==> #[trigger] name_le(ns[j], ns[i])
}

/// Compare two names.
pub fn name_le_exec(a: &String, b: &String) -> (r: bool)
    ensures
        r == name_le(*a, *b),
{
    let av = a.as_str().as_bytes_vec();
    let bv = b.as_str().as_bytes_vec();
    let mut i: usize = 0;
    proof {
        assert(av@.skip(0) =~= av@);
        assert(bv@.skip(0) =~= bv@);
    }
    loop
        invariant
            0 <= i <= av@.len(),
            i <= bv@.len(),
            av@ == name_bytes(*a),
            bv@ == name_bytes(*b),
            bytes_le(av@, bv@) == bytes_le(av@.skip(i as int), bv@.skip(i as int)),
        decreases av@.len() - i,
    {
        if i >= av.len() {
            proof {
                assert(av@.skip(i as int) =~= Seq::<u8>::empty());
            }
            return true;
        }
        if i >= bv.len() {
            proof {
                assert(bv@.skip(i as int) =~= Seq::<u8>::empty());
            }
            return false;
        }
        let x = av[i];
        let y = bv[i];
        proof {
            assert(av@.skip(i as int)[0] == av@[i as int]);
            assert(bv@.skip(i as int)[0] == bv@[i as int]);
        }
        if x != y {
            return x < y;
        }
        proof {
            assert(av@.skip(i as int).drop_first() =~= av@.skip(i + 1));
            assert(bv@.skip(i as int).drop_first() =~= bv@.skip(i + 1));
        }
        i = i + 1;
    }
}

/// Sort the session list newest first.  The list keeps exactly the
/// same names.
#[verifier::loop_isolation(false)]
#[verifier::rlimit(60)]
pub fn sort_names_desc(names: &mut Vec<String>)
    ensures
        final(names)@.to_multiset() == old(names)@.to_multiset(),
        sorted_desc(final(names)@),
{
    broadcast use vstd::seq_lib::group_to_multiset_ensures;

    let mut rest: Vec<String> = Vec::new();
    std::mem::swap(names, &mut rest);
    let ghost orig = rest@;
    proof {
        assert(names@ =~= Seq::<String>::empty());
        assert(names@.to_multiset().add(rest@.to_multiset()) =~= orig.to_multiset());
    }
    while rest.len() > 0
        invariant
            names@.to_multiset().add(rest@.to_multiset()) == orig.to_multiset(),
            sorted_desc(names@),
            forall|i: int, k: int|
                0 <= i < names@.len() && 0 <= k < rest@.len() ==> #[trigger] name_le(
                    rest@[k],
                    names@[i],
                ),
        decreases rest@.len(),
    {
        // find the entry that sorts last: the newest remaining name
        let mut mi: usize = 0;
        let mut j: usize = 1;
        proof {
            lemma_bytes_le_total(name_bytes(rest@[0]), name_bytes(rest@[0]));
        }
        while j < rest.len()
            invariant
                0 <= mi < j <= rest@.len(),
                forall|k: int| 0 <= k < j ==> #[trigger] name_le(rest@[k], rest@[mi as int]),
            decreases rest@.len() - j,
        {
            if name_le_exec(&rest[mi], &rest[j]) {
                proof {
                    assert forall|k: int| 0 <= k < j + 1 implies #[trigger] name_le(
                        rest@[k],
                        rest@[j as int],
                    ) by {
                        if k < j {
                            assert(name_le(rest@[k], rest@[mi as int]));
                            lemma_bytes_le_trans(
                                name_bytes(rest@[k]),
                                name_bytes(rest@[mi as int]),
                                name_bytes(rest@[j as int]),
                            );
                        } else {
                            lemma_bytes_le_total(
                                name_bytes(rest@[j as int]),
                                name_bytes(rest@[j as int]),
                            );
                        }
                    }
                }
                mi = j;
            } else {
                proof {
                    lemma_bytes_le_total(
                        name_bytes(rest@[mi as int]),
                        name_bytes(rest@[j as int]),
                    );
                }
            }
            j = j + 1;
        }
        proof {
            lemma_bytes_le_total(name_bytes(rest@[mi as int]), name_bytes(rest@[mi as int]));
        }
        let ghost rest_pre = rest@;
        let ghost names_pre = names@;
        let picked = rest.remove(mi);
        let ghost gpicked = picked;
        names.push(picked);
        proof {
            // the moved name is counted out of one side and into the other
            assert(rest_pre.contains(gpicked));
            assert(rest_pre.to_multiset().count(gpicked) > 0);
            assert(names@.to_multiset().add(rest@.to_multiset()) =~= names_pre.to_multiset().add(
                rest_pre.to_multiset(),
            ));
            // the new last entry sorts at or after everything left
            assert forall|i: int, k: int|
                0 <= i < names@.len() && 0 <= k < rest@.len() implies #[trigger] name_le(
                rest@[k],
                names@[i],
            ) by {
                if i < names_pre.len() {
                } else {
                    if k < mi {
                        assert(rest@[k] == rest_pre[k]);
                    } else {
                        assert(rest@[k] == rest_pre[k + 1]);
                    }
                }
            }
        }
    }
}

} // verus!
