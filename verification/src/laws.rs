//! Laws the store obeys, stated over the map model that the operations'
//! contracts speak of and proved once and for all.

use vstd::prelude::*;

use crate::store::{apply_ops_spec, get_spec, BatchOp, Entry};
use crate::value::Value;

verus! {

/// Law: a write followed by a read of the same key returns the written
/// value unchanged while the lifetime lasts, and absence once `ttl`
/// seconds have elapsed since the write.
pub proof fn lemma_set_then_get(
    m: Map<Seq<char>, Entry>,
    key: Seq<char>,
    value: Value,
    ttl: u64,
    now: u64,
    later: u64,
)
    ensures
        ({
            let m2 = m.insert(key, (Entry { value, ttl, created_at: now }));
            get_spec(m2, key, later) == if (later as int) < now + ttl {
                Some(value)
            } else {
                None::<Value>
            }
        }),
{
}

/// Law: after a delete, a read of the deleted key reports absence,
/// whatever the moment of the read.
pub proof fn lemma_delete_then_get(m: Map<Seq<char>, Entry>, key: Seq<char>, now: u64)
    ensures
        get_spec(m.remove(key), key, now) is None,
{
}

/// Law: a delete leaves every other key exactly as it was.
pub proof fn lemma_delete_other_keys(
    m: Map<Seq<char>, Entry>,
    key: Seq<char>,
    other: Seq<char>,
    now: u64,
)
    requires
        other != key,
    ensures
        get_spec(m.remove(key), other, now) == get_spec(m, other, now),
{
}

/// Law: deleting an absent key changes nothing.
pub proof fn lemma_delete_absent(m: Map<Seq<char>, Entry>, key: Seq<char>)
    requires
        !m.contains_key(key),
    ensures
        m.remove(key) == m,
{
    assert(m.remove(key) =~= m);
}

/// Law: within one batch the later operation on a key wins — a set, a
/// delete and a second set of the same key, in that order, leave the
/// second set's value stored under the key.
pub proof fn lemma_batch_last_write_wins(
    m: Map<Seq<char>, Entry>,
    key: String,
    v1: Value,
    v2: Value,
    default_ttl: u64,
    now: u64,
)
    ensures
        ({
            let ops = seq![
                BatchOp::Put { key: key, value: v1, ttl: None },
                BatchOp::Del { key: key },
                BatchOp::Put { key: key, value: v2, ttl: None },
            ];
            let m2 = apply_ops_spec(m, ops, default_ttl, now);
            m2.contains_key(key@) && m2[key@].value == v2
        }),
{
    let a = BatchOp::Put { key: key, value: v1, ttl: None };
    let b = BatchOp::Del { key: key };
    let c = BatchOp::Put { key: key, value: v2, ttl: None };
    let ops = seq![a, b, c];
    assert(ops.drop_last() =~= seq![a, b]);
    assert(seq![a, b].drop_last() =~= seq![a]);
    assert(seq![a].drop_last() =~= Seq::<BatchOp>::empty());
    assert(ops.last() == c);
    assert(seq![a, b].last() == b);
    assert(seq![a].last() == a);
}

/// Law: writes are whole. After a set, the entry under the key is exactly
/// the written one — value, lifetime and write moment all from that one
/// call; after two sets of the same key, the entry is the later call's in
/// full, never a mixture of the two.
pub proof fn lemma_writes_are_whole(
    m: Map<Seq<char>, Entry>,
    key: Seq<char>,
    e1: Entry,
    e2: Entry,
)
    ensures
        m.insert(key, e1)[key] == e1,
        m.insert(key, e1).insert(key, e2)[key] == e2,
        m.insert(key, e2).insert(key, e1)[key] == e1,
{
}

} // verus!
