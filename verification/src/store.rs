//! The store: a map from string keys to entries, each entry carrying a
//! value, a lifetime in seconds and the moment it was written. Reads treat
//! an entry whose lifetime has elapsed as absent; the entry stays present
//! until it is overwritten or deleted.

use vstd::prelude::*;

use crate::value::Value;

verus! {

/// One stored association: the value, its lifetime in seconds, and the
/// second at which it was written.
pub struct Entry {
    pub value: Value,
    pub ttl: u64,
    pub created_at: u64,
}

/// Whether an entry is still live at second `now`: its lifetime has not yet
/// elapsed since it was written.
pub open spec fn live(e: Entry, now: u64) -> bool {
    (now as int) < e.created_at + e.ttl
}

/// Returns whether the entry is still live at second `now`.
pub fn is_live(e: &Entry, now: u64) -> (r: bool)
    ensures
        r == live(*e, now),
{
    (now as u128) < (e.created_at as u128) + (e.ttl as u128)
}

/// The keys of `s`, read as character sequences, are pairwise distinct.
pub open spec fn unique_keys(s: Seq<(String, Entry)>) -> bool {
    forall|i: int, j: int|
        0 <= i < j < s.len() ==> (#[trigger] s[i].0@) != (#[trigger] s[j].0@)
}

/// The map an association list denotes; a later pair with the same key wins.
pub open spec fn kv_map(s: Seq<(String, Entry)>) -> Map<Seq<char>, Entry>
    decreases s.len(),
{
    if s.len() == 0 {
        Map::empty()
    } else {
        kv_map(s.drop_last()).insert(s.last().0@, s.last().1)
    }
}

/// What a read of `k` at second `now` observes: the value when the key is
/// present and live, absence otherwise.
pub open spec fn get_spec(m: Map<Seq<char>, Entry>, k: Seq<char>, now: u64) -> Option<Value> {
    if m.contains_key(k) && live(m[k], now) {
        Some(m[k].value)
    } else {
        None
    }
}

proof fn lemma_kv_contains(s: Seq<(String, Entry)>)
    ensures
        forall|k: Seq<char>|
            kv_map(s).contains_key(k) <==> (exists|i: int|
                0 <= i < s.len() && (#[trigger] s[i].0@) == k),
    decreases s.len(),
{
    if s.len() == 0 {
    } else {
        lemma_kv_contains(s.drop_last());
        assert forall|k: Seq<char>|
            kv_map(s).contains_key(k) <==> (exists|i: int|
                0 <= i < s.len() && (#[trigger] s[i].0@) == k) by {
            if kv_map(s).contains_key(k) {
                if k == s.last().0@ {
                    assert(s[s.len() - 1].0@ == k);
                } else {
                    assert(kv_map(s.drop_last()).contains_key(k));
                    let i = choose|i: int|
                        0 <= i < s.drop_last().len() && (#[trigger] s.drop_last()[i].0@) == k;
                    assert(s[i].0@ == k);
                }
            }
            if exists|i: int| 0 <= i < s.len() && (#[trigger] s[i].0@) == k {
                let i = choose|i: int| 0 <= i < s.len() && (#[trigger] s[i].0@) == k;
                if i == s.len() - 1 {
                    assert(kv_map(s).contains_key(k));
                } else {
                    assert(s.drop_last()[i].0@ == k);
                    assert(kv_map(s.drop_last()).contains_key(k));
                }
            }
        }
    }
}

proof fn lemma_kv_index(s: Seq<(String, Entry)>, i: int)
    requires
        unique_keys(s),
        0 <= i < s.len(),
    ensures
        kv_map(s).contains_key(s[i].0@),
        kv_map(s)[s[i].0@] == s[i].1,
    decreases s.len(),
{
    if i == s.len() - 1 {
    } else {
        assert(unique_keys(s.drop_last()));
        assert(s.drop_last()[i] == s[i]);
        lemma_kv_index(s.drop_last(), i);
        assert(s[i].0@ != s.last().0@);
    }
}

proof fn lemma_kv_update(s: Seq<(String, Entry)>, i: int, p: (String, Entry))
    requires
        unique_keys(s),
        0 <= i < s.len(),
        p.0@ == s[i].0@,
    ensures
        kv_map(s.update(i, p)) == kv_map(s).insert(p.0@, p.1),
    decreases s.len(),
{
    let t = s.update(i, p);
    if i == s.len() - 1 {
        assert(t.drop_last() =~= s.drop_last());
        assert(t.last() == p);
        assert(kv_map(s.drop_last()).insert(p.0@, p.1) =~= kv_map(s).insert(p.0@, p.1));
    } else {
        assert(unique_keys(s.drop_last()));
        assert(s.drop_last()[i] == s[i]);
        lemma_kv_update(s.drop_last(), i, p);
        assert(t.drop_last() =~= s.drop_last().update(i, p));
        assert(t.last() == s.last());
        assert(s[i].0@ != s.last().0@);
        assert(kv_map(s.drop_last()).insert(p.0@, p.1).insert(s.last().0@, s.last().1)
            =~= kv_map(s.drop_last()).insert(s.last().0@, s.last().1).insert(p.0@, p.1));
    }
}

proof fn lemma_kv_push(s: Seq<(String, Entry)>, p: (String, Entry))
    ensures
        kv_map(s.push(p)) == kv_map(s).insert(p.0@, p.1),
{
    assert(s.push(p).drop_last() =~= s);
    assert(s.push(p).last() == p);
}

proof fn lemma_kv_remove(s: Seq<(String, Entry)>, i: int)
    requires
        unique_keys(s),
        0 <= i < s.len(),
    ensures
        kv_map(s.remove(i)) == kv_map(s).remove(s[i].0@),
    decreases s.len(),
{
    let k = s[i].0@;
    if i == s.len() - 1 {
        assert(s.remove(i) =~= s.drop_last());
        lemma_kv_contains(s.drop_last());
        assert forall|j: int| 0 <= j < s.drop_last().len() implies (#[trigger] s.drop_last()[j].0@)
            != k by {
            assert(s.drop_last()[j] == s[j]);
        }
        assert(!kv_map(s.drop_last()).contains_key(k));
        assert(kv_map(s).remove(k) =~= kv_map(s.drop_last()));
    } else {
        assert(unique_keys(s.drop_last()));
        assert(s.drop_last()[i] == s[i]);
        lemma_kv_remove(s.drop_last(), i);
        assert(s.remove(i).drop_last() =~= s.drop_last().remove(i));
        assert(s.remove(i).last() == s.last());
        assert(s[i].0@ != s.last().0@);
        assert(kv_map(s.drop_last()).remove(k).insert(s.last().0@, s.last().1)
            =~= kv_map(s.drop_last()).insert(s.last().0@, s.last().1).remove(k));
    }
}

/// Why an increment request was refused.
#[derive(Clone, Copy, PartialEq, Eq, Debug)]
pub enum IncrementError {
    /// The stored value is not an integer.
    NotAnInteger,
    /// The stored integer plus the delta does not fit a 64-bit integer.
    Overflow,
}

/// What a keyed read found: a live value, an entry past its lifetime, or no
/// entry at all.
pub enum Found<'a> {
    Live(&'a Value),
    Expired,
    Missing,
}

/// One operation of a batch.
pub enum BatchOp {
    /// Set: store `value` under `key`, with the named lifetime or, when
    /// none is named, the batch default.
    Put { key: String, value: Value, ttl: Option<u64> },
    /// Delete: remove the entry under `key`; a no-op when it is absent.
    Del { key: String },
}

/// A batch operation is well formed when a set names a non-empty key.
pub open spec fn op_wf(op: BatchOp) -> bool {
    match op {
        BatchOp::Put { key, value, ttl } => key@.len() > 0,
        BatchOp::Del { key } => true,
    }
}

/// The map after one batch operation: a set inserts a fresh entry, taking
/// the batch default lifetime when the operation names none; a delete
/// removes the key.
pub open spec fn apply_op_spec(
    m: Map<Seq<char>, Entry>,
    op: BatchOp,
    default_ttl: u64,
    now: u64,
) -> Map<Seq<char>, Entry> {
    match op {
        BatchOp::Put { key, value, ttl } => {
            let t = match ttl {
                Some(t) => t,
                None => default_ttl,
            };
            m.insert(key@, Entry { value, ttl: t, created_at: now })
        },
        BatchOp::Del { key } => m.remove(key@),
    }
}

/// The map after a whole batch, applied in order.
pub open spec fn apply_ops_spec(
    m: Map<Seq<char>, Entry>,
    ops: Seq<BatchOp>,
    default_ttl: u64,
    now: u64,
) -> Map<Seq<char>, Entry>
    decreases ops.len(),
{
    if ops.len() == 0 {
        m
    } else {
        apply_op_spec(
            apply_ops_spec(m, ops.drop_last(), default_ttl, now),
            ops.last(),
            default_ttl,
            now,
        )
    }
}

/// The key-value store.
pub struct Store {
    entries: Vec<(String, Entry)>,
}

impl View for Store {
    type V = Map<Seq<char>, Entry>;

    open spec fn view(&self) -> Map<Seq<char>, Entry> {
        kv_map(self.entries_seq())
    }
}

impl Store {
    /// The stored associations in insertion order; listing follows it.
    pub closed spec fn entries_seq(&self) -> Seq<(String, Entry)> {
        self.entries@
    }

    /// Well-formed: keys are pairwise distinct and non-empty.
    pub open spec fn wf(&self) -> bool {
        unique_keys(self.entries_seq()) && (forall|i: int|
            0 <= i < self.entries_seq().len() ==> (#[trigger] self.entries_seq()[i].0@).len() > 0)
    }

    /// An empty store.
    pub fn new() -> (s: Store)
        ensures
            s@ == Map::<Seq<char>, Entry>::empty(),
            s.entries_seq() == Seq::<(String, Entry)>::empty(),
            s.wf(),
    {
        Store { entries: Vec::new() }
    }

    /// How many entries are physically present, expired ones included.
    pub fn len(&self) -> (n: usize)
        ensures
            n == self.entries_seq().len(),
    {
        self.entries.len()
    }

    pub(crate) fn nth(&self, i: usize) -> (p: &(String, Entry))
        requires
            i < self.entries_seq().len(),
        ensures
            *p == self.entries_seq()[i as int],
    {
        &self.entries[i]
    }

    fn find(&self, key: &String) -> (r: Option<usize>)
        ensures
            match r {
                Some(i) => i < self.entries_seq().len() && self.entries_seq()[i as int].0@
                    == key@,
                None => forall|i: int|
                    0 <= i < self.entries_seq().len() ==> (#[trigger] self.entries_seq()[i].0@)
                        != key@,
            },
    {
        let mut i: usize = 0;
        while i < self.entries.len()
            invariant
                i <= self.entries.len(),
                forall|j: int| 0 <= j < i ==> (#[trigger] self.entries@[j].0@) != key@,
            decreases self.entries.len() - i,
        {
            if self.entries[i].0 == *key {
                return Some(i);
            }
            i += 1;
        }
        None
    }

    /// Looks a key up at second `now`, reporting a live value, an expired
    /// entry, or absence.
    pub fn lookup<'a>(&'a self, key: &String, now: u64) -> (r: Found<'a>)
        requires
            self.wf(),
        ensures
            (r is Missing) <==> !self@.contains_key(key@),
            (r is Expired) <==> (self@.contains_key(key@) && !live(self@[key@], now)),
            match r {
                Found::Live(v) => self@.contains_key(key@) && live(self@[key@], now) && *v
                    == self@[key@].value,
                _ => true,
            },
    {
        match self.find(key) {
            Some(i) => {
                proof {
                    lemma_kv_index(self.entries@, i as int);
                }
                let e = &self.entries[i].1;
                if is_live(e, now) {
                    Found::Live(&e.value)
                } else {
                    Found::Expired
                }
            },
            None => {
                proof {
                    lemma_kv_contains(self.entries@);
                }
                Found::Missing
            },
        }
    }

    /// Reads the value under a key at second `now`. An entry past its
    /// lifetime is reported as absent, exactly like a missing key.
    pub fn get<'a>(&'a self, key: &String, now: u64) -> (r: Option<&'a Value>)
        requires
            self.wf(),
        ensures
            match r {
                Some(v) => get_spec(self@, key@, now) == Some(*v),
                None => get_spec(self@, key@, now) is None,
            },
    {
        match self.lookup(key, now) {
            Found::Live(v) => Some(v),
            Found::Expired => None,
            Found::Missing => None,
        }
    }

    /// Inserts or wholesale-replaces the entry under `key`: the value, the
    /// lifetime and the write moment all come from this one call.
    pub fn set(&mut self, key: String, value: Value, ttl: u64, now: u64)
        requires
            old(self).wf(),
            key@.len() > 0,
        ensures
            final(self).wf(),
            final(self)@ == old(self)@.insert(key@, (Entry { value, ttl, created_at: now })),
            old(self)@.contains_key(key@) ==> exists|i: int|
                {
                    &&& 0 <= i < old(self).entries_seq().len()
                    &&& (#[trigger] old(self).entries_seq()[i].0@) == key@
                    &&& final(self).entries_seq() == old(self).entries_seq().update(
                        i,
                        (key, (Entry { value, ttl, created_at: now })),
                    )
                },
            !old(self)@.contains_key(key@) ==> final(self).entries_seq()
                == old(self).entries_seq().push((key, (Entry { value, ttl, created_at: now }))),
    {
        let e = Entry { value, ttl, created_at: now };
        let ghost s0 = self.entries@;
        match self.find(&key) {
            Some(i) => {
                let ghost p = (key, e);
                self.entries[i] = (key, e);
                proof {
                    assert(self.entries@ == s0.update(i as int, p));
                    lemma_kv_index(s0, i as int);
                    assert((i as int) < s0.len() && s0[i as int].0@ == key@ && self.entries@
                        == s0.update(i as int, p));
                    lemma_kv_update(s0, i as int, p);
                    assert forall|a: int, b: int|
                        0 <= a < b < self.entries@.len() implies (#[trigger] self.entries@[a].0@)
                        != (#[trigger] self.entries@[b].0@) by {
                        assert(self.entries@[a].0@ == s0[a].0@);
                        assert(self.entries@[b].0@ == s0[b].0@);
                    }
                    assert forall|j: int|
                        0 <= j < self.entries@.len() implies (#[trigger] self.entries@[j].0@).len()
                        > 0 by {
                        assert(self.entries@[j].0@ == s0[j].0@);
                    }
                }
            },
            None => {
                let ghost p = (key, e);
                self.entries.push((key, e));
                proof {
                    assert(self.entries@ == s0.push(p));
                    lemma_kv_contains(s0);
                    lemma_kv_push(s0, p);
                    assert forall|a: int, b: int|
                        0 <= a < b < self.entries@.len() implies (#[trigger] self.entries@[a].0@)
                        != (#[trigger] self.entries@[b].0@) by {
                        if b < s0.len() {
                            assert(self.entries@[a].0@ == s0[a].0@);
                            assert(self.entries@[b].0@ == s0[b].0@);
                        } else {
                            assert(self.entries@[a].0@ == s0[a].0@);
                            assert(self.entries@[b].0@ == p.0@);
                        }
                    }
                }
            },
        }
    }

    /// Removes the entry under `key`, whether live or expired, and reports
    /// whether an entry was there to remove.
    pub fn delete(&mut self, key: &String) -> (removed: bool)
        requires
            old(self).wf(),
        ensures
            final(self).wf(),
            removed == old(self)@.contains_key(key@),
            final(self)@ == old(self)@.remove(key@),
            old(self)@.contains_key(key@) ==> exists|i: int|
                {
                    &&& 0 <= i < old(self).entries_seq().len()
                    &&& (#[trigger] old(self).entries_seq()[i].0@) == key@
                    &&& final(self).entries_seq() == old(self).entries_seq().remove(i)
                },
            !old(self)@.contains_key(key@) ==> final(self).entries_seq()
                == old(self).entries_seq(),
    {
        let ghost s0 = self.entries@;
        match self.find(key) {
            Some(i) => {
                proof {
                    lemma_kv_index(s0, i as int);
                    lemma_kv_remove(s0, i as int);
                }
                self.entries.remove(i);
                proof {
                    assert(self.entries@ == s0.remove(i as int));
                    assert((i as int) < s0.len() && s0[i as int].0@ == key@ && self.entries@
                        == s0.remove(i as int));
                    assert forall|a: int, b: int|
                        0 <= a < b < self.entries@.len() implies (#[trigger] self.entries@[a].0@)
                        != (#[trigger] self.entries@[b].0@) by {
                        let a0 = if a < i as int { a } else { a + 1 };
                        let b0 = if b < i as int { b } else { b + 1 };
                        assert(self.entries@[a].0@ == s0[a0].0@);
                        assert(self.entries@[b].0@ == s0[b0].0@);
                    }
                    assert forall|j: int|
                        0 <= j < self.entries@.len() implies (#[trigger] self.entries@[j].0@).len()
                        > 0 by {
                        let j0 = if j < i as int { j } else { j + 1 };
                        assert(self.entries@[j].0@ == s0[j0].0@);
                    }
                }
                true
            },
            None => {
                proof {
                    lemma_kv_contains(s0);
                    assert(!old(self)@.contains_key(key@));
                    assert(old(self)@.remove(key@) =~= old(self)@);
                }
                false
            },
        }
    }

    /// Adds `delta` to the integer stored under `key`. An absent key is
    /// created holding 1 with the default lifetime, whatever the delta.
    /// Expiration is not consulted: an expired but still present entry
    /// counts as present. A present entry keeps its lifetime and write
    /// moment; only the value changes. A present non-integer value is
    /// refused and left untouched.
    pub fn increment(&mut self, key: &String, delta: i64, default_ttl: u64, now: u64) -> (r:
        Result<i64, IncrementError>)
        requires
            old(self).wf(),
            key@.len() > 0,
        ensures
            final(self).wf(),
            !old(self)@.contains_key(key@) ==> {
                &&& r == Ok::<i64, IncrementError>(1i64)
                &&& final(self)@ == old(self)@.insert(
                    key@,
                    (Entry { value: Value::Int(1i64), ttl: default_ttl, created_at: now }),
                )
                &&& final(self).entries_seq() == old(self).entries_seq().push(
                    ((*key), (Entry { value: Value::Int(1i64), ttl: default_ttl, created_at: now })),
                )
            },
            old(self)@.contains_key(key@) ==> match old(self)@[key@].value {
                Value::Int(n) => {
                    if i64::MIN <= n + delta <= i64::MAX {
                        &&& r == Ok::<i64, IncrementError>((n + delta) as i64)
                        &&& final(self)@ == old(self)@.insert(
                            key@,
                            (Entry {
                                value: Value::Int((n + delta) as i64),
                                ttl: old(self)@[key@].ttl,
                                created_at: old(self)@[key@].created_at,
                            }),
                        )
                        &&& exists|i: int|
                            {
                                &&& 0 <= i < old(self).entries_seq().len()
                                &&& (#[trigger] old(self).entries_seq()[i].0@) == key@
                                &&& final(self).entries_seq() == old(self).entries_seq().update(
                                    i,
                                    ((*key), (Entry {
                                        value: Value::Int((n + delta) as i64),
                                        ttl: old(self)@[key@].ttl,
                                        created_at: old(self)@[key@].created_at,
                                    })),
                                )
                            }
                    } else {
                        &&& r == Err::<i64, IncrementError>(IncrementError::Overflow)
                        &&& final(self)@ == old(self)@
                        &&& final(self).entries_seq() == old(self).entries_seq()
                    }
                },
                _ => {
                    &&& r == Err::<i64, IncrementError>(IncrementError::NotAnInteger)
                    &&& final(self)@ == old(self)@
                    &&& final(self).entries_seq() == old(self).entries_seq()
                },
            },
    {
        let ghost s0 = self.entries@;
        match self.find(key) {
            Some(i) => {
                proof {
                    lemma_kv_index(s0, i as int);
                }
                match self.entries[i].1.value.as_int() {
                    Some(n) => {
                        match n.checked_add(delta) {
                            Some(m) => {
                                let e = Entry {
                                    value: Value::Int(m),
                                    ttl: self.entries[i].1.ttl,
                                    created_at: self.entries[i].1.created_at,
                                };
                                let k2 = key.clone();
                                let ghost p = (k2, e);
                                self.entries[i] = (k2, e);
                                proof {
                                    assert(self.entries@ == s0.update(i as int, p));
                                    assert((i as int) < s0.len() && s0[i as int].0@ == key@
                                        && self.entries@ == s0.update(i as int, p));
                                    lemma_kv_update(s0, i as int, p);
                                    assert forall|a: int, b: int|
                                        0 <= a < b < self.entries@.len() implies (
                                    #[trigger] self.entries@[a].0@) != (
                                    #[trigger] self.entries@[b].0@) by {
                                        assert(self.entries@[a].0@ == s0[a].0@);
                                        assert(self.entries@[b].0@ == s0[b].0@);
                                    }
                                    assert forall|j: int|
                                        0 <= j < self.entries@.len() implies (
                                    #[trigger] self.entries@[j].0@).len() > 0 by {
                                        assert(self.entries@[j].0@ == s0[j].0@);
                                    }
                                }
                                Ok(m)
                            },
                            None => Err(IncrementError::Overflow),
                        }
                    },
                    None => Err(IncrementError::NotAnInteger),
                }
            },
            None => {
                proof {
                    lemma_kv_contains(s0);
                }
                let e = Entry { value: Value::Int(1), ttl: default_ttl, created_at: now };
                let k2 = key.clone();
                let ghost p = (k2, e);
                self.entries.push((k2, e));
                proof {
                    assert(self.entries@ == s0.push(p));
                    lemma_kv_push(s0, p);
                    assert forall|a: int, b: int|
                        0 <= a < b < self.entries@.len() implies (#[trigger] self.entries@[a].0@)
                        != (#[trigger] self.entries@[b].0@) by {
                        if b < s0.len() {
                            assert(self.entries@[a].0@ == s0[a].0@);
                            assert(self.entries@[b].0@ == s0[b].0@);
                        } else {
                            assert(self.entries@[a].0@ == s0[a].0@);
                            assert(self.entries@[b].0@ == p.0@);
                        }
                    }
                }
                Ok(1)
            },
        }
    }

    /// Applies a whole batch in order, under one exclusive borrow: no other
    /// operation can observe a partially applied batch. A later operation
    /// on the same key overwrites an earlier one's effect.
    pub fn apply_batch(&mut self, ops: Vec<BatchOp>, default_ttl: u64, now: u64)
        requires
            old(self).wf(),
            forall|i: int| 0 <= i < ops@.len() ==> op_wf(#[trigger] ops@[i]),
        ensures
            final(self).wf(),
            final(self)@ == apply_ops_spec(old(self)@, ops@, default_ttl, now),
    {
        let ghost all = ops@;
        let ghost m0 = self@;
        let mut work = ops;
        let mut done: usize = 0;
        let n0 = work.len();
        proof {
            assert(work@.len() == n0 as int);
        }
        while work.len() > 0
            invariant
                self.wf(),
                done <= all.len(),
                done + work@.len() <= usize::MAX,
                work@ == all.skip(done as int),
                forall|i: int| 0 <= i < all.len() ==> op_wf(#[trigger] all[i]),
                self@ == apply_ops_spec(m0, all.take(done as int), default_ttl, now),
                m0 == old(self)@,
            decreases work.len(),
        {
            let op = work.remove(0);
            proof {
                assert(op == all[done as int]);
                assert(all.take(done + 1).drop_last() =~= all.take(done as int));
                assert(all.take(done + 1).last() == all[done as int]);
                assert(work@ =~= all.skip(done + 1));
            }
            match op {
                BatchOp::Put { key, value, ttl } => {
                    let t = match ttl {
                        Some(t) => t,
                        None => default_ttl,
                    };
                    self.set(key, value, t, now);
                },
                BatchOp::Del { key } => {
                    let _ = self.delete(&key);
                },
            }
            done += 1;
        }
        proof {
            assert(all.take(done as int) =~= all);
        }
    }
}

impl Default for Store {
    /// An empty store.
    fn default() -> (s: Self)
        ensures
            s@ == Map::<Seq<char>, Entry>::empty(),
            s.wf(),
    {
        Store::new()
    }
}

} // verus!
