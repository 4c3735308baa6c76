//! A sorted single-writer table keyed by `u64`, the model of one on-disk
//! key-value table: entries stay strictly ascending by key, lookups walk the
//! entries, appends extend the tail, inserts keep the order.

use vstd::prelude::*;

verus! {

/// The value stored under `k` in an entry sequence, scanning left to right.
pub open spec fn tbl_get<V>(s: Seq<(u64, V)>, k: u64) -> Option<V>
    decreases s.len(),
{
    if s.len() == 0 {
        None
    } else if s[0].0 == k {
        Some(s[0].1)
    } else {
        tbl_get(s.drop_first(), k)
    }
}

pub open spec fn tbl_contains<V>(s: Seq<(u64, V)>, k: u64) -> bool {
    tbl_get(s, k) is Some
}

/// Entries sorted strictly ascending by key.
pub open spec fn tbl_sorted<V>(s: Seq<(u64, V)>) -> bool {
    forall|i: int, j: int| 0 <= i < j < s.len() ==> #[trigger] s[i].0 < #[trigger] s[j].0
}

/// The entry sequence after inserting `(k, v)` at its sorted position.
pub open spec fn tbl_sorted_insert<V>(s: Seq<(u64, V)>, k: u64, v: V) -> Seq<(u64, V)>
    decreases s.len(),
{
    if s.len() == 0 {
        seq![(k, v)]
    } else if k < s[0].0 {
        seq![(k, v)] + s
    } else {
        seq![s[0]] + tbl_sorted_insert(s.drop_first(), k, v)
    }
}

/// The first entry whose key lies strictly above `k`, scanning left to
/// right; on a sorted sequence this is the successor entry.
pub open spec fn tbl_next_above<V>(s: Seq<(u64, V)>, k: u64) -> Option<(u64, V)>
    decreases s.len(),
{
    if s.len() == 0 {
        None
    } else if s[0].0 > k {
        Some(s[0])
    } else {
        tbl_next_above(s.drop_first(), k)
    }
}

/// What a lookup returns on a one-entry sequence.
pub proof fn lemma_tbl_get_singleton<V>(k: u64, v: V, n: u64)
    ensures
        tbl_get(seq![(k, v)], n) == if n == k {
            Some(v)
        } else {
            None::<V>
        },
{
    if n != k {
        assert(seq![(k, v)].drop_first() =~= Seq::<(u64, V)>::empty());
        assert(tbl_get(Seq::<(u64, V)>::empty(), n) == None::<V>);
    }
}

/// A lookup hits iff some entry carries the key; on sorted entries the
/// witness index is unique.
pub proof fn lemma_tbl_get_index<V>(s: Seq<(u64, V)>, k: u64)
    ensures
        tbl_get(s, k) matches Some(v) ==> exists|i: int|
            0 <= i < s.len() && s[i] == (k, v),
        tbl_get(s, k) is None ==> forall|i: int| 0 <= i < s.len() ==> (#[trigger] s[i]).0 != k,
    decreases s.len(),
{
    if s.len() > 0 {
        lemma_tbl_get_index(s.drop_first(), k);
        if s[0].0 != k {
            match tbl_get(s, k) {
                Some(v) => {
                    let i = choose|i: int|
                        0 <= i < s.drop_first().len() && s.drop_first()[i] == (k, v);
                    assert(s[i + 1] == (k, v));
                },
                None => {
                    assert forall|i: int| 0 <= i < s.len() implies (#[trigger] s[i]).0 != k by {
                        if i > 0 {
                            assert(s.drop_first()[i - 1] == s[i]);
                        }
                    }
                },
            }
        }
    }
}

/// Any entry of a sorted sequence is what a lookup of its key returns.
pub proof fn lemma_tbl_index_get<V>(s: Seq<(u64, V)>, i: int)
    requires
        tbl_sorted(s),
        0 <= i < s.len(),
    ensures
        tbl_get(s, s[i].0) == Some(s[i].1),
    decreases s.len(),
{
    if i > 0 {
        assert(s[0].0 < s[i].0);
        assert(s.drop_first()[i - 1] == s[i]);
        assert(tbl_sorted(s.drop_first())) by {
            assert(forall|a: int, b: int|
                0 <= a < b < s.drop_first().len() ==> (#[trigger] s.drop_first()[a]).0
                    < (#[trigger] s.drop_first()[b]).0);
        }
        lemma_tbl_index_get(s.drop_first(), i - 1);
    }
}

/// Dropping the first entry keeps the order.
pub proof fn lemma_tbl_sorted_drop_first<V>(s: Seq<(u64, V)>)
    requires
        tbl_sorted(s),
        s.len() > 0,
    ensures
        tbl_sorted(s.drop_first()),
{
    assert(forall|a: int, b: int|
        0 <= a < b < s.drop_first().len() ==> (#[trigger] s.drop_first()[a]).0
            < (#[trigger] s.drop_first()[b]).0);
}

/// What a sorted insert does to the order, the length and every lookup.
pub proof fn lemma_tbl_sorted_insert<V>(s: Seq<(u64, V)>, k: u64, v: V)
    requires
        tbl_sorted(s),
        !tbl_contains(s, k),
    ensures
        tbl_sorted(tbl_sorted_insert(s, k, v)),
        tbl_sorted_insert(s, k, v).len() == s.len() + 1,
        tbl_get(tbl_sorted_insert(s, k, v), k) == Some(v),
        forall|k2: u64| k2 != k ==> tbl_get(tbl_sorted_insert(s, k, v), k2) == tbl_get(s, k2),
    decreases s.len(),
{
    let t = tbl_sorted_insert(s, k, v);
    if s.len() == 0 {
        assert(t =~= seq![(k, v)]);
        assert forall|k2: u64| k2 != k implies tbl_get(t, k2) == tbl_get(s, k2) by {
            assert(t.drop_first() =~= Seq::<(u64, V)>::empty());
            assert(tbl_get(t.drop_first(), k2) == None::<V>);
        }
    } else if k < s[0].0 {
        assert(t == seq![(k, v)] + s);
        assert(t.drop_first() =~= s);
        assert(forall|i: int, j: int| 0 <= i < j < t.len() ==> t[i].0 < t[j].0) by {
            assert(forall|j: int| 1 <= j < t.len() ==> t[j] == s[j - 1]);
            assert(forall|i: int|
                0 <= i < s.len() ==> s[0].0 <= (#[trigger] s[i]).0);
        }
    } else {
        lemma_tbl_sorted_drop_first(s);
        assert(s[0].0 != k);
        assert(tbl_get(s, k) == tbl_get(s.drop_first(), k));
        lemma_tbl_sorted_insert(s.drop_first(), k, v);
        let u = tbl_sorted_insert(s.drop_first(), k, v);
        assert(t == seq![s[0]] + u);
        assert(t.drop_first() =~= u);
        assert(t[0] == s[0]);
        // every key of u is a key of s.drop_first() or k, all above s[0].0
        assert(forall|i: int| 0 <= i < u.len() ==> (#[trigger] u[i]).0 > s[0].0) by {
            lemma_tbl_insert_keys(s.drop_first(), k, v);
            assert(forall|i: int|
                0 <= i < s.drop_first().len() ==> s[0].0 < (#[trigger] s.drop_first()[i]).0);
        }
        assert(forall|i: int, j: int| 0 <= i < j < t.len() ==> t[i].0 < t[j].0) by {
            assert(forall|j: int| 1 <= j < t.len() ==> t[j] == u[j - 1]);
        }
        assert(tbl_get(t, k) == Some(v));
        assert(forall|k2: u64| k2 != k ==> tbl_get(t, k2) == tbl_get(s, k2)) by {
            assert(forall|k2: u64|
                #![trigger tbl_get(t, k2)]
                k2 != k ==> {
                    &&& tbl_get(t, k2) == if t[0].0 == k2 {
                        Some(t[0].1)
                    } else {
                        tbl_get(u, k2)
                    }
                    &&& tbl_get(s, k2) == if s[0].0 == k2 {
                        Some(s[0].1)
                    } else {
                        tbl_get(s.drop_first(), k2)
                    }
                });
        }
    }
}

/// Every key of an insert's result was a key of the input or is the new one.
proof fn lemma_tbl_insert_keys<V>(s: Seq<(u64, V)>, k: u64, v: V)
    ensures
        forall|i: int|
            0 <= i < tbl_sorted_insert(s, k, v).len() ==> (#[trigger] tbl_sorted_insert(
                s,
                k,
                v,
            )[i]).0 == k || exists|j: int|
                0 <= j < s.len() && s[j].0 == tbl_sorted_insert(s, k, v)[i].0,
    decreases s.len(),
{
    let t = tbl_sorted_insert(s, k, v);
    if s.len() == 0 {
    } else if k < s[0].0 {
        assert(forall|i: int| 1 <= i < t.len() ==> t[i] == s[i - 1]);
    } else {
        lemma_tbl_insert_keys(s.drop_first(), k, v);
        let u = tbl_sorted_insert(s.drop_first(), k, v);
        assert(forall|i: int| 1 <= i < t.len() ==> t[i] == u[i - 1]);
        assert(forall|i: int|
            0 <= i < u.len() && (#[trigger] u[i]).0 != k ==> exists|j: int|
                0 <= j < s.len() && s[j].0 == u[i].0) by {
            assert(forall|j: int|
                0 <= j < s.drop_first().len() ==> s.drop_first()[j] == s[j + 1]);
        }
    }
}

/// Appending an entry above every present key keeps the order and leaves
/// other lookups alone.
pub proof fn lemma_tbl_append<V>(s: Seq<(u64, V)>, k: u64, v: V)
    requires
        tbl_sorted(s),
        forall|i: int| 0 <= i < s.len() ==> (#[trigger] s[i]).0 < k,
    ensures
        tbl_sorted(s + seq![(k, v)]),
        tbl_get(s + seq![(k, v)], k) == Some(v),
        forall|k2: u64| k2 != k ==> tbl_get(s + seq![(k, v)], k2) == tbl_get(s, k2),
    decreases s.len(),
{
    let t = s + seq![(k, v)];
    if s.len() == 0 {
        assert(t =~= seq![(k, v)]);
        assert forall|k2: u64| k2 != k implies tbl_get(t, k2) == tbl_get(s, k2) by {
            assert(t.drop_first() =~= Seq::<(u64, V)>::empty());
            assert(tbl_get(t.drop_first(), k2) == None::<V>);
        }
    } else {
        lemma_tbl_sorted_drop_first(s);
        lemma_tbl_append(s.drop_first(), k, v);
        assert(t.drop_first() =~= s.drop_first() + seq![(k, v)]);
        assert(t[0] == s[0]);
        assert forall|k2: u64| k2 != k implies tbl_get(t, k2) == tbl_get(s, k2) by {
            assert(tbl_get(t, k2) == if t[0].0 == k2 {
                Some(t[0].1)
            } else {
                tbl_get(t.drop_first(), k2)
            });
            assert(tbl_get(s, k2) == if s[0].0 == k2 {
                Some(s[0].1)
            } else {
                tbl_get(s.drop_first(), k2)
            });
            assert(tbl_get(s.drop_first() + seq![(k, v)], k2) == tbl_get(s.drop_first(), k2));
        }
    }
}

/// One table of the store model.
pub struct Table<V> {
    entries: Vec<(u64, V)>,
}

impl<V> Table<V> {
    /// The entries in key order.
    pub closed spec fn view(&self) -> Seq<(u64, V)> {
        self.entries@
    }

    /// Entries are strictly ascending by key.
    pub open spec fn wf(&self) -> bool {
        tbl_sorted(self@)
    }

    pub open spec fn spec_get(&self, k: u64) -> Option<V> {
        tbl_get(self@, k)
    }

    pub fn new() -> (r: Table<V>)
        ensures
            r@ == Seq::<(u64, V)>::empty(),
            r.wf(),
    {
        Table { entries: Vec::new() }
    }

    pub fn len(&self) -> (r: usize)
        ensures
            r == self@.len(),
    {
        self.entries.len()
    }


    /// The entry at a position, as a range walk reads it.
    pub fn entry_at(&self, i: usize) -> (r: &(u64, V))
        requires
            i < self@.len(),
        ensures
            *r == self@[i as int],
    {
        &self.entries[i]
    }

    /// Looks the key up, as a read cursor's exact seek does.
    pub fn get(&self, k: u64) -> (r: Option<&V>)
        requires
            self.wf(),
        ensures
            match r {
                Some(v) => self.spec_get(k) == Some(*v),
                None => self.spec_get(k) is None,
            },
    {
        let n = self.entries.len();
        let mut i: usize = 0;
        proof {
            assert(self@.skip(0) =~= self@);
        }
        while i < n
            invariant
                n == self@.len(),
                0 <= i <= n,
                tbl_get(self@.skip(i as int), k) == tbl_get(self@, k),
            decreases n - i,
        {
            proof {
                assert(self@.skip(i as int)[0] == self@[i as int]);
                assert(self@.skip(i as int).drop_first() =~= self@.skip(i + 1));
            }
            if self.entries[i].0 == k {
                return Some(&self.entries[i].1);
            }
            i = i + 1;
        }
        proof {
            assert(self@.skip(n as int) =~= Seq::<(u64, V)>::empty());
        }
        None
    }

    /// The last entry, as a cursor's `last` does.
    pub fn last(&self) -> (r: Option<&(u64, V)>)
        ensures
            match r {
                Some(e) => self@.len() > 0 && *e == self@[self@.len() - 1],
                None => self@.len() == 0,
            },
    {
        let n = self.entries.len();
        if n == 0 {
            None
        } else {
            Some(&self.entries[n - 1])
        }
    }

    /// The first entry.
    pub fn first(&self) -> (r: Option<&(u64, V)>)
        ensures
            match r {
                Some(e) => self@.len() > 0 && *e == self@[0],
                None => self@.len() == 0,
            },
    {
        if self.entries.len() == 0 {
            None
        } else {
            Some(&self.entries[0])
        }
    }

    /// The entry under the smallest key strictly above `k`, as stepping a
    /// cursor once past `k` does.
    pub fn next_above(&self, k: u64) -> (r: Option<&(u64, V)>)
        requires
            self.wf(),
        ensures
            match r {
                Some(e) => tbl_next_above(self@, k) == Some(*e),
                None => tbl_next_above(self@, k) is None,
            },
    {
        let n = self.entries.len();
        let mut i: usize = 0;
        proof {
            assert(self@.skip(0) =~= self@);
        }
        while i < n
            invariant
                n == self@.len(),
                0 <= i <= n,
                tbl_next_above(self@.skip(i as int), k) == tbl_next_above(self@, k),
            decreases n - i,
        {
            proof {
                assert(self@.skip(i as int)[0] == self@[i as int]);
                assert(self@.skip(i as int).drop_first() =~= self@.skip(i + 1));
            }
            if self.entries[i].0 > k {
                return Some(&self.entries[i]);
            }
            i = i + 1;
        }
        proof {
            assert(self@.skip(n as int) =~= Seq::<(u64, V)>::empty());
        }
        None
    }

    /// Inserts under a fresh key, keeping the order; refuses a key that is
    /// already present, as a write cursor's `insert` does.
    pub fn insert(&mut self, k: u64, v: V) -> (r: bool)
        requires
            old(self).wf(),
        ensures
            final(self).wf(),
            r == !tbl_contains(old(self)@, k),
            r ==> final(self)@ == tbl_sorted_insert(old(self)@, k, v),
            !r ==> final(self)@ == old(self)@,
    {
        let ghost s0 = self@;
        let n = self.entries.len();
        let mut i: usize = 0;
        // find the insertion point: the first index whose key is >= k
        while i < n && self.entries[i].0 < k
            invariant
                n == self@.len(),
                0 <= i <= n,
                self@ == s0,
                forall|j: int| 0 <= j < i ==> (#[trigger] self@[j]).0 < k,
            decreases n - i,
        {
            i = i + 1;
        }
        if i < n && self.entries[i].0 == k {
            proof {
                lemma_tbl_index_get(s0, i as int);
            }
            return false;
        }
        self.entries.insert(i, (k, v));
        proof {
            lemma_tbl_not_contains_split(s0, k, i as int);
            lemma_tbl_sorted_insert_at(s0, k, v, i as int);
        }
        true
    }

    /// Appends under a key above every present one; refuses anything else,
    /// as a write cursor's `append` does.
    pub fn append(&mut self, k: u64, v: V) -> (r: bool)
        requires
            old(self).wf(),
        ensures
            final(self).wf(),
            r == (old(self)@.len() == 0 || old(self)@[old(self)@.len() - 1].0 < k),
            r ==> final(self)@ == old(self)@ + seq![(k, v)],
            !r ==> final(self)@ == old(self)@,
    {
        let n = self.entries.len();
        if n > 0 && self.entries[n - 1].0 >= k {
            return false;
        }
        proof {
            assert(forall|i: int|
                0 <= i < self@.len() ==> (#[trigger] self@[i]).0 < k) by {
                assert(forall|i: int|
                    0 <= i < self@.len() - 1 ==> (#[trigger] self@[i]).0 < self@[
                        self@.len() - 1].0);
            }
            lemma_tbl_append(self@, k, v);
        }
        self.entries.push((k, v));
        true
    }
}

/// If no prefix entry carries `k` and the split point's entry (when there
/// is one) lies at or above `k`, the whole sorted sequence misses `k`.
proof fn lemma_tbl_not_contains_split<V>(s: Seq<(u64, V)>, k: u64, i: int)
    requires
        tbl_sorted(s),
        0 <= i <= s.len(),
        forall|j: int| 0 <= j < i ==> (#[trigger] s[j]).0 < k,
        i < s.len() ==> s[i].0 > k,
    ensures
        !tbl_contains(s, k),
{
    match tbl_get(s, k) {
        Some(v) => {
            lemma_tbl_get_index(s, k);
            let w = choose|w: int| 0 <= w < s.len() && s[w] == (k, v);
            if w < i {
            } else {
                assert(s[i].0 <= s[w].0);
            }
        },
        None => {},
    }
}

/// On a sorted sequence, inserting at the scan's split point is the sorted
/// insert.
proof fn lemma_tbl_sorted_insert_at<V>(s: Seq<(u64, V)>, k: u64, v: V, i: int)
    requires
        tbl_sorted(s),
        0 <= i <= s.len(),
        forall|j: int| 0 <= j < i ==> (#[trigger] s[j]).0 < k,
        i < s.len() ==> s[i].0 > k,
    ensures
        s.insert(i, (k, v)) == tbl_sorted_insert(s, k, v),
    decreases s.len(),
{
    if s.len() == 0 {
        assert(s.insert(0, (k, v)) =~= seq![(k, v)]);
    } else if k < s[0].0 {
        assert(i == 0);
        assert(s.insert(0, (k, v)) =~= seq![(k, v)] + s);
    } else {
        assert(i >= 1);
        lemma_tbl_sorted_drop_first(s);
        assert(forall|j: int|
            0 <= j < i - 1 ==> (#[trigger] s.drop_first()[j]).0 < k);
        assert(i - 1 < s.drop_first().len() ==> s.drop_first()[i - 1].0 > k);
        lemma_tbl_sorted_insert_at(s.drop_first(), k, v, i - 1);
        assert(s.insert(i, (k, v)) =~= seq![s[0]] + s.drop_first().insert(i - 1, (k, v)));
    }
}

} // verus!
