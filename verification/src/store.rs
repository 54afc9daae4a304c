//! A keyed table of records: the one storage primitive of the ledger.
//!
//! A `Table` holds at most one value per `Key`. Its view is the sequence of
//! entries; contracts abstract it further through `as_map`, and the
//! conservation proofs fold over it through `sum_by`.

use crate::records::Key;
use vstd::prelude::*;

verus! {

/// The value under key `k`, taking the latest entry should a sequence ever
/// hold duplicates; a well-formed table holds none.
pub open spec fn lookup<V>(s: Seq<(Key, V)>, k: Key) -> Option<V>
    decreases s.len(),
{
    if s.len() == 0 {
        None
    } else if s.last().0 == k {
        Some(s.last().1)
    } else {
        lookup(s.drop_last(), k)
    }
}

/// No two entries share a key.
pub open spec fn unique_keys<V>(s: Seq<(Key, V)>) -> bool {
    forall|i: int, j: int|
        0 <= i < j < s.len() ==> (#[trigger] s[i]).0 != (#[trigger] s[j]).0
}

/// The finite map the entry sequence denotes; later entries win, which
/// agrees with `lookup`.
pub open spec fn as_map<V>(s: Seq<(Key, V)>) -> Map<Key, V>
    decreases s.len(),
{
    if s.len() == 0 {
        Map::empty()
    } else {
        as_map(s.drop_last()).insert(s.last().0, s.last().1)
    }
}

/// Fold of `f` over the entries: the sums the conservation laws speak of.
pub open spec fn sum_by<V>(s: Seq<(Key, V)>, f: spec_fn((Key, V)) -> int) -> int
    decreases s.len(),
{
    if s.len() == 0 {
        0
    } else {
        sum_by(s.drop_last(), f) + f(s.last())
    }
}

/// `lookup` and `as_map` agree on every key.
pub proof fn lemma_lookup_as_map<V>(s: Seq<(Key, V)>, k: Key)
    ensures
        lookup(s, k) == (if as_map(s).dom().contains(k) {
            Some(as_map(s)[k])
        } else {
            None::<V>
        }),
    decreases s.len(),
{
    if s.len() == 0 {
    } else if s.last().0 == k {
    } else {
        lemma_lookup_as_map(s.drop_last(), k);
    }
}

/// A key absent from every entry is absent from the lookup.
pub proof fn lemma_lookup_absent<V>(s: Seq<(Key, V)>, k: Key)
    requires
        forall|i: int| 0 <= i < s.len() ==> (#[trigger] s[i]).0 != k,
    ensures
        lookup(s, k) is None,
    decreases s.len(),
{
    if s.len() > 0 {
        assert(s.last() == s[s.len() - 1]);
        assert forall|i: int| 0 <= i < s.drop_last().len() implies (#[trigger] s.drop_last()[i]).0
            != k by {
            assert(s.drop_last()[i] == s[i]);
        }
        lemma_lookup_absent(s.drop_last(), k);
    }
}

/// With unique keys, the entry at any index is what `lookup` returns.
pub proof fn lemma_lookup_at<V>(s: Seq<(Key, V)>, i: int)
    requires
        unique_keys(s),
        0 <= i < s.len(),
    ensures
        lookup(s, s[i].0) == Some(s[i].1),
    decreases s.len(),
{
    if i == s.len() - 1 {
        assert(s.last() == s[i]);
    } else {
        assert(s.last() == s[s.len() - 1]);
        assert(s[i].0 != s[s.len() - 1].0);
        assert forall|i2: int, j2: int|
            0 <= i2 < j2 < s.drop_last().len() implies (#[trigger] s.drop_last()[i2]).0 != (
        #[trigger] s.drop_last()[j2]).0 by {
            assert(s.drop_last()[i2] == s[i2]);
            assert(s.drop_last()[j2] == s[j2]);
        }
        assert(s.drop_last()[i] == s[i]);
        lemma_lookup_at(s.drop_last(), i);
    }
}

/// A present key is present at some index.
pub proof fn lemma_lookup_index<V>(s: Seq<(Key, V)>, k: Key)
    requires
        lookup(s, k) is Some,
    ensures
        exists|i: int|
            0 <= i < s.len() && (#[trigger] s[i]) == (k, lookup(s, k).unwrap()),
    decreases s.len(),
{
    if s.last().0 == k {
        assert(s[s.len() - 1] == (k, lookup(s, k).unwrap()));
    } else {
        lemma_lookup_index(s.drop_last(), k);
        let i = choose|i: int|
            0 <= i < s.drop_last().len() && (#[trigger] s.drop_last()[i]) == (
            k,
            lookup(s.drop_last(), k).unwrap(),
            );
        assert(s[i] == s.drop_last()[i]);
    }
}

/// Overwriting the entry at `i` inserts into the map.
pub proof fn lemma_as_map_update<V>(s: Seq<(Key, V)>, i: int, v: V)
    requires
        unique_keys(s),
        0 <= i < s.len(),
    ensures
        as_map(s.update(i, (s[i].0, v))) == as_map(s).insert(s[i].0, v),
    decreases s.len(),
{
    let k = s[i].0;
    let t = s.update(i, (k, v));
    if i == s.len() - 1 {
        assert(t.drop_last() =~= s.drop_last());
        assert(t.last() == (k, v));
        assert(as_map(t) == as_map(s.drop_last()).insert(k, v));
        assert(as_map(s.drop_last()).insert(s.last().0, s.last().1).insert(k, v) =~= as_map(
            s.drop_last(),
        ).insert(k, v));
    } else {
        assert(t.last() == s.last());
        assert(t.drop_last() =~= s.drop_last().update(i, (k, v)));
        assert forall|i2: int, j2: int|
            0 <= i2 < j2 < s.drop_last().len() implies (#[trigger] s.drop_last()[i2]).0 != (
        #[trigger] s.drop_last()[j2]).0 by {
            assert(s.drop_last()[i2] == s[i2]);
            assert(s.drop_last()[j2] == s[j2]);
        }
        assert(s.drop_last()[i] == s[i]);
        lemma_as_map_update(s.drop_last(), i, v);
        assert(s.last() == s[s.len() - 1]);
        assert(k != s.last().0);
        assert(as_map(s.drop_last()).insert(k, v).insert(s.last().0, s.last().1) =~= as_map(
            s.drop_last(),
        ).insert(s.last().0, s.last().1).insert(k, v));
    }
}

/// Appending a fresh entry inserts into the map.
pub proof fn lemma_as_map_push<V>(s: Seq<(Key, V)>, k: Key, v: V)
    ensures
        as_map(s.push((k, v))) == as_map(s).insert(k, v),
{
    assert(s.push((k, v)).drop_last() =~= s);
    assert(s.push((k, v)).last() == (k, v));
}

/// Deleting the entry at `i` removes its key from the map.
pub proof fn lemma_as_map_remove<V>(s: Seq<(Key, V)>, i: int)
    requires
        unique_keys(s),
        0 <= i < s.len(),
    ensures
        as_map(s.remove(i)) == as_map(s).remove(s[i].0),
    decreases s.len(),
{
    let k = s[i].0;
    let t = s.remove(i);
    if i == s.len() - 1 {
        assert(t =~= s.drop_last());
        assert forall|j: int| 0 <= j < s.drop_last().len() implies (#[trigger] s.drop_last()[j]).0
            != k by {
            assert(s.drop_last()[j] == s[j]);
            assert(s[s.len() - 1] == s[i]);
        }
        lemma_lookup_absent(s.drop_last(), k);
        lemma_lookup_as_map(s.drop_last(), k);
        assert(s.last() == s[i]);
        assert(as_map(s.drop_last()).insert(k, s[i].1).remove(k) =~= as_map(s.drop_last()));
    } else {
        assert(t.len() == s.len() - 1);
        assert(t[t.len() - 1] == s[s.len() - 1]);
        assert(t.last() == s.last());
        assert(t.drop_last() =~= s.drop_last().remove(i));
        assert forall|i2: int, j2: int|
            0 <= i2 < j2 < s.drop_last().len() implies (#[trigger] s.drop_last()[i2]).0 != (
        #[trigger] s.drop_last()[j2]).0 by {
            assert(s.drop_last()[i2] == s[i2]);
            assert(s.drop_last()[j2] == s[j2]);
        }
        assert(s.drop_last()[i] == s[i]);
        lemma_as_map_remove(s.drop_last(), i);
        assert(s.last() == s[s.len() - 1]);
        assert(k != s.last().0);
        assert(as_map(s.drop_last()).remove(k).insert(s.last().0, s.last().1) =~= as_map(
            s.drop_last(),
        ).insert(s.last().0, s.last().1).remove(k));
    }
}

/// The fold grows by `f` of a pushed entry.
pub proof fn lemma_sum_push<V>(s: Seq<(Key, V)>, f: spec_fn((Key, V)) -> int, e: (Key, V))
    ensures
        sum_by(s.push(e), f) == sum_by(s, f) + f(e),
{
    assert(s.push(e).drop_last() =~= s);
    assert(s.push(e).last() == e);
}

/// The fold shifts by the difference at an updated index.
pub proof fn lemma_sum_update<V>(s: Seq<(Key, V)>, f: spec_fn((Key, V)) -> int, i: int, e: (Key, V))
    requires
        0 <= i < s.len(),
    ensures
        sum_by(s.update(i, e), f) == sum_by(s, f) - f(s[i]) + f(e),
    decreases s.len(),
{
    let t = s.update(i, e);
    if i == s.len() - 1 {
        assert(t.drop_last() =~= s.drop_last());
        assert(t.last() == e);
        assert(s.last() == s[i]);
    } else {
        assert(t.last() == s.last());
        assert(t.drop_last() =~= s.drop_last().update(i, e));
        assert(s.drop_last()[i] == s[i]);
        lemma_sum_update(s.drop_last(), f, i, e);
    }
}

/// The fold drops by `f` of a removed entry.
pub proof fn lemma_sum_remove<V>(s: Seq<(Key, V)>, f: spec_fn((Key, V)) -> int, i: int)
    requires
        0 <= i < s.len(),
    ensures
        sum_by(s.remove(i), f) == sum_by(s, f) - f(s[i]),
    decreases s.len(),
{
    let t = s.remove(i);
    if i == s.len() - 1 {
        assert(t =~= s.drop_last());
        assert(s.last() == s[i]);
    } else {
        assert(t.len() == s.len() - 1);
        assert(t[t.len() - 1] == s[s.len() - 1]);
        assert(t.last() == s.last());
        assert(t.drop_last() =~= s.drop_last().remove(i));
        assert(s.drop_last()[i] == s[i]);
        lemma_sum_remove(s.drop_last(), f, i);
    }
}

/// A fold of a pointwise non-negative `f` is non-negative.
pub proof fn lemma_sum_nonneg<V>(s: Seq<(Key, V)>, f: spec_fn((Key, V)) -> int)
    requires
        forall|e: (Key, V)| #[trigger] f(e) >= 0,
    ensures
        sum_by(s, f) >= 0,
    decreases s.len(),
{
    if s.len() > 0 {
        lemma_sum_nonneg(s.drop_last(), f);
    }
}

/// A fold of a pointwise non-negative `f` dominates `f` at any one index.
pub proof fn lemma_sum_elem<V>(s: Seq<(Key, V)>, f: spec_fn((Key, V)) -> int, i: int)
    requires
        forall|e: (Key, V)| #[trigger] f(e) >= 0,
        0 <= i < s.len(),
    ensures
        sum_by(s, f) >= f(s[i]),
    decreases s.len(),
{
    if i == s.len() - 1 {
        assert(s.last() == s[i]);
        lemma_sum_nonneg(s.drop_last(), f);
    } else {
        assert(s.drop_last()[i] == s[i]);
        lemma_sum_elem(s.drop_last(), f, i);
    }
}

/// A keyed table: at most one value per key, linear storage.
pub struct Table<V> {
    entries: Vec<(Key, V)>,
}

impl<V> View for Table<V> {
    type V = Seq<(Key, V)>;

    closed spec fn view(&self) -> Seq<(Key, V)> {
        self.entries@
    }
}

impl<V: Copy> Table<V> {
    /// Every key occurs at most once.
    pub open spec fn wf(&self) -> bool {
        unique_keys(self@)
    }

    pub fn new() -> (t: Table<V>)
        ensures
            t@ == Seq::<(Key, V)>::empty(),
            t.wf(),
    {
        Table { entries: Vec::new() }
    }

    /// The index holding `k`, or the certainty that none does.
    fn position(&self, k: Key) -> (r: Option<usize>)
        ensures
            match r {
                Some(i) => i < self@.len() && self@[i as int].0 == k,
                None => forall|j: int| 0 <= j < self@.len() ==> (#[trigger] self@[j]).0 != k,
            },
    {
        let n = self.entries.len();
        let mut i: usize = 0;
        while i < n
            invariant
                n == self@.len(),
                i <= n,
                forall|j: int| 0 <= j < i ==> (#[trigger] self@[j]).0 != k,
            decreases n - i,
        {
            if self.entries[i].0 == k {
                return Some(i);
            }
            i = i + 1;
        }
        None
    }

    /// The value under `k`, if any.
    pub fn get(&self, k: Key) -> (r: Option<V>)
        requires
            self.wf(),
        ensures
            r == (if as_map(self@).dom().contains(k) {
                Some(as_map(self@)[k])
            } else {
                None::<V>
            }),
    {
        proof {
            lemma_lookup_as_map(self@, k);
        }
        match self.position(k) {
            Some(i) => {
                proof {
                    lemma_lookup_at(self@, i as int);
                }
                Some(self.entries[i].1)
            },
            None => {
                proof {
                    lemma_lookup_absent(self@, k);
                }
                None
            },
        }
    }

    /// Writes `v` under `k`, inserting or overwriting.
    pub fn put(&mut self, k: Key, v: V)
        requires
            old(self).wf(),
        ensures
            final(self).wf(),
            as_map(final(self)@) == as_map(old(self)@).insert(k, v),
            forall|f: spec_fn((Key, V)) -> int|
                #[trigger] sum_by(final(self)@, f) == (if as_map(old(self)@).dom().contains(k) {
                    sum_by(old(self)@, f) - f((k, as_map(old(self)@)[k])) + f((k, v))
                } else {
                    sum_by(old(self)@, f) + f((k, v))
                }),
    {
        proof {
            lemma_lookup_as_map(self@, k);
        }
        match self.position(k) {
            Some(i) => {
                proof {
                    lemma_lookup_at(self@, i as int);
                    lemma_as_map_update(self@, i as int, v);
                    assert forall|f: spec_fn((Key, V)) -> int|
                        #[trigger] sum_by(old(self)@.update(i as int, (k, v)), f) == sum_by(
                        old(self)@,
                        f,
                    ) - f((k, as_map(old(self)@)[k])) + f((k, v)) by {
                        lemma_sum_update(old(self)@, f, i as int, (k, v));
                        assert(old(self)@[i as int] == (k, as_map(old(self)@)[k]));
                    }
                }
                self.entries[i] = (k, v);
                proof {
                    assert forall|i2: int, j2: int|
                        0 <= i2 < j2 < self@.len() implies (#[trigger] self@[i2]).0 != (
                    #[trigger] self@[j2]).0 by {
                        if i2 != i as int && j2 != i as int {
                            assert(self@[i2] == old(self)@[i2]);
                            assert(self@[j2] == old(self)@[j2]);
                        } else if i2 == i as int {
                            assert(self@[j2] == old(self)@[j2]);
                            lemma_lookup_at(old(self)@, j2);
                        } else {
                            assert(self@[i2] == old(self)@[i2]);
                            lemma_lookup_at(old(self)@, i2);
                        }
                    }
                }
            },
            None => {
                proof {
                    lemma_lookup_absent(self@, k);
                    lemma_as_map_push(self@, k, v);
                    assert forall|f: spec_fn((Key, V)) -> int|
                        #[trigger] sum_by(old(self)@.push((k, v)), f) == sum_by(old(self)@, f) + f(
                            (k, v),
                        ) by {
                        lemma_sum_push(old(self)@, f, (k, v));
                    }
                }
                self.entries.push((k, v));
                proof {
                    assert forall|i2: int, j2: int|
                        0 <= i2 < j2 < self@.len() implies (#[trigger] self@[i2]).0 != (
                    #[trigger] self@[j2]).0 by {
                        if j2 < self@.len() - 1 {
                            assert(self@[i2] == old(self)@[i2]);
                            assert(self@[j2] == old(self)@[j2]);
                        } else {
                            assert(self@[i2] == old(self)@[i2]);
                            assert(self@[j2] == (k, v));
                        }
                    }
                }
            },
        }
    }

    /// Deletes the entry under `k`, which must exist.
    pub fn remove(&mut self, k: Key)
        requires
            old(self).wf(),
            as_map(old(self)@).dom().contains(k),
        ensures
            final(self).wf(),
            as_map(final(self)@) == as_map(old(self)@).remove(k),
            forall|f: spec_fn((Key, V)) -> int|
                #[trigger] sum_by(final(self)@, f) == sum_by(old(self)@, f) - f(
                    (k, as_map(old(self)@)[k]),
                ),
    {
        proof {
            lemma_lookup_as_map(self@, k);
        }
        match self.position(k) {
            Some(i) => {
                proof {
                    lemma_lookup_at(self@, i as int);
                    lemma_as_map_remove(self@, i as int);
                    assert forall|f: spec_fn((Key, V)) -> int|
                        #[trigger] sum_by(old(self)@.remove(i as int), f) == sum_by(old(self)@, f)
                            - f((k, as_map(old(self)@)[k])) by {
                        lemma_sum_remove(old(self)@, f, i as int);
                        assert(old(self)@[i as int] == (k, as_map(old(self)@)[k]));
                    }
                }
                self.entries.remove(i);
                proof {
                    assert forall|i2: int, j2: int|
                        0 <= i2 < j2 < self@.len() implies (#[trigger] self@[i2]).0 != (
                    #[trigger] self@[j2]).0 by {
                        let s0 = old(self)@;
                        let a = if i2 < i as int {
                            i2
                        } else {
                            i2 + 1
                        };
                        let b = if j2 < i as int {
                            j2
                        } else {
                            j2 + 1
                        };
                        assert(self@[i2] == s0[a]);
                        assert(self@[j2] == s0[b]);
                    }
                }
            },
            None => {
                proof {
                    lemma_lookup_absent(self@, k);
                    assert(false);
                }
            },
        }
    }
}

} // verus!
