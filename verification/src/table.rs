//! A typed table keyed by outpoints, the shape every persisted table of the
//! engine shares. The entries are kept as a vector of key/value pairs with
//! pairwise-distinct keys; the mathematical view is the finite map from keys
//! to the values' views.
use vstd::prelude::*;

use crate::content::OutPoint;

verus! {

pub struct Table<V> {
    pub entries: Vec<(OutPoint, V)>,
}

/// Whether some entry carries the key `k`.
pub open spec fn has_key<V>(s: Seq<(OutPoint, V)>, k: OutPoint) -> bool {
    exists|i: int| 0 <= i < s.len() && s[i].0 == k
}

/// The index of the entry carrying `k`; meaningful only under
/// [`unique_keys`], which makes it the one such index.
pub open spec fn idx_of<V>(s: Seq<(OutPoint, V)>, k: OutPoint) -> int {
    choose|i: int| 0 <= i < s.len() && s[i].0 == k
}

pub open spec fn unique_keys<V>(s: Seq<(OutPoint, V)>) -> bool {
    forall|i: int, j: int| 0 <= i < j < s.len() ==> (#[trigger] s[i]).0 != (#[trigger] s[j]).0
}

/// The finite map a sequence of entries stands for.
pub open spec fn map_of<V: View>(s: Seq<(OutPoint, V)>) -> Map<OutPoint, V::V> {
    Map::new(|k: OutPoint| has_key(s, k), |k: OutPoint| s[idx_of(s, k)].1@)
}

impl<V: View> Table<V> {
    pub open spec fn wf(self) -> bool {
        unique_keys(self.entries@)
    }

    pub open spec fn key_seq(self) -> Seq<OutPoint> {
        Seq::new(self.entries@.len(), |i: int| self.entries@[i].0)
    }
}

impl<V: View> View for Table<V> {
    type V = Map<OutPoint, <V as View>::V>;

    open spec fn view(&self) -> Map<OutPoint, <V as View>::V> {
        map_of(self.entries@)
    }
}

/// Under unique keys, the entry at any index is the one `idx_of` picks for
/// its key.
pub proof fn lemma_idx_of_unique<V>(s: Seq<(OutPoint, V)>, i: int)
    requires
        unique_keys(s),
        0 <= i < s.len(),
    ensures
        has_key(s, s[i].0),
        idx_of(s, s[i].0) == i,
{
    let k = s[i].0;
    assert(has_key(s, k));
    let j = idx_of(s, k);
    assert(0 <= j < s.len() && s[j].0 == k);
    if i != j {
        assert(false);
    }
}

/// Under unique keys, the entry at any index is the one the map reports for
/// its key.
pub proof fn lemma_entry_is_map_value<V: View>(s: Seq<(OutPoint, V)>, i: int)
    requires
        unique_keys(s),
        0 <= i < s.len(),
    ensures
        map_of(s).dom().contains(s[i].0),
        map_of(s)[s[i].0] == s[i].1@,
        idx_of(s, s[i].0) == i,
{
    let k = s[i].0;
    assert(has_key(s, k));
    let j = idx_of(s, k);
    assert(0 <= j < s.len() && s[j].0 == k);
    if i != j {
        assert(false);
    }
}

impl<V: View> Table<V> {
    pub fn new() -> (r: Table<V>)
        ensures
            r.wf(),
            r@ == Map::<OutPoint, <V as View>::V>::empty(),
            r.entries@.len() == 0,
    {
        let r = Table { entries: Vec::new() };
        proof {
            assert(r@ =~= Map::<OutPoint, <V as View>::V>::empty());
        }
        r
    }

    /// Whether the entries carry pairwise-distinct keys; confirms `wf` at
    /// run time for a table that was not built by this library.
    pub fn check_unique_keys(&self) -> (r: bool)
        ensures
            r ==> self.wf(),
    {
        let n = self.entries.len();
        let mut i: usize = 0;
        while i < n
            invariant
                n == self.entries@.len(),
                i <= n,
                forall|a: int, b: int| 0 <= a < b < self.entries@.len() && a < i ==> (
                    #[trigger] self.entries@[a]).0 != (#[trigger] self.entries@[b]).0,
            decreases n - i,
        {
            let mut j: usize = i + 1;
            while j < n
                invariant
                    n == self.entries@.len(),
                    i < j || j == i + 1,
                    i < n,
                    j <= n,
                    forall|b: int| i < b < j ==> (#[trigger] self.entries@[b]).0
                        != self.entries@[i as int].0,
                decreases n - j,
            {
                if self.entries[i].0 == self.entries[j].0 {
                    return false;
                }
                j = j + 1;
            }
            proof {
                assert forall|a: int, b: int|
                    0 <= a < b < self.entries@.len() && a < i + 1 implies (
                    #[trigger] self.entries@[a]).0 != (#[trigger] self.entries@[b]).0 by {
                    if a == i {
                        assert(self.entries@[b].0 != self.entries@[i as int].0);
                    }
                }
            }
            i = i + 1;
        }
        true
    }

    /// The index of the entry carrying `k`, if any entry does.
    pub fn find(&self, k: &OutPoint) -> (r: Option<usize>)
        ensures
            match r {
                Some(i) => i < self.entries@.len() && self.entries@[i as int].0 == *k,
                None => !has_key(self.entries@, *k),
            },
    {
        let mut i: usize = 0;
        while i < self.entries.len()
            invariant
                i <= self.entries@.len(),
                forall|j: int| 0 <= j < i ==> (#[trigger] self.entries@[j]).0 != *k,
            decreases self.entries@.len() - i,
        {
            if self.entries[i].0 == *k {
                return Some(i);
            }
            i = i + 1;
        }
        None
    }

    pub fn get(&self, k: &OutPoint) -> (r: Option<&V>)
        requires
            self.wf(),
        ensures
            match r {
                Some(v) => self@.dom().contains(*k) && v@ == self@[*k],
                None => !self@.dom().contains(*k),
            },
    {
        match self.find(k) {
            Some(i) => {
                proof {
                    lemma_entry_is_map_value(self.entries@, i as int);
                }
                Some(&self.entries[i].1)
            },
            None => {
                proof {
                    assert(!has_key(self.entries@, *k));
                }
                None
            },
        }
    }

    pub fn contains_key(&self, k: &OutPoint) -> (r: bool)
        requires
            self.wf(),
        ensures
            r == self@.dom().contains(*k),
    {
        match self.get(k) {
            Some(_) => true,
            None => false,
        }
    }

    /// Binds `k` to `v`, replacing any entry that carried `k`.
    pub fn put(&mut self, k: OutPoint, v: V)
        requires
            old(self).wf(),
        ensures
            final(self).wf(),
            final(self)@ == old(self)@.insert(k, v@),
            old(self)@.dom().contains(k) ==> final(self).key_seq() == old(self).key_seq(),
            !old(self)@.dom().contains(k) ==> final(self).key_seq() == old(self).key_seq().push(k),
    {
        let ghost s0 = self.entries@;
        match self.find(&k) {
            Some(i) => {
                self.entries[i] = (k, v);
                proof {
                    let s1 = self.entries@;
                    assert(s1 == s0.update(i as int, (k, v)));
                    assert(unique_keys(s1));
                    lemma_entry_is_map_value(s0, i as int);
                    assert forall|q: OutPoint| has_key(s1, q) <==> has_key(s0, q) by {
                        if has_key(s1, q) {
                            let j = choose|j: int| 0 <= j < s1.len() && s1[j].0 == q;
                            assert(s0[j].0 == q);
                        }
                        if has_key(s0, q) {
                            let j = choose|j: int| 0 <= j < s0.len() && s0[j].0 == q;
                            assert(s1[j].0 == q);
                        }
                    }
                    assert forall|q: OutPoint| has_key(s1, q) implies #[trigger] map_of(s1)[q]
                        == old(self)@.insert(k, v@)[q] by {
                        let j = idx_of(s1, q);
                        lemma_entry_is_map_value(s1, j);
                        if q == k {
                            assert(j == i);
                        } else {
                            assert(j != i);
                            lemma_entry_is_map_value(s0, j);
                        }
                    }
                    assert(map_of(s1) =~= old(self)@.insert(k, v@));
                    assert(final(self).key_seq() =~= old(self).key_seq());
                }
            },
            None => {
                self.entries.push((k, v));
                proof {
                    let s1 = self.entries@;
                    assert(s1 == s0.push((k, v)));
                    assert forall|i: int, j: int| 0 <= i < j < s1.len() implies (
                        #[trigger] s1[i]).0 != (#[trigger] s1[j]).0 by {
                        if j < s0.len() {
                        } else {
                            assert(s1[j].0 == k);
                            assert(s1[i].0 == s0[i].0);
                        }
                    }
                    assert forall|q: OutPoint| has_key(s1, q) implies #[trigger] map_of(s1)[q]
                        == old(self)@.insert(k, v@)[q] by {
                        let j = idx_of(s1, q);
                        lemma_entry_is_map_value(s1, j);
                        if j < s0.len() {
                            lemma_entry_is_map_value(s0, j);
                        }
                    }
                    assert forall|q: OutPoint| has_key(s0, q) implies has_key(s1, q) by {
                        let j = choose|j: int| 0 <= j < s0.len() && s0[j].0 == q;
                        assert(s1[j].0 == q);
                    }
                    assert(has_key(s1, k)) by {
                        assert(s1[s1.len() - 1].0 == k);
                    }
                    assert(map_of(s1) =~= old(self)@.insert(k, v@));
                    assert(final(self).key_seq() =~= old(self).key_seq().push(k));
                }
            },
        }
    }

    /// Removes the entry carrying `k`, if any entry does.
    pub fn delete(&mut self, k: &OutPoint)
        requires
            old(self).wf(),
        ensures
            final(self).wf(),
            final(self)@ == old(self)@.remove(*k),
    {
        let ghost s0 = self.entries@;
        match self.find(k) {
            Some(i) => {
                self.entries.remove(i);
                proof {
                    let s1 = self.entries@;
                    assert(s1 == s0.remove(i as int));
                    lemma_entry_is_map_value(s0, i as int);
                    assert forall|a: int, b: int| 0 <= a < b < s1.len() implies (
                        #[trigger] s1[a]).0 != (#[trigger] s1[b]).0 by {
                        let a0 = if a < i { a } else { a + 1 };
                        let b0 = if b < i { b } else { b + 1 };
                        assert(s1[a] == s0[a0]);
                        assert(s1[b] == s0[b0]);
                    }
                    assert forall|q: OutPoint| has_key(s1, q) implies #[trigger] map_of(s1)[q]
                        == old(self)@.remove(*k)[q] by {
                        let j = idx_of(s1, q);
                        lemma_entry_is_map_value(s1, j);
                        let j0 = if j < i { j } else { j + 1 };
                        assert(s1[j] == s0[j0]);
                        lemma_entry_is_map_value(s0, j0);
                    }
                    assert forall|q: OutPoint| has_key(s0, q) && q != *k implies has_key(s1, q) by {
                        let j = choose|j: int| 0 <= j < s0.len() && s0[j].0 == q;
                        if j < i {
                            assert(s1[j].0 == q);
                        } else {
                            assert(s1[j - 1].0 == q);
                        }
                    }
                    assert(!has_key(s1, *k));
                    assert(map_of(s1) =~= old(self)@.remove(*k));
                }
            },
            None => {
                proof {
                    assert(map_of(s0) =~= old(self)@.remove(*k));
                }
            },
        }
    }

    pub fn len(&self) -> (r: usize)
        ensures
            r == self.entries@.len(),
    {
        self.entries.len()
    }
}

} // verus!
