use crate::coord::Coord;
use vstd::prelude::*;

verus! {

/// Map interpretation of a sequence of key-value entries: later entries win.
pub open spec fn seq_to_map<V>(s: Seq<(Coord, V)>) -> Map<Coord, V>
    decreases s.len(),
{
    if s.len() == 0 {
        Map::empty()
    } else {
        seq_to_map(s.drop_last()).insert(s.last().0, s.last().1)
    }
}

/// No two entries of the sequence share a key.
pub open spec fn distinct_keys<V>(s: Seq<(Coord, V)>) -> bool {
    forall|i: int, j: int| #![trigger s[i], s[j]]
        0 <= i < s.len() && 0 <= j < s.len() && i != j ==> s[i].0 != s[j].0
}

/// A finite map from coordinates to values, kept as a vector of entries with
/// pairwise distinct keys. It is the one store under the table: cells and
/// dependency edges both live in maps of this shape.
pub struct GridMap<V> {
    pub entries: Vec<(Coord, V)>,
}

impl<V> View for GridMap<V> {
    type V = Map<Coord, V>;

    open spec fn view(&self) -> Map<Coord, V> {
        seq_to_map(self.entries@)
    }
}

/// The entries of `seq_to_map(s)` are exactly the entries of `s`, and when
/// the keys are distinct the map has one entry per element of `s`.
pub proof fn lemma_seq_to_map_props<V>(s: Seq<(Coord, V)>)
    ensures
        seq_to_map(s).dom().finite(),
        distinct_keys(s) ==> seq_to_map(s).dom().len() == s.len(),
        forall|k: Coord| #[trigger]
            seq_to_map(s).contains_key(k) <==> exists|i: int| 0 <= i < s.len() && s[i].0 == k,
        distinct_keys(s) ==> forall|i: int|
            0 <= i < s.len() ==> seq_to_map(s)[(#[trigger] s[i]).0] == s[i].1,
    decreases s.len(),
{
    if s.len() == 0 {
    } else {
        let t = s.drop_last();
        lemma_seq_to_map_props(t);
        assert forall|k: Coord| #[trigger] seq_to_map(s).contains_key(k) implies exists|i: int|
            0 <= i < s.len() && s[i].0 == k by {
            if k == s.last().0 {
                assert(s[s.len() - 1].0 == k);
            } else {
                let i = choose|i: int| 0 <= i < t.len() && t[i].0 == k;
                assert(s[i].0 == k);
            }
        }
        assert forall|k: Coord| (exists|i: int| 0 <= i < s.len() && s[i].0 == k) implies seq_to_map(
            s,
        ).contains_key(k) by {
            let i = choose|i: int| 0 <= i < s.len() && s[i].0 == k;
            if i < s.len() - 1 {
                assert(t[i].0 == k);
            }
        }
        if distinct_keys(s) {
            assert(distinct_keys(t)) by {
                assert forall|i: int, j: int| #![trigger t[i], t[j]]
                    0 <= i < t.len() && 0 <= j < t.len() && i != j implies t[i].0 != t[j].0 by {
                    assert(s[i].0 != s[j].0);
                }
            }
            assert(!seq_to_map(t).contains_key(s.last().0)) by {
                if seq_to_map(t).contains_key(s.last().0) {
                    let i = choose|i: int| 0 <= i < t.len() && t[i].0 == s.last().0;
                    assert(s[i].0 == s[s.len() - 1].0);
                }
            }
            assert forall|i: int| 0 <= i < s.len() implies seq_to_map(s)[(#[trigger] s[i]).0]
                == s[i].1 by {
                if i < s.len() - 1 {
                    assert(s[i].0 != s.last().0);
                    assert(seq_to_map(t)[t[i].0] == t[i].1);
                }
            }
        }
    }
}

impl<V> GridMap<V> {
    /// The keys of the stored entries are pairwise distinct.
    pub open spec fn wf(&self) -> bool {
        distinct_keys(self.entries@)
    }

    /// The stored entry sequence, for callers that walk the map in order.
    pub open spec fn entries_seq(&self) -> Seq<(Coord, V)> {
        self.entries@
    }

    /// Make an empty map.
    pub fn new() -> (r: GridMap<V>)
        ensures
            r.wf(),
            r@ == Map::<Coord, V>::empty(),
            r.entries_seq() == Seq::<(Coord, V)>::empty(),
    {
        GridMap { entries: Vec::new() }
    }

    /// Number of entries.
    pub fn len(&self) -> (r: usize)
        requires
            self.wf(),
        ensures
            r == self@.dom().len(),
            r == self.entries_seq().len(),
    {
        proof {
            lemma_seq_to_map_props(self.entries@);
        }
        self.entries.len()
    }

    /// Key of the entry at position `i`.
    pub fn key_at(&self, i: usize) -> (r: Coord)
        requires
            self.wf(),
            i < self.entries_seq().len(),
        ensures
            r == self.entries_seq()[i as int].0,
            self@.contains_key(r),
            self@[r] == self.entries_seq()[i as int].1,
    {
        proof {
            lemma_seq_to_map_props(self.entries@);
        }
        self.entries[i].0
    }

    /// Borrow the value of the entry at position `i`.
    pub fn val_at(&self, i: usize) -> (r: &V)
        requires
            self.wf(),
            i < self.entries_seq().len(),
        ensures
            *r == self.entries_seq()[i as int].1,
    {
        &self.entries[i].1
    }

    /// Whether `k` has an entry.
    pub fn contains_key(&self, k: Coord) -> (r: bool)
        requires
            self.wf(),
        ensures
            r == self@.contains_key(k),
    {
        proof {
            lemma_seq_to_map_props(self.entries@);
        }
        let n = self.entries.len();
        let mut i: usize = 0;
        while i < n
            invariant
                self.wf(),
                n == self.entries@.len(),
                0 <= i <= n,
                forall|j: int| 0 <= j < i ==> (#[trigger] self.entries@[j]).0 != k,
            decreases n - i,
        {
            if self.entries[i].0 == k {
                proof {
                    lemma_seq_to_map_props(self.entries@);
                    assert(self.entries@[i as int].0 == k);
                }
                return true;
            }
            i += 1;
        }
        proof {
            assert(!seq_to_map(self.entries@).contains_key(k)) by {
                lemma_seq_to_map_props(self.entries@);
                if seq_to_map(self.entries@).contains_key(k) {
                    let j = choose|j: int| 0 <= j < self.entries@.len() && self.entries@[j].0 == k;
                }
            }
        }
        false
    }

    /// Borrow the value under `k`, if there is one.
    pub fn get(&self, k: Coord) -> (r: Option<&V>)
        requires
            self.wf(),
        ensures
            match r {
                Some(v) => self@.contains_key(k) && *v == self@[k],
                None => !self@.contains_key(k),
            },
    {
        proof {
            lemma_seq_to_map_props(self.entries@);
        }
        let n = self.entries.len();
        let mut i: usize = 0;
        while i < n
            invariant
                self.wf(),
                n == self.entries@.len(),
                0 <= i <= n,
                forall|j: int| 0 <= j < i ==> (#[trigger] self.entries@[j]).0 != k,
            decreases n - i,
        {
            if self.entries[i].0 == k {
                proof {
                    lemma_seq_to_map_props(self.entries@);
                    assert(self.entries@[i as int].0 == k);
                }
                return Some(&self.entries[i].1);
            }
            i += 1;
        }
        proof {
            assert(!seq_to_map(self.entries@).contains_key(k)) by {
                lemma_seq_to_map_props(self.entries@);
                if seq_to_map(self.entries@).contains_key(k) {
                    let j = choose|j: int| 0 <= j < self.entries@.len() && self.entries@[j].0 == k;
                }
            }
        }
        None
    }

    /// Store `v` under `k`, replacing any earlier value.
    pub fn insert(&mut self, k: Coord, v: V)
        requires
            old(self).wf(),
        ensures
            final (self).wf(),
            final (self)@ == old(self)@.insert(k, v),
            final (self)@.dom() == old(self)@.dom().insert(k),
    {
        proof {
            lemma_seq_to_map_props(self.entries@);
        }
        let n = self.entries.len();
        let mut i: usize = 0;
        while i < n
            invariant
                self.entries@ == old(self).entries@,
                distinct_keys(self.entries@),
                n == self.entries@.len(),
                0 <= i <= n,
                forall|j: int| 0 <= j < i ==> (#[trigger] self.entries@[j]).0 != k,
            decreases n - i,
        {
            if self.entries[i].0 == k {
                let ghost s0 = self.entries@;
                self.entries[i] = (k, v);
                proof {
                    assert(s0[i as int].0 == k);
                    lemma_seq_to_map_update(s0, i as int, v);
                    assert(seq_to_map(self.entries@) =~= seq_to_map(s0).insert(k, v));
                    assert(seq_to_map(self.entries@).dom() =~= seq_to_map(s0).dom().insert(k));
                }
                return ;
            }
            i += 1;
        }
        let ghost s0 = self.entries@;
        self.entries.push((k, v));
        proof {
            assert(self.entries@.drop_last() =~= s0);
            lemma_seq_to_map_props(s0);
            assert(!seq_to_map(s0).contains_key(k));
            assert(distinct_keys(self.entries@)) by {
                assert forall|a: int, b: int| #![trigger self.entries@[a], self.entries@[b]]
                    0 <= a < self.entries@.len() && 0 <= b < self.entries@.len() && a != b implies
                    self.entries@[a].0 != self.entries@[b].0 by {
                    if a < s0.len() && b < s0.len() {
                        assert(s0[a].0 != s0[b].0);
                    } else if a < s0.len() {
                        assert(s0[a].0 != k) by {
                            if s0[a].0 == k {
                                assert(seq_to_map(s0).contains_key(k));
                            }
                        }
                    } else {
                        assert(s0[b].0 != k) by {
                            if s0[b].0 == k {
                                assert(seq_to_map(s0).contains_key(k));
                            }
                        }
                    }
                }
            }
            assert(seq_to_map(self.entries@).dom() =~= seq_to_map(s0).dom().insert(k));
        }
    }
}

/// Overwriting the value of the entry at position `i` updates the map at
/// that entry's key, when keys are distinct.
proof fn lemma_seq_to_map_update<V>(s: Seq<(Coord, V)>, i: int, v: V)
    requires
        distinct_keys(s),
        0 <= i < s.len(),
    ensures
        seq_to_map(s.update(i, (s[i].0, v))) == seq_to_map(s).insert(s[i].0, v),
    decreases s.len(),
{
    let k = s[i].0;
    let su = s.update(i, (k, v));
    if i == s.len() - 1 {
        assert(su.drop_last() =~= s.drop_last());
        assert(su.last() == (k, v));
        assert(seq_to_map(su) == seq_to_map(s.drop_last()).insert(k, v));
        assert(seq_to_map(s.drop_last()).insert(k, s.last().1).insert(k, v) =~= seq_to_map(
            s.drop_last(),
        ).insert(k, v));
    } else {
        let t = s.drop_last();
        assert(distinct_keys(t)) by {
            assert forall|a: int, b: int| #![trigger t[a], t[b]]
                0 <= a < t.len() && 0 <= b < t.len() && a != b implies t[a].0 != t[b].0 by {
                assert(s[a].0 != s[b].0);
            }
        }
        lemma_seq_to_map_update(t, i, v);
        assert(su.drop_last() =~= t.update(i, (k, v)));
        assert(su.last() == s.last());
        assert(s.last().0 != k);
        assert(seq_to_map(su) == seq_to_map(t).insert(k, v).insert(s.last().0, s.last().1));
        assert(seq_to_map(t).insert(k, v).insert(s.last().0, s.last().1) =~= seq_to_map(t).insert(
            s.last().0,
            s.last().1,
        ).insert(k, v));
    }
}

} // verus!
