use crate::coord::Coord;
use crate::graph::{
    contains_coord, edge, lemma_closed_catches_path, lemma_edge_reaches, lemma_push_props,
    lemma_reaches_extend, reaches,
};
use crate::gridmap::GridMap;
use vstd::prelude::*;
use vstd::set_lib::lemma_len_subset;

verus! {

/// Every coordinate that an adjacency store mentions: its keys and every
/// target in any of its lists.
pub open spec fn nodes_of(s: Seq<(Coord, Vec<Coord>)>) -> Set<Coord>
    decreases s.len(),
{
    if s.len() == 0 {
        Set::empty()
    } else {
        nodes_of(s.drop_last()).insert(s.last().0).union(s.last().1@.to_set())
    }
}

/// The mentioned coordinates are finitely many, they include every key, and
/// they include every listed target.
proof fn lemma_nodes_of_props(s: Seq<(Coord, Vec<Coord>)>)
    ensures
        nodes_of(s).finite(),
        forall|i: int| 0 <= i < s.len() ==> nodes_of(s).contains((#[trigger] s[i]).0),
        forall|i: int, b: Coord| #![trigger s[i].1@.contains(b)]
            0 <= i < s.len() && s[i].1@.contains(b) ==> nodes_of(s).contains(b),
    decreases s.len(),
{
    broadcast use vstd::seq_lib::seq_to_set_is_finite;

    if s.len() == 0 {
    } else {
        let t = s.drop_last();
        lemma_nodes_of_props(t);
        assert forall|i: int| 0 <= i < s.len() implies nodes_of(s).contains(
            (#[trigger] s[i]).0,
        ) by {
            if i < s.len() - 1 {
                assert(t[i] == s[i]);
                assert(nodes_of(t).contains(s[i].0));
            }
        }
        assert forall|i: int, b: Coord| #![trigger s[i].1@.contains(b)]
            0 <= i < s.len() && s[i].1@.contains(b) implies nodes_of(s).contains(
            b,
        ) by {
            if i < s.len() - 1 {
                assert(t[i] == s[i]);
                assert(nodes_of(t).contains(b));
            } else {
                assert(s.last().1@.to_set().contains(b));
            }
        }
    }
}

/// Keep, for every coordinate of the sequence, only its last occurrence,
/// preserving the order of what remains; reading from position `i` on.
pub open spec fn dedup_keep_last_from(s: Seq<Coord>, i: int) -> Seq<Coord>
    decreases s.len() - i,
{
    if i < 0 || i >= s.len() {
        Seq::empty()
    } else if s.subrange(i + 1, s.len() as int).contains(s[i]) {
        dedup_keep_last_from(s, i + 1)
    } else {
        seq![s[i]] + dedup_keep_last_from(s, i + 1)
    }
}

/// Keep only the last occurrence of each coordinate, in order.
pub open spec fn dedup_keep_last(s: Seq<Coord>) -> Seq<Coord> {
    dedup_keep_last_from(s, 0)
}

/// A simple work list for propagation: gather the edited cell and everything
/// that depends on it, with repetition, then squeeze the list so that only
/// the last occurrence of each coordinate stays. Note that the squeezed
/// order is not a topological one under diamond shapes; the table orders the
/// affected closure with `affected_closure_topo_order` instead.
pub struct CellUpdater {
    pub to_update: Vec<Coord>,
}

/// The affected closure of `cell_to_update` as a list: the coordinate itself
/// first, then every coordinate that transitively depends on it under the
/// given reverse adjacency, each exactly once.
fn gather_list(cell_to_update: Coord, referenced_by: &GridMap<Vec<Coord>>) -> (r: Vec<Coord>)
    requires
        referenced_by.wf(),
    ensures
        r@.len() > 0,
        r@[0] == cell_to_update,
        forall|x: Coord| #[trigger]
            r@.contains(x) <==> (x == cell_to_update || reaches(
                graph_view(referenced_by),
                cell_to_update,
                x,
            )),
{
        let ghost g = graph_view(referenced_by);
        let ghost uni = nodes_of(referenced_by.entries@).insert(cell_to_update);
        proof {
            lemma_nodes_of_props(referenced_by.entries@);
            crate::gridmap::lemma_seq_to_map_props(referenced_by.entries@);
            assert(uni.finite());
            assert forall|a: Coord, b: Coord| #[trigger] edge(g, a, b) implies uni.contains(b) by {
                assert(referenced_by@.contains_key(a));
                let i = choose|i: int|
                    0 <= i < referenced_by.entries@.len() && referenced_by.entries@[i].0 == a;
                assert(referenced_by.entries@[i].1@.contains(b));
            }
        }
        let mut worklist: Vec<Coord> = Vec::new();
        worklist.push(cell_to_update);
        let mut visited: Vec<Coord> = Vec::new();
        proof {
            assert(worklist@[0] == cell_to_update);
            assert(worklist@.contains(cell_to_update));
        }
        while worklist.len() > 0
            invariant
                referenced_by.wf(),
                g == graph_view(referenced_by),
                uni == nodes_of(referenced_by.entries@).insert(cell_to_update),
                uni.finite(),
                forall|a: Coord, b: Coord| #[trigger] edge(g, a, b) ==> uni.contains(b),
                visited@.no_duplicates(),
                forall|v: Coord| #[trigger] visited@.contains(v) ==> uni.contains(v),
                forall|v: Coord| #[trigger] worklist@.contains(v) ==> uni.contains(v),
                forall|v: Coord| #[trigger]
                    visited@.contains(v) ==> (v == cell_to_update || reaches(g, cell_to_update, v)),
                forall|v: Coord| #[trigger]
                    worklist@.contains(v) ==> (v == cell_to_update || reaches(
                        g,
                        cell_to_update,
                        v,
                    )),
                visited@.contains(cell_to_update) || worklist@.contains(cell_to_update),
                visited@.len() > 0 ==> visited@[0] == cell_to_update,
                visited@.len() == 0 ==> worklist@ == seq![cell_to_update],
                forall|v: Coord, b: Coord|
                    visited@.contains(v) && #[trigger] edge(g, v, b) ==> (visited@.contains(b)
                        || worklist@.contains(b)),
            decreases uni.len() - visited@.len(), worklist@.len(),
        {
            proof {
                visited@.unique_seq_to_set();
                assert(visited@.to_set().subset_of(uni));
                lemma_len_subset(visited@.to_set(), uni);
            }
            let ghost wl0 = worklist@;
            let x = match worklist.pop() {
                Some(c) => c,
                None => {
                    return Vec::new();
                },
            };
            proof {
                assert(wl0[wl0.len() - 1] == x);
                assert(wl0.contains(x));
                assert forall|b: Coord| wl0.contains(b) && b != x implies
                    worklist@.contains(b) by {
                    let idx = choose|idx: int| 0 <= idx < wl0.len() && wl0[idx] == b;
                    assert(idx < wl0.len() - 1);
                    assert(worklist@[idx] == b);
                }
                assert forall|v: Coord| #[trigger] worklist@.contains(v) implies wl0.contains(
                    v,
                ) by {
                    let idx = choose|idx: int| 0 <= idx < worklist@.len() && worklist@[idx] == v;
                    assert(wl0[idx] == v);
                }
            }
            if contains_coord(&visited, x) {
                proof {
                    assert forall|v: Coord, b: Coord|
                        visited@.contains(v) && #[trigger] edge(g, v, b) implies (
                    visited@.contains(b) || worklist@.contains(b)) by {
                        if b != x {
                            assert(visited@.contains(b) || wl0.contains(b));
                        }
                    }
                }
            } else {
                proof {
                    if visited@.len() == 0 {
                        assert(wl0 == seq![cell_to_update]);
                        assert(x == wl0[0]);
                        assert(x == cell_to_update);
                    }
                }
                let ghost vis0 = visited@;
                visited.push(x);
                proof {
                    assert(!vis0.contains(x));
                    lemma_push_props(vis0, x);
                    assert(visited@[vis0.len() as int] == x);
                    assert(visited@.contains(x));
                    broadcast use vstd::seq_lib::lemma_seq_contains_after_push;

                }
                let succ_opt = referenced_by.get(x);
                if let Some(sv) = succ_opt {
                    let m = sv.len();
                    let mut j: usize = 0;
                    while j < m
                        invariant
                            referenced_by.wf(),
                            g == graph_view(referenced_by),
                            uni == nodes_of(referenced_by.entries@).insert(cell_to_update),
                            uni.finite(),
                            forall|a: Coord, b: Coord| #[trigger] edge(g, a, b) ==> uni.contains(b),
                            m == sv@.len(),
                            0 <= j <= m,
                            sv@ == referenced_by@[x]@,
                            referenced_by@.contains_key(x),
                            visited@.no_duplicates(),
                            visited@.contains(x),
                            x == cell_to_update || reaches(g, cell_to_update, x),
                            forall|v: Coord| #[trigger] visited@.contains(v) ==> uni.contains(v),
                            forall|v: Coord| #[trigger] worklist@.contains(v) ==> uni.contains(v),
                            forall|v: Coord| #[trigger]
                                visited@.contains(v) ==> (v == cell_to_update || reaches(
                                    g,
                                    cell_to_update,
                                    v,
                                )),
                            forall|v: Coord| #[trigger]
                                worklist@.contains(v) ==> (v == cell_to_update || reaches(
                                    g,
                                    cell_to_update,
                                    v,
                                )),
                            visited@.contains(cell_to_update) || worklist@.contains(cell_to_update),
                            visited@.len() > 0 && visited@[0] == cell_to_update,
                            forall|v: Coord, b: Coord|
                                visited@.contains(v) && v != x && #[trigger] edge(g, v, b) ==> (
                                visited@.contains(b) || worklist@.contains(b)),
                            forall|mm: int|
                                0 <= mm < j ==> worklist@.contains(#[trigger] sv@[mm]),
                        decreases m - j,
                    {
                        let s = sv[j];
                        proof {
                            assert(sv@[j as int] == s);
                            assert(referenced_by@[x]@.contains(s));
                            assert(edge(g, x, s));
                            assert(uni.contains(s));
                            if x == cell_to_update {
                                lemma_edge_reaches(g, cell_to_update, s);
                            } else {
                                lemma_reaches_extend(g, cell_to_update, x, s);
                            }
                        }
                        let ghost wli = worklist@;
                        worklist.push(s);
                        proof {
                            broadcast use vstd::seq_lib::lemma_seq_contains_after_push;

                            assert(worklist@.contains(s));
                            assert forall|mm: int| 0 <= mm < j + 1 implies worklist@.contains(
                                #[trigger] sv@[mm],
                            ) by {
                                if mm < j {
                                    assert(wli.contains(sv@[mm]));
                                }
                            }
                        }
                        j += 1;
                    }
                    proof {
                        assert forall|v: Coord, b: Coord|
                            visited@.contains(v) && #[trigger] edge(g, v, b) implies (
                        visited@.contains(b) || worklist@.contains(b)) by {
                            if v == x {
                                assert(referenced_by@[x]@.contains(b));
                                let mm = choose|mm: int| 0 <= mm < sv@.len() && sv@[mm] == b;
                                assert(worklist@.contains(sv@[mm]));
                            }
                        }
                    }
                } else {
                    proof {
                        assert forall|v: Coord, b: Coord|
                            visited@.contains(v) && #[trigger] edge(g, v, b) implies (
                        visited@.contains(b) || worklist@.contains(b)) by {
                            if v == x {
                                assert(edge(g, x, b));
                                assert(g.contains_key(x));
                                assert(false);
                            } else {
                                if b != x {
                                    assert(vis0.contains(v));
                                    assert(visited@.contains(b) || wl0.contains(b));
                                }
                            }
                        }
                    }
                }
            }
            proof {
                visited@.unique_seq_to_set();
                assert(visited@.to_set().subset_of(uni));
                lemma_len_subset(visited@.to_set(), uni);
            }
        }
        proof {
            assert(visited@.contains(cell_to_update));
            assert(visited@.len() > 0);
            assert forall|x: Coord| (x == cell_to_update || reaches(g, cell_to_update, x)) implies
                visited@.contains(x) by {
                if x != cell_to_update {
                    let p = choose|p: Seq<Coord>|
                        crate::graph::is_path(g, p) && p.first() == cell_to_update && p.last() == x;
                    assert(crate::graph::closed_set(g, visited@.to_set())) by {
                        assert forall|a: Coord, b: Coord|
                            visited@.to_set().contains(a) && #[trigger] edge(g, a, b) implies
                            visited@.to_set().contains(b) by {
                            assert(visited@.contains(a));
                            assert(visited@.contains(b) || worklist@.contains(b));
                        }
                    }
                    lemma_closed_catches_path(g, p, visited@.to_set());
                }
            }
        }
        visited
}

impl CellUpdater {
    /// Append the edited coordinate and every coordinate that transitively
    /// depends on it, read from the given reverse-adjacency store, to the
    /// work list. What the list already held stays in place; then come the
    /// affected coordinates, each once, the edited one first.
    pub fn gather_cells_to_update(
        &mut self,
        cell_to_update: Coord,
        referenced_by: &GridMap<Vec<Coord>>,
    )
        requires
            referenced_by.wf(),
        ensures
            final (self).to_update@.len() > old(self).to_update@.len(),
            final (self).to_update@.subrange(0, old(self).to_update@.len() as int) == old(
                self,
            ).to_update@,
            final (self).to_update@[old(self).to_update@.len() as int] == cell_to_update,
            forall|x: Coord| #[trigger]
                final (self).to_update@.subrange(
                    old(self).to_update@.len() as int,
                    final (self).to_update@.len() as int,
                ).contains(x) <==> (x == cell_to_update || reaches(
                    graph_view(referenced_by),
                    cell_to_update,
                    x,
                )),
    {
        let ghost base = self.to_update@;
        let gathered = gather_list(cell_to_update, referenced_by);
        let n = gathered.len();
        let mut i: usize = 0;
        while i < n
            invariant
                n == gathered@.len(),
                0 <= i <= n,
                self.to_update@ == base + gathered@.subrange(0, i as int),
            decreases n - i,
        {
            let c = gathered[i];
            self.to_update.push(c);
            proof {
                assert(self.to_update@ =~= base + gathered@.subrange(0, i + 1));
            }
            i += 1;
        }
        proof {
            assert(gathered@.subrange(0, n as int) =~= gathered@);
            assert(self.to_update@ == base + gathered@);
            assert(self.to_update@.subrange(0, base.len() as int) =~= base);
            assert(self.to_update@.subrange(base.len() as int, self.to_update@.len() as int)
                =~= gathered@);
            assert(self.to_update@[base.len() as int] == gathered@[0]);
        }
    }

    /// Squeeze the work list: wherever a coordinate appears more than once,
    /// keep only its last appearance, so that a cell is brought up to date
    /// after everything gathered before that point.
    pub fn remove_duplicates(&mut self)
        ensures
            final (self).to_update@ == dedup_keep_last(old(self).to_update@),
    {
        let ghost s = self.to_update@;
        let n = self.to_update.len();
        let mut out: Vec<Coord> = Vec::new();
        let mut i: usize = 0;
        while i < n
            invariant
                s == self.to_update@,
                n == s.len(),
                0 <= i <= n,
                out@ + dedup_keep_last_from(s, i as int) == dedup_keep_last_from(s, 0),
            decreases n - i,
        {
            let x = self.to_update[i];
            proof {
                assert(s[i as int] == x);
            }
            let mut later: bool = false;
            let mut j: usize = i + 1;
            while !later && j < n
                invariant
                    s == self.to_update@,
                    n == s.len(),
                    i < n,
                    i < j <= n,
                    x == s[i as int],
                    later ==> j < n && s[j as int] == s[i as int],
                    !later ==> forall|q: int| i < q < j ==> s[q] != s[i as int],
                decreases n - j, if later { 0int } else { 1int },
            {
                if self.to_update[j] == x {
                    later = true;
                } else {
                    j += 1;
                }
            }
            proof {
                let sub = s.subrange(i + 1, n as int);
                if later {
                    assert(sub[j - i - 1] == s[j as int]);
                    assert(sub.contains(s[i as int]));
                    assert(dedup_keep_last_from(s, i as int) == dedup_keep_last_from(s, i + 1));
                } else {
                    assert(!sub.contains(s[i as int])) by {
                        if sub.contains(s[i as int]) {
                            let q = choose|q: int| 0 <= q < sub.len() && sub[q] == s[i as int];
                            assert(s[q + i + 1] == s[i as int]);
                        }
                    }
                    assert(dedup_keep_last_from(s, i as int) == seq![s[i as int]]
                        + dedup_keep_last_from(s, i + 1));
                }
            }
            if !later {
                out.push(x);
                proof {
                    assert(out@ + dedup_keep_last_from(s, i + 1) =~= dedup_keep_last_from(s, 0));
                }
            } else {
                proof {
                    assert(out@ + dedup_keep_last_from(s, i + 1) =~= dedup_keep_last_from(s, 0));
                }
            }
            i += 1;
        }
        proof {
            assert(dedup_keep_last_from(s, n as int) =~= Seq::<Coord>::empty());
            assert(out@ =~= dedup_keep_last_from(s, 0));
        }
        self.to_update = out;
    }
}

/// The adjacency a coordinate store records, as target sets.
pub open spec fn graph_view(m: &GridMap<Vec<Coord>>) -> Map<Coord, Set<Coord>> {
    Map::new(|c: Coord| m@.contains_key(c), |c: Coord| m@[c]@.to_set())
}

} // verus!
