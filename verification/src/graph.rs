use crate::coord::Coord;
use crate::gridmap::GridMap;
use vstd::prelude::*;
use vstd::set_lib::lemma_len_subset;

verus! {

/// Adjacency view of a dependency graph: under each source coordinate, the
/// sequence of its targets. There is an edge from `a` to `b` when `b` stands
/// in `a`'s target list.
pub open spec fn edge(g: Map<Coord, Set<Coord>>, a: Coord, b: Coord) -> bool {
    g.contains_key(a) && g[a].contains(b)
}

/// A walk through the graph: two or more nodes, each consecutive pair joined
/// by an edge.
pub open spec fn is_path(g: Map<Coord, Set<Coord>>, p: Seq<Coord>) -> bool {
    p.len() >= 2 && forall|i: int| 0 <= i < p.len() - 1 ==> edge(g, #[trigger] p[i], p[i + 1])
}

/// `b` lies one or more edges downstream of `a`.
pub open spec fn reaches(g: Map<Coord, Set<Coord>>, a: Coord, b: Coord) -> bool {
    exists|p: Seq<Coord>| is_path(g, p) && p.first() == a && p.last() == b
}

/// No node reaches itself: the graph has no cycle.
pub open spec fn acyclic(g: Map<Coord, Set<Coord>>) -> bool {
    forall|c: Coord| !reaches(g, c, c)
}

/// Every edge of `g1` is an edge of `g2`.
pub open spec fn edge_subset(g1: Map<Coord, Set<Coord>>, g2: Map<Coord, Set<Coord>>) -> bool {
    forall|a: Coord, b: Coord| #[trigger] edge(g1, a, b) ==> edge(g2, a, b)
}

/// The set `s` swallows every edge that leaves it: nothing outside `s` is
/// reachable from inside `s`.
pub open spec fn closed_set(g: Map<Coord, Set<Coord>>, s: Set<Coord>) -> bool {
    forall|a: Coord, b: Coord| s.contains(a) && #[trigger] edge(g, a, b) ==> s.contains(b)
}


/// Graphs with the same edges reach the same pairs and share acyclicity.
pub proof fn lemma_same_edges_same_reach(g1: Map<Coord, Set<Coord>>, g2: Map<Coord, Set<Coord>>)
    requires
        forall|a: Coord, b: Coord| #![trigger edge(g1, a, b)] #![trigger edge(g2, a, b)]
            edge(g1, a, b) <==> edge(g2, a, b),
    ensures
        forall|a: Coord, b: Coord| #![trigger reaches(g1, a, b)] #![trigger reaches(g2, a, b)]
            reaches(g1, a, b) <==> reaches(g2, a, b),
        acyclic(g1) <==> acyclic(g2),
{
    assert forall|a: Coord, b: Coord| #![trigger reaches(g1, a, b)] #![trigger reaches(g2, a, b)]
        reaches(g1, a, b) <==> reaches(g2, a, b) by {
        if reaches(g1, a, b) {
            lemma_subgraph_reaches(g1, g2, a, b);
        }
        if reaches(g2, a, b) {
            lemma_subgraph_reaches(g2, g1, a, b);
        }
    }
}

/// An edge is a path of one step.
pub proof fn lemma_edge_reaches(g: Map<Coord, Set<Coord>>, a: Coord, b: Coord)
    requires
        edge(g, a, b),
    ensures
        reaches(g, a, b),
{
    let p = seq![a, b];
    assert forall|i: int| 0 <= i < p.len() - 1 implies edge(g, #[trigger] p[i], p[i + 1]) by {
        assert(i == 0);
        assert(p[0] == a && p[1] == b);
    }
    assert(is_path(g, p) && p.first() == a && p.last() == b);
}

/// Two paths that meet at an endpoint join into one path.
pub proof fn lemma_path_concat(g: Map<Coord, Set<Coord>>, p1: Seq<Coord>, p2: Seq<Coord>)
    requires
        is_path(g, p1),
        is_path(g, p2),
        p1.last() == p2.first(),
    ensures
        is_path(g, p1 + p2.drop_first()),
        (p1 + p2.drop_first()).first() == p1.first(),
        (p1 + p2.drop_first()).last() == p2.last(),
        (p1 + p2.drop_first()).len() == p1.len() + p2.len() - 1,
{
    let q = p1 + p2.drop_first();
    assert(q.len() == p1.len() + p2.len() - 1);
    assert forall|i: int| 0 <= i < q.len() - 1 implies edge(g, #[trigger] q[i], q[i + 1]) by {
        if i < p1.len() - 1 {
            assert(q[i] == p1[i]);
            assert(q[i + 1] == p1[i + 1]);
        } else if i == p1.len() - 1 {
            assert(q[i] == p1[i]);
            assert(p1[i] == p2[0]);
            assert(q[i + 1] == p2.drop_first()[0]);
            assert(p2.drop_first()[0] == p2[1]);
            assert(edge(g, p2[0], p2[1]));
        } else {
            assert(q[i] == p2.drop_first()[i - p1.len()]);
            assert(q[i + 1] == p2.drop_first()[i + 1 - p1.len()]);
            assert(p2.drop_first()[i - p1.len()] == p2[i - p1.len() + 1]);
            assert(p2.drop_first()[i + 1 - p1.len()] == p2[i + 1 - p1.len() + 1]);
            assert(edge(g, p2[i - p1.len() + 1], p2[i - p1.len() + 2]));
        }
    }
    assert((p1 + p2.drop_first()).last() == p2[p2.len() - 1]);
}

/// Reachability is transitive.
pub proof fn lemma_reaches_trans(g: Map<Coord, Set<Coord>>, a: Coord, b: Coord, c: Coord)
    requires
        reaches(g, a, b),
        reaches(g, b, c),
    ensures
        reaches(g, a, c),
{
    let p1 = choose|p: Seq<Coord>| is_path(g, p) && p.first() == a && p.last() == b;
    let p2 = choose|p: Seq<Coord>| is_path(g, p) && p.first() == b && p.last() == c;
    lemma_path_concat(g, p1, p2);
    let q = p1 + p2.drop_first();
    assert(is_path(g, q) && q.first() == a && q.last() == c);
}

/// Reachability extends along one more edge.
pub proof fn lemma_reaches_extend(g: Map<Coord, Set<Coord>>, a: Coord, b: Coord, c: Coord)
    requires
        reaches(g, a, b),
        edge(g, b, c),
    ensures
        reaches(g, a, c),
{
    lemma_edge_reaches(g, b, c);
    lemma_reaches_trans(g, a, b, c);
}

/// A slice of a path between two of its positions is itself a path.
pub proof fn lemma_path_subrange(g: Map<Coord, Set<Coord>>, p: Seq<Coord>, i: int, j: int)
    requires
        is_path(g, p),
        0 <= i < j < p.len(),
    ensures
        is_path(g, p.subrange(i, j + 1)),
        p.subrange(i, j + 1).first() == p[i],
        p.subrange(i, j + 1).last() == p[j],
{
    let q = p.subrange(i, j + 1);
    assert(q.len() == j + 1 - i);
    assert forall|m: int| 0 <= m < q.len() - 1 implies edge(g, #[trigger] q[m], q[m + 1]) by {
        assert(q[m] == p[i + m]);
        assert(q[m + 1] == p[i + m + 1]);
        assert(edge(g, p[i + m], p[i + m + 1]));
    }
}

/// A set that swallows its leaving edges holds the far end of any path that
/// starts inside it.
pub proof fn lemma_closed_catches_path(g: Map<Coord, Set<Coord>>, p: Seq<Coord>, s: Set<Coord>)
    requires
        is_path(g, p),
        s.contains(p.first()),
        closed_set(g, s),
    ensures
        s.contains(p.last()),
    decreases p.len(),
{
    if p.len() == 2 {
        assert(edge(g, p[0], p[1]));
    } else {
        let q = p.drop_last();
        assert forall|i: int| 0 <= i < q.len() - 1 implies edge(g, #[trigger] q[i], q[i + 1]) by {
            assert(q[i] == p[i]);
            assert(q[i + 1] == p[i + 1]);
        }
        assert(is_path(g, q) && q.first() == p.first());
        lemma_closed_catches_path(g, q, s);
        assert(q.last() == p[p.len() - 2]);
        assert(edge(g, p[p.len() - 2], p[p.len() - 1]));
    }
}

/// A path of a smaller graph is a path of any larger graph.
pub proof fn lemma_subgraph_path(
    g1: Map<Coord, Set<Coord>>,
    g2: Map<Coord, Set<Coord>>,
    p: Seq<Coord>,
)
    requires
        edge_subset(g1, g2),
        is_path(g1, p),
    ensures
        is_path(g2, p),
{
    assert forall|i: int| 0 <= i < p.len() - 1 implies edge(g2, #[trigger] p[i], p[i + 1]) by {
        assert(edge(g1, p[i], p[i + 1]));
    }
}

/// Whatever a smaller graph reaches, a larger graph reaches.
pub proof fn lemma_subgraph_reaches(
    g1: Map<Coord, Set<Coord>>,
    g2: Map<Coord, Set<Coord>>,
    a: Coord,
    b: Coord,
)
    requires
        edge_subset(g1, g2),
        reaches(g1, a, b),
    ensures
        reaches(g2, a, b),
{
    let p = choose|p: Seq<Coord>| is_path(g1, p) && p.first() == a && p.last() == b;
    lemma_subgraph_path(g1, g2, p);
}

/// A graph with fewer edges than an acyclic graph is acyclic.
pub proof fn lemma_subgraph_acyclic(g1: Map<Coord, Set<Coord>>, g2: Map<Coord, Set<Coord>>)
    requires
        edge_subset(g1, g2),
        acyclic(g2),
    ensures
        acyclic(g1),
{
    assert forall|c: Coord| !reaches(g1, c, c) by {
        if reaches(g1, c, c) {
            lemma_subgraph_reaches(g1, g2, c, c);
        }
    }
}

/// In an acyclic graph every path visits each node at most once.
pub proof fn lemma_acyclic_path_no_dup(g: Map<Coord, Set<Coord>>, p: Seq<Coord>)
    requires
        acyclic(g),
        is_path(g, p),
    ensures
        p.no_duplicates(),
{
    if !p.no_duplicates() {
        let (i, j) = choose|i: int, j: int|
            0 <= i < p.len() && 0 <= j < p.len() && i != j && p[i] == p[j];
        let a = if i < j {
            i
        } else {
            j
        };
        let b = if i < j {
            j
        } else {
            i
        };
        lemma_path_subrange(g, p, a, b);
        assert(reaches(g, p[a], p[a]));
        assert(false);
    }
}

/// Position of the last occurrence of `x` among the first `bound` nodes.
proof fn find_last_occurrence(p: Seq<Coord>, x: Coord, bound: int) -> (j: int)
    requires
        0 < bound <= p.len(),
        exists|i: int| 0 <= i < bound && p[i] == x,
    ensures
        0 <= j < bound,
        p[j] == x,
        forall|m: int| j < m < bound ==> p[m] != x,
    decreases bound,
{
    if p[bound - 1] == x {
        bound - 1
    } else {
        let i = choose|i: int| 0 <= i < bound && p[i] == x;
        assert(0 <= i < bound - 1);
        find_last_occurrence(p, x, bound - 1)
    }
}

/// Edges that do not leave `coord` are untouched when `coord`'s targets are
/// replaced, so a path that never steps off `coord` lives in the old graph.
proof fn lemma_path_avoiding_source(
    g: Map<Coord, Set<Coord>>,
    coord: Coord,
    ts: Set<Coord>,
    p: Seq<Coord>,
)
    requires
        is_path(g.insert(coord, ts), p),
        forall|m: int| 0 <= m < p.len() - 1 ==> p[m] != coord,
    ensures
        is_path(g, p),
{
    let g2 = g.insert(coord, ts);
    assert forall|i: int| 0 <= i < p.len() - 1 implies edge(g, #[trigger] p[i], p[i + 1]) by {
        assert(edge(g2, p[i], p[i + 1]));
        assert(p[i] != coord);
    }
}

/// Replacing the targets of `coord` keeps the graph acyclic, provided no new
/// target is `coord` itself or reaches `coord` through the old edges. This is
/// the law behind cycle-checked edits: validate first, then commit.
pub proof fn lemma_replace_targets_acyclic(
    g: Map<Coord, Set<Coord>>,
    coord: Coord,
    ts: Set<Coord>,
)
    requires
        acyclic(g),
        forall|t: Coord| #[trigger] ts.contains(t) ==> t != coord && !reaches(g, t, coord),
    ensures
        acyclic(g.insert(coord, ts)),
{
    let g2 = g.insert(coord, ts);
    assert forall|c: Coord| !reaches(g2, c, c) by {
        if reaches(g2, c, c) {
            let p = choose|p: Seq<Coord>| is_path(g2, p) && p.first() == c && p.last() == c;
            if exists|i: int| 0 <= i < p.len() - 1 && p[i] == coord {
                let i = choose|i: int| 0 <= i < p.len() - 1 && p[i] == coord;
                let q: Seq<Coord> = if i == 0 {
                    p
                } else {
                    lemma_path_subrange(g2, p, i, p.len() - 1);
                    lemma_path_subrange(g2, p, 0, i);
                    lemma_path_concat(
                        g2,
                        p.subrange(i, p.len() as int),
                        p.subrange(0, i + 1),
                    );
                    p.subrange(i, p.len() as int) + p.subrange(0, i + 1).drop_first()
                };
                assert(is_path(g2, q) && q.first() == coord && q.last() == coord);
                assert(q[0] == coord);
                let j = find_last_occurrence(q, coord, q.len() - 1);
                assert(edge(g2, q[j], q[j + 1]));
                assert(g2[coord] == ts);
                let t = q[j + 1];
                assert(ts.contains(t));
                assert(t != coord);
                assert(q[q.len() - 1] == coord);
                assert(j + 1 < q.len() - 1);
                let tail = q.subrange(j + 1, q.len() as int);
                lemma_path_subrange(g2, q, j + 1, q.len() - 1);
                assert forall|m: int| 0 <= m < tail.len() - 1 implies tail[m] != coord by {
                    assert(tail[m] == q[j + 1 + m]);
                }
                lemma_path_avoiding_source(g, coord, ts, tail);
                assert(tail.first() == t && tail.last() == coord);
                assert(reaches(g, t, coord));
                assert(false);
            } else {
                assert(forall|m: int| 0 <= m < p.len() - 1 ==> p[m] != coord);
                lemma_path_avoiding_source(g, coord, ts, p);
                assert(reaches(g, c, c));
                assert(false);
            }
        }
    }
}

/// A walk of any requested length through a set, stepping from each node `x`
/// to `f(x)`, which stays in the set.
proof fn build_long_walk(
    g: Map<Coord, Set<Coord>>,
    s: Set<Coord>,
    f: spec_fn(Coord) -> Coord,
    start: Coord,
    k: nat,
) -> (p: Seq<Coord>)
    requires
        s.contains(start),
        forall|x: Coord| s.contains(x) ==> s.contains(#[trigger] f(x)) && edge(g, x, f(x)),
    ensures
        p.len() == k + 1,
        p.first() == start,
        forall|i: int| 0 <= i < p.len() ==> s.contains(#[trigger] p[i]),
        forall|i: int| 0 <= i < p.len() - 1 ==> edge(g, #[trigger] p[i], p[i + 1]),
    decreases k,
{
    if k == 0 {
        seq![start]
    } else {
        let d = f(start);
        let rest = build_long_walk(g, s, f, d, (k - 1) as nat);
        let p = seq![start] + rest;
        assert(p.len() == k + 1);
        assert(p[0] == start);
        assert forall|i: int| 0 <= i < p.len() - 1 implies edge(g, #[trigger] p[i], p[i + 1]) by {
            if i == 0 {
                assert(p[1] == rest[0]);
                assert(rest[0] == d);
            } else {
                assert(p[i] == rest[i - 1]);
                assert(p[i + 1] == rest[i]);
                assert(edge(g, rest[i - 1], rest[i]));
            }
        }
        assert forall|i: int| 0 <= i < p.len() implies s.contains(#[trigger] p[i]) by {
            if i > 0 {
                assert(s.contains(rest[i - 1]));
            }
        }
        p
    }
}

/// In an acyclic graph, a finite nonempty set cannot have every node point at
/// another node of the set: some node has all its targets outside. This is
/// why a topological pass over the affected cells always makes progress.
pub proof fn lemma_some_node_without_inner_successor(g: Map<Coord, Set<Coord>>, s: Set<Coord>)
    requires
        acyclic(g),
        s.finite(),
        s.len() > 0,
    ensures
        exists|x: Coord|
            s.contains(x) && (forall|d: Coord| #[trigger] edge(g, x, d) ==> !s.contains(d)),
{
    if exists|x: Coord|
        s.contains(x) && (forall|d: Coord| #[trigger] edge(g, x, d) ==> !s.contains(d)) {
    } else {
        let f: spec_fn(Coord) -> Coord = |x: Coord|
            choose|d: Coord| s.contains(d) && #[trigger] edge(g, x, d);
        assert forall|x: Coord| s.contains(x) implies s.contains(#[trigger] f(x)) && edge(
            g,
            x,
            f(x),
        ) by {
            assert(!(s.contains(x) && (forall|d: Coord| #[trigger] edge(g, x, d)
                ==> !s.contains(d))));
            assert(exists|d: Coord| s.contains(d) && #[trigger] edge(g, x, d));
        }
        let start = s.choose();
        assert(s.contains(start));
        let p = build_long_walk(g, s, f, start, s.len());
        assert(is_path(g, p));
        lemma_acyclic_path_no_dup(g, p);
        p.unique_seq_to_set();
        assert(p.to_set().subset_of(s)) by {
            assert forall|x: Coord| p.to_set().contains(x) implies s.contains(x) by {
                assert(p.contains(x));
                let i = choose|i: int| 0 <= i < p.len() && p[i] == x;
                assert(s.contains(p[i]));
            }
        }
        lemma_len_subset(p.to_set(), s);
        assert(false);
    }
}


/// The two adjacency maps record the same edges, each from its own side.
pub open spec fn mirrored(f: Map<Coord, Set<Coord>>, r: Map<Coord, Set<Coord>>) -> bool {
    forall|a: Coord, b: Coord| #![trigger edge(f, a, b)] #![trigger edge(r, b, a)]
        edge(f, a, b) <==> edge(r, b, a)
}

/// A path of the forward graph read backwards is a path of the reverse graph.
proof fn lemma_mirror_path(
    f: Map<Coord, Set<Coord>>,
    r: Map<Coord, Set<Coord>>,
    p: Seq<Coord>,
) -> (q: Seq<Coord>)
    requires
        mirrored(f, r),
        is_path(f, p),
    ensures
        is_path(r, q),
        q.first() == p.last(),
        q.last() == p.first(),
{
    let n = p.len() as int;
    let q = Seq::new(p.len(), |i: int| p[n - 1 - i]);
    assert forall|i: int| 0 <= i < q.len() - 1 implies edge(r, #[trigger] q[i], q[i + 1]) by {
        assert(q[i] == p[n - 1 - i]);
        assert(q[i + 1] == p[n - 2 - i]);
        assert(edge(f, p[n - 2 - i], p[n - 1 - i]));
    }
    assert(q[0] == p[n - 1]);
    assert(q[q.len() - 1] == p[0]);
    q
}

/// What the forward graph reaches one way, the reverse graph reaches the
/// other way.
pub proof fn lemma_mirror_reaches(
    f: Map<Coord, Set<Coord>>,
    r: Map<Coord, Set<Coord>>,
    a: Coord,
    b: Coord,
)
    requires
        mirrored(f, r),
        reaches(f, a, b),
    ensures
        reaches(r, b, a),
{
    let p = choose|p: Seq<Coord>| is_path(f, p) && p.first() == a && p.last() == b;
    let q = lemma_mirror_path(f, r, p);
    assert(is_path(r, q) && q.first() == b && q.last() == a);
}

/// A graph without edges has no path, so no cycle.
pub proof fn lemma_no_edges_acyclic(g: Map<Coord, Set<Coord>>)
    requires
        forall|a: Coord, b: Coord| !edge(g, a, b),
    ensures
        acyclic(g),
{
    assert forall|c: Coord| !reaches(g, c, c) by {
        if reaches(g, c, c) {
            let p = choose|p: Seq<Coord>| is_path(g, p) && p.first() == c && p.last() == c;
            assert(edge(g, p[0], p[1]));
        }
    }
}

/// Whether the vector holds the coordinate.
pub(crate) fn contains_coord(v: &Vec<Coord>, x: Coord) -> (r: bool)
    ensures
        r == v@.contains(x),
{
    let n = v.len();
    let mut i: usize = 0;
    while i < n
        invariant
            n == v@.len(),
            0 <= i <= n,
            forall|j: int| 0 <= j < i ==> v@[j] != x,
        decreases n - i,
    {
        if v[i] == x {
            assert(v@[i as int] == x);
            return true;
        }
        i += 1;
    }
    assert(!v@.contains(x));
    false
}

/// A fresh vector with the same coordinates in the same order.
pub(crate) fn copy_coords(v: &Vec<Coord>) -> (r: Vec<Coord>)
    ensures
        r@ == v@,
{
    let n = v.len();
    let mut r: Vec<Coord> = Vec::new();
    let mut i: usize = 0;
    while i < n
        invariant
            n == v@.len(),
            0 <= i <= n,
            r@ == v@.subrange(0, i as int),
        decreases n - i,
    {
        r.push(v[i]);
        proof {
            assert(r@ =~= v@.subrange(0, i + 1));
        }
        i += 1;
    }
    proof {
        assert(r@ =~= v@);
    }
    r
}

/// Dropping the entry at `i` from a duplicate-free sequence removes exactly
/// that value.
proof fn lemma_seq_remove_props(s: Seq<Coord>, i: int)
    requires
        0 <= i < s.len(),
        s.no_duplicates(),
    ensures
        s.remove(i).no_duplicates(),
        forall|y: Coord| s.remove(i).contains(y) <==> (s.contains(y) && y != s[i]),
{
    s.remove_ensures(i);
    let t = s.remove(i);
    assert(t.len() == s.len() - 1);
    assert forall|y: Coord| t.contains(y) implies (s.contains(y) && y != s[i]) by {
        let j = choose|j: int| 0 <= j < t.len() && t[j] == y;
        if j < i {
            assert(s[j] == y);
            assert(s[j] != s[i]);
        } else {
            assert(s[j + 1] == y);
            assert(s[j + 1] != s[i]);
        }
    }
    assert forall|y: Coord| s.contains(y) && y != s[i] implies t.contains(y) by {
        let j = choose|j: int| 0 <= j < s.len() && s[j] == y;
        if j < i {
            assert(t[j] == y);
        } else {
            assert(j != i);
            assert(t[j - 1] == s[j]);
        }
    }
    assert forall|a: int, b: int|
        0 <= a < t.len() && 0 <= b < t.len() && a != b implies t[a] != t[b] by {
        let sa: int = if a < i { a } else { a + 1 };
        let sb: int = if b < i { b } else { b + 1 };
        assert(t[a] == s[sa]);
        assert(t[b] == s[sb]);
        assert(sa != sb);
    }
}

/// Remove the coordinate from the vector, if present.
fn remove_value(v: &mut Vec<Coord>, x: Coord)
    requires
        old(v)@.no_duplicates(),
    ensures
        final (v)@.no_duplicates(),
        forall|y: Coord| final (v)@.contains(y) <==> (old(v)@.contains(y) && y != x),
{
    let n = v.len();
    let mut i: usize = 0;
    while i < n
        invariant
            v@ == old(v)@,
            v@.no_duplicates(),
            n == v@.len(),
            0 <= i <= n,
            forall|j: int| 0 <= j < i ==> v@[j] != x,
        decreases n - i,
    {
        if v[i] == x {
            proof {
                assert(v@[i as int] == x);
                lemma_seq_remove_props(v@, i as int);
            }
            v.remove(i);
            return ;
        }
        i += 1;
    }
    proof {
        assert(!v@.contains(x));
        assert forall|y: Coord| v@.contains(y) implies (old(v)@.contains(y) && y != x) by {}
    }
}

/// Appending a fresh coordinate to a duplicate-free list keeps it
/// duplicate-free and adds exactly that coordinate to its set.
pub(crate) proof fn lemma_push_props(s: Seq<Coord>, x: Coord)
    requires
        s.no_duplicates(),
        !s.contains(x),
    ensures
        s.push(x).no_duplicates(),
        s.push(x).to_set() =~= s.to_set().insert(x),
{
    let t = s.push(x);
    assert forall|a: int, b: int|
        0 <= a < t.len() && 0 <= b < t.len() && a != b implies t[a] != t[b] by {
        if a < s.len() && b < s.len() {
            assert(t[a] == s[a] && t[b] == s[b]);
        } else if a < s.len() {
            assert(t[b] == x);
            if s[a] == x {
                assert(s.contains(x));
            }
        } else {
            assert(t[a] == x);
            if s[b] == x {
                assert(s.contains(x));
            }
        }
    }
    assert forall|y: Coord| t.to_set().contains(y) implies s.to_set().insert(x).contains(y) by {
        let j = choose|j: int| 0 <= j < t.len() && t[j] == y;
        if j < s.len() {
            assert(s[j] == y);
        }
    }
    assert forall|y: Coord| s.to_set().insert(x).contains(y) implies t.to_set().contains(y) by {
        if y == x {
            assert(t[s.len() as int] == y);
        } else {
            let j = choose|j: int| 0 <= j < s.len() && s[j] == y;
            assert(t[j] == y);
        }
    }
}

/// Forward and reverse adjacency of the cells' dependency graph. A forward
/// edge from `a` to `b` says that `a`'s formula reads `b`; the reverse map
/// holds the same edges the other way round. The graph stores coordinates
/// only, never cells.
pub struct DepGraph {
    pub forward: GridMap<Vec<Coord>>,
    pub reverse: GridMap<Vec<Coord>>,
}

impl DepGraph {
    /// Forward adjacency as a map to target sets.
    pub open spec fn fwd(&self) -> Map<Coord, Set<Coord>> {
        Map::new(|c: Coord| self.forward@.contains_key(c), |c: Coord| self.forward@[c]@.to_set())
    }

    /// Reverse adjacency as a map to source sets.
    pub open spec fn rev(&self) -> Map<Coord, Set<Coord>> {
        Map::new(|c: Coord| self.reverse@.contains_key(c), |c: Coord| self.reverse@[c]@.to_set())
    }

    /// Both stores are sound maps, their target lists are duplicate-free,
    /// and they mirror each other edge for edge.
    pub open spec fn wf(&self) -> bool {
        &&& self.forward.wf()
        &&& self.reverse.wf()
        &&& mirrored(self.fwd(), self.rev())
        &&& forall|k: Coord| #[trigger]
            self.forward@.contains_key(k) ==> self.forward@[k]@.no_duplicates()
        &&& forall|k: Coord| #[trigger]
            self.reverse@.contains_key(k) ==> self.reverse@[k]@.no_duplicates()
    }

    /// An empty graph: no edges at all.
    pub fn new() -> (r: DepGraph)
        ensures
            r.wf(),
            forall|a: Coord, b: Coord| !edge(r.fwd(), a, b),
            forall|a: Coord, b: Coord| !edge(r.rev(), a, b),
            acyclic(r.fwd()),
    {
        let r = DepGraph { forward: GridMap::new(), reverse: GridMap::new() };
        proof {
            assert(forall|a: Coord, b: Coord| !edge(r.fwd(), a, b));
            assert(forall|a: Coord, b: Coord| !edge(r.rev(), a, b));
            lemma_no_edges_acyclic(r.fwd());
        }
        r
    }

    /// Record that `from`'s formula reads `to`. Both maps gain the edge; an
    /// edge recorded twice is stored once.
    pub fn add_edge(&mut self, from: Coord, to: Coord)
        requires
            old(self).wf(),
        ensures
            final (self).wf(),
            forall|a: Coord, b: Coord| #[trigger]
                edge(final (self).fwd(), a, b) <==> (edge(old(self).fwd(), a, b) || (a == from && b
                    == to)),
    {
        let mut ts: Vec<Coord> = match self.forward.get(from) {
            Some(v) => copy_coords(v),
            None => Vec::new(),
        };
        if contains_coord(&ts, to) {
            proof {
                assert(edge(self.fwd(), from, to));
                assert forall|a: Coord, b: Coord| #[trigger]
                    edge(self.fwd(), a, b) <==> (edge(self.fwd(), a, b) || (a == from && b
                        == to)) by {}
            }
            return ;
        }
        let ghost old_fwd = self.fwd();
        let ghost old_rev = self.rev();
        let ghost ts0 = ts@;
        proof {
            assert(ts0.no_duplicates());
            lemma_push_props(ts0, to);
        }
        ts.push(to);
        self.forward.insert(from, ts);
        let mut rs: Vec<Coord> = match self.reverse.get(to) {
            Some(v) => copy_coords(v),
            None => Vec::new(),
        };
        let ghost rs0 = rs@;
        proof {
            assert(!edge(old_fwd, from, to));
            assert(!edge(old_rev, to, from));
            assert(!rs0.contains(from));
            assert(rs0.no_duplicates());
            lemma_push_props(rs0, from);
        }
        rs.push(from);
        self.reverse.insert(to, rs);
        proof {
            assert(self.forward@[from]@ == ts0.push(to));
            assert(self.reverse@[to]@ == rs0.push(from));
            assert(ts0.to_set() =~= (if old_fwd.contains_key(from) {
                old_fwd[from]
            } else {
                Set::<Coord>::empty()
            }));
            assert(rs0.to_set() =~= (if old_rev.contains_key(to) {
                old_rev[to]
            } else {
                Set::<Coord>::empty()
            }));
            assert forall|a: Coord, b: Coord| #[trigger]
                edge(self.fwd(), a, b) <==> (edge(old_fwd, a, b) || (a == from && b == to)) by {
                if a == from {
                    assert(self.forward@[from]@.to_set() =~= ts0.to_set().insert(to));
                }
            }
            assert forall|a: Coord, b: Coord| #[trigger]
                edge(self.rev(), b, a) <==> (edge(old_rev, b, a) || (a == from && b == to)) by {
                if b == to {
                    assert(self.reverse@[to]@.to_set() =~= rs0.to_set().insert(from));
                }
            }
            assert(mirrored(self.fwd(), self.rev()));
        }
    }

    /// Undo every edge recorded from `coord`: its target list becomes empty
    /// and it disappears from each target's reverse list. The table calls
    /// this before it replaces `coord`'s formula.
    pub fn clear_edges_from(&mut self, coord: Coord)
        requires
            old(self).wf(),
        ensures
            final (self).wf(),
            forall|a: Coord, b: Coord| #[trigger]
                edge(final (self).fwd(), a, b) <==> (edge(old(self).fwd(), a, b) && a != coord),
    {
        let ts: Vec<Coord> = match self.forward.get(coord) {
            Some(v) => copy_coords(v),
            None => Vec::new(),
        };
        let ghost old_fwd = self.fwd();
        let ghost old_rev = self.rev();
        proof {
            assert(forall|b: Coord| edge(old_fwd, coord, b) <==> ts@.contains(b));
            if self.forward@.contains_key(coord) {
                assert(ts@.no_duplicates());
            }
        }
        self.forward.insert(coord, Vec::new());
        let ghost fwd_entries = self.forward@;
        proof {
            assert(ts@.no_duplicates());
            assert(fwd_entries.contains_key(coord) && fwd_entries[coord]@.len() == 0);
            assert(forall|k: Coord|
                k != coord ==> #[trigger] fwd_entries.contains_key(k) == old(
                    self,
                ).forward@.contains_key(k));
            assert(forall|k: Coord|
                k != coord && #[trigger] fwd_entries.contains_key(k) ==> fwd_entries[k] == old(
                    self,
                ).forward@[k]);
        }
        let n = ts.len();
        let mut i: usize = 0;
        while i < n
            invariant
                self.forward.wf(),
                self.reverse.wf(),
                n == ts@.len(),
                0 <= i <= n,
                ts@.no_duplicates(),
                self.forward@ == fwd_entries,
                forall|k: Coord| #[trigger]
                    self.forward@.contains_key(k) ==> self.forward@[k]@.no_duplicates(),
                forall|k: Coord| #[trigger]
                    self.reverse@.contains_key(k) ==> self.reverse@[k]@.no_duplicates(),
                forall|x: Coord, y: Coord| #[trigger]
                    edge(self.rev(), x, y) <==> (edge(old_rev, x, y) && !(y == coord
                        && ts@.subrange(0, i as int).contains(x))),
            decreases n - i,
        {
            let t = ts[i];
            let mut rv: Vec<Coord> = match self.reverse.get(t) {
                Some(v) => copy_coords(v),
                None => Vec::new(),
            };
            let ghost rev_before = self.rev();
            remove_value(&mut rv, coord);
            self.reverse.insert(t, rv);
            proof {
                assert forall|x: Coord, y: Coord| #[trigger]
                    edge(self.rev(), x, y) <==> (edge(rev_before, x, y) && !(x == t && y
                        == coord)) by {
                    if x == t {
                        assert(self.reverse@[t] == rv);
                    }
                }
                assert(ts@.subrange(0, i + 1)[i as int] == ts@[i as int]);
                assert(ts@.subrange(0, i + 1).contains(ts@[i as int]));
                assert forall|x: Coord, y: Coord| #[trigger]
                    edge(self.rev(), x, y) <==> (edge(old_rev, x, y) && !(y == coord
                        && ts@.subrange(0, i + 1).contains(x))) by {
                    if ts@.subrange(0, i + 1).contains(x) && !ts@.subrange(0, i as int).contains(
                        x,
                    ) {
                        assert(x == ts@[i as int]);
                    }
                    if ts@.subrange(0, i as int).contains(x) {
                        assert(ts@.subrange(0, i + 1).contains(x));
                    }
                }
            }
            i += 1;
        }
        proof {
            assert(ts@.subrange(0, n as int) =~= ts@);
            assert forall|a: Coord, b: Coord| #[trigger]
                edge(self.fwd(), a, b) <==> (edge(old_fwd, a, b) && a != coord) by {
                if a == coord {
                    assert(self.forward@[coord]@.len() == 0);
                    assert(!self.forward@[coord]@.contains(b));
                    assert(!edge(self.fwd(), coord, b));
                } else {
                    assert(self.forward@.contains_key(a) == old(self).forward@.contains_key(a));
                    if self.forward@.contains_key(a) {
                        assert(self.forward@[a] == old(self).forward@[a]);
                    }
                }
            }
            assert forall|a: Coord, b: Coord| #[trigger]
                edge(self.rev(), b, a) <==> (edge(self.fwd(), a, b)) by {
                assert(edge(self.rev(), b, a) <==> (edge(old_rev, b, a) && !(a == coord
                    && ts@.contains(b))));
                assert(edge(old_rev, b, a) <==> edge(old_fwd, a, b));
                if a == coord {
                    assert(edge(old_fwd, coord, b) <==> ts@.contains(b));
                }
            }
            assert(mirrored(self.fwd(), self.rev()));
        }
    }

    /// Whether installing edges from `from` to every coordinate of `targets`
    /// would close a dependency cycle: true exactly when some target is
    /// `from` itself or already reaches `from` along the forward edges. The
    /// graph is not touched; the table asks this before committing an edit.
    pub fn would_create_cycle(&self, from: Coord, targets: &Vec<Coord>) -> (r: bool)
        requires
            self.wf(),
        ensures
            r <==> exists|i: int|
                0 <= i < targets@.len() && ((#[trigger] targets@[i]) == from || reaches(
                    self.fwd(),
                    targets@[i],
                    from,
                )),
    {
        let ghost g = self.fwd();
        let ghost uni = self.forward@.dom().union(self.reverse@.dom()).union(targets@.to_set());
        proof {
            broadcast use vstd::seq_lib::seq_to_set_is_finite;

            crate::gridmap::lemma_seq_to_map_props(self.forward.entries@);
            crate::gridmap::lemma_seq_to_map_props(self.reverse.entries@);
            assert(uni.finite());
        }
        let mut worklist: Vec<Coord> = copy_coords(targets);
        let mut visited: Vec<Coord> = Vec::new();
        while worklist.len() > 0
            invariant
                self.wf(),
                g == self.fwd(),
                uni == self.forward@.dom().union(self.reverse@.dom()).union(targets@.to_set()),
                uni.finite(),
                visited@.no_duplicates(),
                forall|v: Coord| #[trigger] visited@.contains(v) ==> uni.contains(v),
                forall|v: Coord| #[trigger] worklist@.contains(v) ==> uni.contains(v),
                !visited@.contains(from),
                forall|v: Coord| #[trigger]
                    visited@.contains(v) ==> (targets@.contains(v) || exists|t: Coord|
                        targets@.contains(t) && reaches(g, t, v)),
                forall|v: Coord| #[trigger]
                    worklist@.contains(v) ==> (targets@.contains(v) || exists|t: Coord|
                        targets@.contains(t) && reaches(g, t, v)),
                forall|j: int|
                    0 <= j < targets@.len() ==> (visited@.contains(#[trigger] targets@[j])
                        || worklist@.contains(targets@[j])),
                forall|v: Coord, b: Coord|
                    visited@.contains(v) && #[trigger] edge(g, v, b) ==> (visited@.contains(b)
                        || worklist@.contains(b)),
            decreases uni.len() - visited@.len(), worklist@.len(),
        {
            proof {
                visited@.unique_seq_to_set();
                assert(visited@.to_set().subset_of(uni));
                lemma_len_subset(visited@.to_set(), uni);
            }
            let ghost wl0 = worklist@;
            let x = match worklist.pop() {
                Some(c) => c,
                None => {
                    return false;
                },
            };
            proof {
                assert(wl0[wl0.len() - 1] == x);
                assert(wl0.contains(x));
                assert forall|b: Coord| wl0.contains(b) && b != x implies
                    worklist@.contains(b) by {
                    let idx = choose|idx: int| 0 <= idx < wl0.len() && wl0[idx] == b;
                    assert(idx < wl0.len() - 1);
                    assert(worklist@[idx] == b);
                }
                assert forall|v: Coord| #[trigger] worklist@.contains(v) implies wl0.contains(
                    v,
                ) by {
                    let idx = choose|idx: int| 0 <= idx < worklist@.len() && worklist@[idx] == v;
                    assert(wl0[idx] == v);
                }
                assert(forall|v: Coord| #[trigger] worklist@.contains(v) ==> uni.contains(v));
                assert(forall|v: Coord| #[trigger]
                    worklist@.contains(v) ==> (targets@.contains(v) || exists|t: Coord|
                        targets@.contains(t) && reaches(g, t, v)));
            }
            if contains_coord(&visited, x) {
                proof {
                    assert forall|v: Coord, b: Coord|
                        visited@.contains(v) && #[trigger] edge(g, v, b) implies (
                    visited@.contains(b) || worklist@.contains(b)) by {
                        if b != x {
                            assert(visited@.contains(b) || wl0.contains(b));
                        }
                    }
                }
            } else if x == from {
                proof {
                    assert(wl0.contains(x));
                    if !targets@.contains(from) {
                        let t = choose|t: Coord| targets@.contains(t) && reaches(g, t, from);
                        let i = choose|i: int| 0 <= i < targets@.len() && targets@[i] == t;
                        assert(targets@[i] == t && reaches(g, targets@[i], from));
                    } else {
                        let i = choose|i: int| 0 <= i < targets@.len() && targets@[i] == from;
                        assert(targets@[i] == from);
                    }
                }
                return true;
            } else {
                let ghost vis0 = visited@;
                visited.push(x);
                proof {
                    assert(!vis0.contains(x));
                    lemma_push_props(vis0, x);
                    assert(visited@[vis0.len() as int] == x);
                    assert(visited@.contains(x));
                    broadcast use vstd::seq_lib::lemma_seq_contains_after_push;

                    assert forall|v: Coord| worklist@.contains(v) implies wl0.contains(v) by {
                        let idx = choose|idx: int| 0 <= idx < worklist@.len() && worklist@[idx]
                            == v;
                        assert(wl0[idx] == v);
                    }
                    assert forall|v: Coord| #[trigger] visited@.contains(v) implies (
                    targets@.contains(v) || exists|t: Coord|
                        targets@.contains(t) && reaches(g, t, v)) by {
                        if v != x {
                            assert(vis0.contains(v));
                        } else {
                            assert(wl0.contains(x));
                        }
                    }
                    if self.forward@.contains_key(x) {
                        assert forall|b: Coord| #[trigger]
                            self.forward@[x]@.contains(b) implies uni.contains(b) by {
                            assert(edge(g, x, b));
                            assert(edge(self.rev(), b, x));
                            assert(self.reverse@.contains_key(b));
                        }
                    }
                }
                let succ_opt = self.forward.get(x);
                if let Some(sv) = succ_opt {
                    let m = sv.len();
                    let mut j: usize = 0;
                    while j < m
                        invariant
                            self.wf(),
                            g == self.fwd(),
                            uni == self.forward@.dom().union(self.reverse@.dom()).union(
                                targets@.to_set(),
                            ),
                            uni.finite(),
                            m == sv@.len(),
                            0 <= j <= m,
                            sv@ == self.forward@[x]@,
                            self.forward@.contains_key(x),
                            visited@.no_duplicates(),
                            visited@.contains(x),
                            forall|v: Coord| #[trigger] visited@.contains(v) ==> uni.contains(v),
                            forall|v: Coord| #[trigger] worklist@.contains(v) ==> uni.contains(v),
                            !visited@.contains(from),
                            forall|v: Coord| #[trigger]
                                visited@.contains(v) ==> (targets@.contains(v) || exists|t: Coord|
                                    targets@.contains(t) && reaches(g, t, v)),
                            forall|v: Coord| #[trigger]
                                worklist@.contains(v) ==> (targets@.contains(v) || exists|t: Coord|
                                    targets@.contains(t) && reaches(g, t, v)),
                            forall|jj: int|
                                0 <= jj < targets@.len() ==> (visited@.contains(
                                    #[trigger] targets@[jj],
                                ) || worklist@.contains(targets@[jj])),
                            forall|v: Coord, b: Coord|
                                visited@.contains(v) && v != x && #[trigger] edge(g, v, b) ==> (
                                visited@.contains(b) || worklist@.contains(b)),
                            forall|mm: int|
                                0 <= mm < j ==> worklist@.contains(#[trigger] sv@[mm]),
                        decreases m - j,
                    {
                        let s = sv[j];
                        proof {
                            assert(sv@[j as int] == s);
                            assert(self.forward@[x]@.contains(s));
                            assert(edge(g, x, s));
                            assert(edge(self.rev(), s, x));
                            assert(self.reverse@.contains_key(s));
                            assert(uni.contains(s));
                            if targets@.contains(x) {
                                lemma_edge_reaches(g, x, s);
                            } else {
                                let t = choose|t: Coord| targets@.contains(t) && reaches(g, t, x);
                                lemma_reaches_extend(g, t, x, s);
                            }
                        }
                        let ghost wli = worklist@;
                        worklist.push(s);
                        proof {
                            broadcast use vstd::seq_lib::lemma_seq_contains_after_push;

                            assert(worklist@.contains(s));
                            assert forall|mm: int| 0 <= mm < j + 1 implies worklist@.contains(
                                #[trigger] sv@[mm],
                            ) by {
                                if mm < j {
                                    assert(wli.contains(sv@[mm]));
                                }
                            }
                        }
                        j += 1;
                    }
                    proof {
                        assert forall|v: Coord, b: Coord|
                            visited@.contains(v) && #[trigger] edge(g, v, b) implies (
                        visited@.contains(b) || worklist@.contains(b)) by {
                            if v == x {
                                assert(self.forward@[x]@.contains(b));
                                let mm = choose|mm: int|
                                    0 <= mm < sv@.len() && sv@[mm] == b;
                                assert(worklist@.contains(sv@[mm]));
                            }
                        }
                    }
                } else {
                    proof {
                        assert forall|v: Coord, b: Coord|
                            visited@.contains(v) && #[trigger] edge(g, v, b) implies (
                        visited@.contains(b) || worklist@.contains(b)) by {
                            if v == x {
                                assert(edge(g, x, b));
                                assert(g.contains_key(x));
                                assert(false);
                            } else {
                                if b != x {
                                    assert(vis0.contains(v));
                                    assert(visited@.contains(b) || wl0.contains(b));
                                }
                            }
                        }
                    }
                }
            }
            proof {
                visited@.unique_seq_to_set();
                assert(visited@.to_set().subset_of(uni));
                lemma_len_subset(visited@.to_set(), uni);
            }
        }
        proof {
            assert(worklist@.len() == 0);
            assert forall|i: int|
                0 <= i < targets@.len() implies !((#[trigger] targets@[i]) == from || reaches(
                g,
                targets@[i],
                from,
            )) by {
                assert(visited@.contains(targets@[i]) || worklist@.contains(targets@[i]));
                assert(visited@.contains(targets@[i]));
                assert(targets@[i] != from);
                if reaches(g, targets@[i], from) {
                    let p = choose|p: Seq<Coord>|
                        is_path(g, p) && p.first() == targets@[i] && p.last() == from;
                    assert(closed_set(g, visited@.to_set())) by {
                        assert forall|a: Coord, b: Coord|
                            visited@.to_set().contains(a) && #[trigger] edge(g, a, b) implies
                            visited@.to_set().contains(b) by {
                            assert(visited@.contains(a));
                            assert(visited@.contains(b) || worklist@.contains(b));
                        }
                    }
                    lemma_closed_catches_path(g, p, visited@.to_set());
                    assert(visited@.contains(from));
                    assert(false);
                }
            }
        }
        false
    }

    /// Collect the affected closure of `coord`: the coordinate itself and
    /// every coordinate that transitively depends on it, along the reverse
    /// edges.
    fn gather_closure(&self, coord: Coord) -> (r: Vec<Coord>)
        requires
            self.wf(),
        ensures
            r@.no_duplicates(),
            r@.contains(coord),
            forall|x: Coord| #[trigger]
                r@.contains(x) <==> (x == coord || reaches(self.rev(), coord, x)),
    {
        let ghost g = self.rev();
        let ghost uni = self.forward@.dom().union(self.reverse@.dom()).union(
            Set::<Coord>::empty().insert(coord),
        );
        proof {
            crate::gridmap::lemma_seq_to_map_props(self.forward.entries@);
            crate::gridmap::lemma_seq_to_map_props(self.reverse.entries@);
            assert(uni.finite());
        }
        let mut worklist: Vec<Coord> = Vec::new();
        worklist.push(coord);
        let mut visited: Vec<Coord> = Vec::new();
        proof {
            assert(worklist@[0] == coord);
            assert(worklist@.contains(coord));
        }
        while worklist.len() > 0
            invariant
                self.wf(),
                g == self.rev(),
                uni == self.forward@.dom().union(self.reverse@.dom()).union(
                    Set::<Coord>::empty().insert(coord),
                ),
                uni.finite(),
                visited@.no_duplicates(),
                forall|v: Coord| #[trigger] visited@.contains(v) ==> uni.contains(v),
                forall|v: Coord| #[trigger] worklist@.contains(v) ==> uni.contains(v),
                forall|v: Coord| #[trigger]
                    visited@.contains(v) ==> (v == coord || reaches(g, coord, v)),
                forall|v: Coord| #[trigger]
                    worklist@.contains(v) ==> (v == coord || reaches(g, coord, v)),
                visited@.contains(coord) || worklist@.contains(coord),
                forall|v: Coord, b: Coord|
                    visited@.contains(v) && #[trigger] edge(g, v, b) ==> (visited@.contains(b)
                        || worklist@.contains(b)),
            decreases uni.len() - visited@.len(), worklist@.len(),
        {
            proof {
                visited@.unique_seq_to_set();
                assert(visited@.to_set().subset_of(uni));
                lemma_len_subset(visited@.to_set(), uni);
            }
            let ghost wl0 = worklist@;
            let x = match worklist.pop() {
                Some(c) => c,
                None => {
                    return Vec::new();
                },
            };
            proof {
                assert(wl0[wl0.len() - 1] == x);
                assert(wl0.contains(x));
                assert forall|b: Coord| wl0.contains(b) && b != x implies
                    worklist@.contains(b) by {
                    let idx = choose|idx: int| 0 <= idx < wl0.len() && wl0[idx] == b;
                    assert(idx < wl0.len() - 1);
                    assert(worklist@[idx] == b);
                }
                assert forall|v: Coord| #[trigger] worklist@.contains(v) implies wl0.contains(
                    v,
                ) by {
                    let idx = choose|idx: int| 0 <= idx < worklist@.len() && worklist@[idx] == v;
                    assert(wl0[idx] == v);
                }
            }
            if contains_coord(&visited, x) {
                proof {
                    assert forall|v: Coord, b: Coord|
                        visited@.contains(v) && #[trigger] edge(g, v, b) implies (
                    visited@.contains(b) || worklist@.contains(b)) by {
                        if b != x {
                            assert(visited@.contains(b) || wl0.contains(b));
                        }
                    }
                }
            } else {
                let ghost vis0 = visited@;
                visited.push(x);
                proof {
                    assert(!vis0.contains(x));
                    lemma_push_props(vis0, x);
                    assert(visited@[vis0.len() as int] == x);
                    assert(visited@.contains(x));
                    broadcast use vstd::seq_lib::lemma_seq_contains_after_push;

                    if self.reverse@.contains_key(x) {
                        assert forall|b: Coord| #[trigger]
                            self.reverse@[x]@.contains(b) implies uni.contains(b) by {
                            assert(edge(g, x, b));
                            assert(edge(self.fwd(), b, x));
                            assert(self.forward@.contains_key(b));
                        }
                    }
                }
                let succ_opt = self.reverse.get(x);
                if let Some(sv) = succ_opt {
                    let m = sv.len();
                    let mut j: usize = 0;
                    while j < m
                        invariant
                            self.wf(),
                            g == self.rev(),
                            uni == self.forward@.dom().union(self.reverse@.dom()).union(
                                Set::<Coord>::empty().insert(coord),
                            ),
                            uni.finite(),
                            m == sv@.len(),
                            0 <= j <= m,
                            sv@ == self.reverse@[x]@,
                            self.reverse@.contains_key(x),
                            visited@.no_duplicates(),
                            visited@.contains(x),
                            x == coord || reaches(g, coord, x),
                            forall|v: Coord| #[trigger] visited@.contains(v) ==> uni.contains(v),
                            forall|v: Coord| #[trigger] worklist@.contains(v) ==> uni.contains(v),
                            forall|v: Coord| #[trigger]
                                visited@.contains(v) ==> (v == coord || reaches(g, coord, v)),
                            forall|v: Coord| #[trigger]
                                worklist@.contains(v) ==> (v == coord || reaches(g, coord, v)),
                            visited@.contains(coord) || worklist@.contains(coord),
                            forall|v: Coord, b: Coord|
                                visited@.contains(v) && v != x && #[trigger] edge(g, v, b) ==> (
                                visited@.contains(b) || worklist@.contains(b)),
                            forall|mm: int|
                                0 <= mm < j ==> worklist@.contains(#[trigger] sv@[mm]),
                        decreases m - j,
                    {
                        let s = sv[j];
                        proof {
                            assert(sv@[j as int] == s);
                            assert(self.reverse@[x]@.contains(s));
                            assert(edge(g, x, s));
                            assert(edge(self.fwd(), s, x));
                            assert(self.forward@.contains_key(s));
                            assert(uni.contains(s));
                            if x == coord {
                                lemma_edge_reaches(g, coord, s);
                            } else {
                                lemma_reaches_extend(g, coord, x, s);
                            }
                        }
                        let ghost wli = worklist@;
                        worklist.push(s);
                        proof {
                            broadcast use vstd::seq_lib::lemma_seq_contains_after_push;

                            assert(worklist@.contains(s));
                            assert forall|mm: int| 0 <= mm < j + 1 implies worklist@.contains(
                                #[trigger] sv@[mm],
                            ) by {
                                if mm < j {
                                    assert(wli.contains(sv@[mm]));
                                }
                            }
                        }
                        j += 1;
                    }
                    proof {
                        assert forall|v: Coord, b: Coord|
                            visited@.contains(v) && #[trigger] edge(g, v, b) implies (
                        visited@.contains(b) || worklist@.contains(b)) by {
                            if v == x {
                                assert(self.reverse@[x]@.contains(b));
                                let mm = choose|mm: int| 0 <= mm < sv@.len() && sv@[mm] == b;
                                assert(worklist@.contains(sv@[mm]));
                            }
                        }
                    }
                } else {
                    proof {
                        assert forall|v: Coord, b: Coord|
                            visited@.contains(v) && #[trigger] edge(g, v, b) implies (
                        visited@.contains(b) || worklist@.contains(b)) by {
                            if v == x {
                                assert(edge(g, x, b));
                                assert(g.contains_key(x));
                                assert(false);
                            } else {
                                if b != x {
                                    assert(vis0.contains(v));
                                    assert(visited@.contains(b) || wl0.contains(b));
                                }
                            }
                        }
                    }
                }
            }
            proof {
                visited@.unique_seq_to_set();
                assert(visited@.to_set().subset_of(uni));
                lemma_len_subset(visited@.to_set(), uni);
            }
        }
        proof {
            assert(visited@.contains(coord));
            assert forall|x: Coord| #[trigger]
                visited@.contains(x) implies (x == coord || reaches(g, coord, x)) by {}
            assert forall|x: Coord| (x == coord || reaches(g, coord, x)) implies
                visited@.contains(x) by {
                if x != coord {
                    let p = choose|p: Seq<Coord>|
                        is_path(g, p) && p.first() == coord && p.last() == x;
                    assert(closed_set(g, visited@.to_set())) by {
                        assert forall|a: Coord, b: Coord|
                            visited@.to_set().contains(a) && #[trigger] edge(g, a, b) implies
                            visited@.to_set().contains(b) by {
                            assert(visited@.contains(a));
                            assert(visited@.contains(b) || worklist@.contains(b));
                        }
                    }
                    lemma_closed_catches_path(g, p, visited@.to_set());
                }
            }
        }
        visited
    }

    /// The affected closure of `coord` in an order fit for recomputation:
    /// `coord` and all its transitive dependents, arranged so that whenever
    /// one listed cell reads another, the one read comes strictly earlier.
    pub fn affected_closure_topo_order(&self, coord: Coord) -> (r: Vec<Coord>)
        requires
            self.wf(),
            acyclic(self.fwd()),
        ensures
            r@.no_duplicates(),
            r@.contains(coord),
            forall|x: Coord| #[trigger]
                r@.contains(x) <==> (x == coord || reaches(self.rev(), coord, x)),
            forall|i: int, j: int| #![trigger edge(self.fwd(), r@[j], r@[i])]
                0 <= i < r@.len() && 0 <= j < r@.len() && edge(self.fwd(), r@[j], r@[i]) ==> i
                    < j,
    {
        let ghost g = self.fwd();
        let closure = self.gather_closure(coord);
        let mut remaining: Vec<Coord> = copy_coords(&closure);
        let mut result: Vec<Coord> = Vec::new();
        while remaining.len() > 0
            invariant
                self.wf(),
                g == self.fwd(),
                acyclic(g),
                closure@.no_duplicates(),
                remaining@.no_duplicates(),
                result@.no_duplicates(),
                forall|x: Coord| #[trigger]
                    closure@.contains(x) <==> (result@.contains(x) || remaining@.contains(x)),
                forall|x: Coord| #[trigger] result@.contains(x) ==> !remaining@.contains(x),
                forall|x: Coord| #[trigger] result@.contains(x) ==> closure@.contains(x),
                forall|x: Coord| #[trigger] remaining@.contains(x) ==> closure@.contains(x),
                forall|j: int, d: Coord|
                    0 <= j < result@.len() && #[trigger] edge(g, result@[j], d)
                        && closure@.contains(d) ==> exists|i: int|
                        0 <= i < j && result@[i] == d,
            decreases remaining@.len(),
        {
            let mut k: usize = 0;
            let mut found: bool = false;
            while !found && k < remaining.len()
                invariant
                    self.wf(),
                    g == self.fwd(),
                    remaining@.no_duplicates(),
                    0 <= k <= remaining@.len(),
                    found ==> k < remaining@.len(),
                    found ==> forall|d: Coord| #[trigger]
                        edge(g, remaining@[k as int], d) && closure@.contains(d)
                            ==> result@.contains(d),
                    !found ==> forall|kk: int|
                        0 <= kk < k ==> exists|d: Coord|
                            edge(g, #[trigger] remaining@[kk], d) && closure@.contains(d)
                                && !result@.contains(d),
                decreases remaining@.len() - k, if found { 0int } else { 1int },
            {
                let cand = remaining[k];
                proof {
                    assert(remaining@[k as int] == cand);
                }
                let mut ok: bool = true;
                let deps_opt = self.forward.get(cand);
                if let Some(dv) = deps_opt {
                    let m = dv.len();
                    let mut mm: usize = 0;
                    while ok && mm < m
                        invariant
                            self.wf(),
                            g == self.fwd(),
                            m == dv@.len(),
                            0 <= mm <= m,
                            dv@ == self.forward@[cand]@,
                            self.forward@.contains_key(cand),
                            ok ==> forall|q: int|
                                0 <= q < mm ==> !(closure@.contains(#[trigger] dv@[q])
                                    && !result@.contains(dv@[q])),
                            !ok ==> exists|d: Coord|
                                edge(g, cand, d) && closure@.contains(d) && !result@.contains(d),
                        decreases m - mm, if ok { 1int } else { 0int },
                    {
                        let d = dv[mm];
                        proof {
                            assert(dv@[mm as int] == d);
                            assert(self.forward@[cand]@.contains(d));
                            assert(edge(g, cand, d));
                        }
                        if contains_coord(&closure, d) && !contains_coord(&result, d) {
                            ok = false;
                        } else {
                            mm += 1;
                        }
                    }
                    proof {
                        if ok {
                            assert forall|d: Coord| #[trigger]
                                edge(g, cand, d) && closure@.contains(d) implies result@.contains(
                                d,
                            ) by {
                                assert(self.forward@[cand]@.contains(d));
                                let q = choose|q: int| 0 <= q < dv@.len() && dv@[q] == d;
                                assert(!(closure@.contains(dv@[q]) && !result@.contains(dv@[q])));
                            }
                        }
                    }
                } else {
                    proof {
                        assert forall|d: Coord| #[trigger]
                            edge(g, cand, d) && closure@.contains(d) implies result@.contains(
                            d,
                        ) by {
                            assert(g.contains_key(cand));
                            assert(false);
                        }
                    }
                }
                if ok {
                    found = true;
                } else {
                    k += 1;
                }
            }
            if found {
                let ghost rem0 = remaining@;
                let ghost res0 = result@;
                let cand = remaining[k];
                proof {
                    assert(rem0[k as int] == cand);
                    assert(rem0.contains(cand));
                    lemma_seq_remove_props(rem0, k as int);
                }
                remaining.remove(k);
                proof {
                    assert(!res0.contains(cand));
                    lemma_push_props(res0, cand);
                }
                result.push(cand);
                proof {
                    broadcast use vstd::seq_lib::lemma_seq_contains_after_push;

                    assert(result@ == res0.push(cand));
                    assert(result@.contains(cand));
                    assert forall|j: int, d: Coord|
                        0 <= j < result@.len() && #[trigger] edge(g, result@[j], d)
                            && closure@.contains(d) implies exists|i: int|
                        0 <= i < j && result@[i] == d by {
                        if j < res0.len() {
                            assert(result@[j] == res0[j]);
                            assert(edge(g, res0[j], d));
                            let i = choose|i: int| 0 <= i < j && res0[i] == d;
                            assert(result@[i] == d);
                        } else {
                            assert(result@[j] == cand);
                            assert(res0.contains(d));
                            let i = choose|i: int| 0 <= i < res0.len() && res0[i] == d;
                            assert(result@[i] == d);
                        }
                    }
                }
            } else {
                proof {
                    broadcast use vstd::seq_lib::seq_to_set_is_finite;

                    let s = remaining@.to_set();
                    remaining@.unique_seq_to_set();
                    assert(s.finite());
                    assert(s.len() > 0);
                    lemma_some_node_without_inner_successor(g, s);
                    let x = choose|x: Coord|
                        s.contains(x) && (forall|d: Coord| #[trigger] edge(g, x, d)
                            ==> !s.contains(d));
                    assert(remaining@.contains(x));
                    let kk = choose|kk: int| 0 <= kk < remaining@.len() && remaining@[kk] == x;
                    let d = choose|d: Coord|
                        edge(g, #[trigger] remaining@[kk], d) && closure@.contains(d)
                            && !result@.contains(d);
                    assert(remaining@.contains(d));
                    assert(s.contains(d));
                    assert(false);
                }
            }
        }
        proof {
            assert forall|x: Coord| #[trigger]
                result@.contains(x) <==> (x == coord || reaches(self.rev(), coord, x)) by {
                assert(closure@.contains(x) <==> (result@.contains(x) || remaining@.contains(x)));
            }
            assert(closure@.contains(coord));
            assert(result@.contains(coord));
            assert forall|i: int, j: int| #![trigger edge(g, result@[j], result@[i])]
                0 <= i < result@.len() && 0 <= j < result@.len() && edge(
                    g,
                    result@[j],
                    result@[i],
                ) implies i < j by {
                assert(result@.contains(result@[i]));
                assert(closure@.contains(result@[i]));
                let i2 = choose|i2: int| 0 <= i2 < j && result@[i2] == result@[i];
                assert(i2 == i);
            }
        }
        result
    }
}

} // verus!
