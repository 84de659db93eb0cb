use crate::cell::{
    empty_cell, lemma_eval_depends_on_refs, op_refs, operand_refs, spec_eval, spec_resolve, Cell,
    CycleError, Operation, OperationValue,
};
use crate::coord::Coord;
use crate::graph::{
    acyclic, contains_coord, edge, is_path, lemma_edge_reaches, lemma_mirror_reaches,
    lemma_push_props,
    lemma_reaches_extend, lemma_reaches_trans, lemma_replace_targets_acyclic,
    lemma_same_edges_same_reach,
    lemma_subgraph_acyclic, mirrored, reaches, DepGraph,
};
use crate::gridmap::GridMap;
use crate::value::CellValue;
use vstd::prelude::*;

verus! {

/// The value snapshot of a cell map: each present coordinate's cached value.
pub open spec fn values_of(m: Map<Coord, Cell>) -> Map<Coord, CellValue> {
    Map::new(|k: Coord| m.contains_key(k), |k: Coord| m[k].value)
}

/// The formula of `a` reads the cell at `b`.
pub open spec fn dep_edge(m: Map<Coord, Cell>, a: Coord, b: Coord) -> bool {
    m.contains_key(a) && op_refs(m[a].operation).contains(b)
}

/// The dependency graph the formulas induce: each present coordinate points
/// at the coordinates its formula reads.
pub open spec fn dep_graph_of(m: Map<Coord, Cell>) -> Map<Coord, Set<Coord>> {
    Map::new(|k: Coord| m.contains_key(k), |k: Coord| op_refs(m[k].operation))
}

/// The cell at `k` caches exactly what its formula yields against the
/// current values of all cells.
pub open spec fn consistent_at(m: Map<Coord, Cell>, k: Coord) -> bool {
    m[k].value == spec_eval(m[k].operation, values_of(m))
}

/// Every present cell is consistent: no cache is stale.
pub open spec fn consistent(m: Map<Coord, Cell>) -> bool {
    forall|k: Coord| #[trigger] m.contains_key(k) ==> consistent_at(m, k)
}

/// Every coordinate a formula reads has a cell: references never dangle.
pub open spec fn refs_closed(m: Map<Coord, Cell>) -> bool {
    forall|a: Coord, b: Coord| #[trigger] dep_edge(m, a, b) ==> m.contains_key(b)
}


/// Add the target of a reference operand to the list, once.
fn add_target(v: &mut Vec<Coord>, o: &OperationValue)
    requires
        old(v)@.no_duplicates(),
    ensures
        final (v)@.no_duplicates(),
        forall|b: Coord| #[trigger]
            final (v)@.contains(b) <==> (old(v)@.contains(b) || operand_refs(*o).contains(b)),
{
    match o {
        OperationValue::Value(_) => {},
        OperationValue::Cell(c) => {
            if !contains_coord(v, *c) {
                proof {
                    lemma_push_props(v@, *c);
                }
                let ghost v0 = v@;
                v.push(*c);
                proof {
                    broadcast use vstd::seq_lib::lemma_seq_contains_after_push;

                    assert(forall|b: Coord| #[trigger]
                        v@.contains(b) <==> (v0.contains(b) || b == *c));
                }
            }
        },
    }
}

/// The distinct coordinates a formula references, as a list.
fn op_targets(op: &Operation) -> (r: Vec<Coord>)
    ensures
        r@.no_duplicates(),
        forall|b: Coord| #[trigger] r@.contains(b) <==> op_refs(*op).contains(b),
{
    let mut v: Vec<Coord> = Vec::new();
    match op {
        Operation::Literal(o) => {
            add_target(&mut v, o);
        },
        Operation::Add(o1, o2) => {
            add_target(&mut v, o1);
            add_target(&mut v, o2);
        },
        Operation::Sub(o1, o2) => {
            add_target(&mut v, o1);
            add_target(&mut v, o2);
        },
        Operation::Mul(o1, o2) => {
            add_target(&mut v, o1);
            add_target(&mut v, o2);
        },
        Operation::Div(o1, o2) => {
            add_target(&mut v, o1);
            add_target(&mut v, o2);
        },
    }
    v
}


/// After an edit's commit: relate the final table to the three intermediate
/// snapshots. `m0` is the table before, `m2` after vivification, `m3` after
/// the formula and edges were replaced, `mf` after the recompute; `g2` is the
/// rewired graph.
proof fn lemma_install_post(
    m0: Map<Coord, Cell>,
    m2: Map<Coord, Cell>,
    m3: Map<Coord, Cell>,
    mf: Map<Coord, Cell>,
    g2: Map<Coord, Set<Coord>>,
    coord: Coord,
    operation: Operation,
    targets: Seq<Coord>,
)
    requires
        forall|b: Coord| #[trigger] targets.contains(b) <==> op_refs(operation).contains(b),
        forall|k: Coord| #[trigger]
            m2.contains_key(k) <==> (m0.contains_key(k) || k == coord || targets.contains(k)),
        m2.contains_key(coord),
        forall|k: Coord| m0.contains_key(k) ==> (#[trigger] m2[k]) == m0[k],
        forall|k: Coord|
            !m0.contains_key(k) && #[trigger] m2.contains_key(k) ==> m2[k] == empty_cell(),
        m3 == m2.insert(coord, Cell { value: m2[coord].value, operation }),
        forall|a: Coord, b: Coord| #![trigger edge(g2, a, b)] #![trigger dep_edge(m3, a, b)]
            edge(g2, a, b) <==> dep_edge(m3, a, b),
        forall|k: Coord| #[trigger] mf.contains_key(k) <==> m3.contains_key(k),
        forall|k: Coord| #[trigger] mf.contains_key(k) ==> mf[k].operation == m3[k].operation,
        forall|k: Coord| #[trigger]
            mf.contains_key(k) && k != coord && !reaches(g2, k, coord) ==> mf[k].value
                == m3[k].value,
    ensures
        forall|k: Coord| #[trigger]
            mf.contains_key(k) <==> (m0.contains_key(k) || k == coord || op_refs(
                operation,
            ).contains(k)),
        mf.contains_key(coord) && mf[coord].operation == operation,
        forall|k: Coord|
            m0.contains_key(k) && k != coord ==> (#[trigger] mf[k]).operation == m0[k].operation,
        forall|k: Coord|
            !m0.contains_key(k) && k != coord && #[trigger] mf.contains_key(k) ==> mf[k]
                == empty_cell(),
        forall|k: Coord|
            m0.contains_key(k) && k != coord && !reaches(dep_graph_of(mf), k, coord) ==> (
            #[trigger] mf[k]).value == m0[k].value,
{
    assert(mf.contains_key(coord));
    assert(mf[coord].operation == m3[coord].operation);
    assert(m3[coord].operation == operation);
    assert forall|k: Coord| m0.contains_key(k) && k != coord implies (#[trigger] mf[k]).operation
        == m0[k].operation by {
        assert(m2.contains_key(k));
        assert(m3.contains_key(k));
        assert(mf.contains_key(k));
        assert(mf[k].operation == m3[k].operation);
        assert(m3[k].operation == m2[k].operation);
        assert(m2[k] == m0[k]);
    }
    assert forall|k: Coord|
        !m0.contains_key(k) && k != coord && #[trigger] mf.contains_key(k) implies mf[k]
        == empty_cell() by {
        assert(m2.contains_key(k));
        assert(m2[k] == empty_cell());
        assert(m3[k] == empty_cell());
        assert(!reaches(g2, k, coord)) by {
            if reaches(g2, k, coord) {
                let p = choose|p: Seq<Coord>|
                    is_path(g2, p) && p.first() == k && p.last() == coord;
                assert(edge(g2, p[0], p[1]));
                assert(dep_edge(m3, k, p[1]));
                assert(op_refs(empty_cell().operation) =~= Set::<Coord>::empty());
                assert(false);
            }
        }
        assert(mf[k].value == m3[k].value);
        assert(mf[k].operation == m3[k].operation);
    }
    assert forall|a: Coord, b: Coord| #![trigger edge(g2, a, b)] #![trigger edge(dep_graph_of(mf), a, b)]
        edge(g2, a, b) <==> edge(dep_graph_of(mf), a, b) by {
        assert(edge(dep_graph_of(mf), a, b) <==> dep_edge(mf, a, b));
        assert(dep_edge(mf, a, b) <==> dep_edge(m3, a, b)) by {
            if mf.contains_key(a) {
                assert(mf[a].operation == m3[a].operation);
            }
        }
    }
    lemma_same_edges_same_reach(g2, dep_graph_of(mf));
    assert forall|k: Coord|
        m0.contains_key(k) && k != coord && !reaches(dep_graph_of(mf), k, coord) implies (
    #[trigger] mf[k]).value == m0[k].value by {
        assert(!reaches(g2, k, coord));
        assert(m2.contains_key(k));
        assert(m3.contains_key(k));
        assert(mf.contains_key(k));
        assert(mf[k].value == m3[k].value);
        assert(m3[k].value == m2[k].value);
        assert(m2[k] == m0[k]);
    }
}


/// The coordinates a cell transitively reads, among the present cells.
pub open spec fn reach_set(m: Map<Coord, Cell>, k: Coord) -> Set<Coord> {
    m.dom().intersect(Set::new(|x: Coord| reaches(dep_graph_of(m), k, x)))
}

/// Stepping to a direct reference strictly shrinks the set of coordinates
/// transitively read, because no cell reads itself back.
proof fn lemma_reach_set_step(m: Map<Coord, Cell>, k: Coord, c: Coord)
    requires
        m.dom().finite(),
        acyclic(dep_graph_of(m)),
        dep_edge(m, k, c),
        m.contains_key(c),
    ensures
        reach_set(m, c).len() < reach_set(m, k).len(),
{
    let g = dep_graph_of(m);
    assert(edge(g, k, c));
    lemma_edge_reaches(g, k, c);
    assert(reach_set(m, k).contains(c));
    assert(!reach_set(m, c).contains(c));
    assert(reach_set(m, c).subset_of(reach_set(m, k).remove(c))) by {
        assert forall|x: Coord| reach_set(m, c).contains(x) implies reach_set(m, k).remove(
            c,
        ).contains(x) by {
            assert(reaches(g, c, x));
            lemma_reaches_trans(g, k, c, x);
            assert(x != c);
        }
    }
    vstd::set_lib::lemma_len_subset(reach_set(m, k), m.dom());
    assert(reach_set(m, k).finite());
    assert(reach_set(m, k).remove(c).len() == reach_set(m, k).len() - 1);
    vstd::set_lib::lemma_len_subset(reach_set(m, c), reach_set(m, k).remove(c));
}

/// The value of one cell is determined by the formulas alone: two consistent
/// tables with the same cells and the same formulas cache the same value at
/// `k`.
proof fn lemma_value_at_determined(m1: Map<Coord, Cell>, m2: Map<Coord, Cell>, k: Coord)
    requires
        m1.dom().finite(),
        refs_closed(m1),
        consistent(m1),
        acyclic(dep_graph_of(m1)),
        consistent(m2),
        m1.dom() == m2.dom(),
        forall|q: Coord| #[trigger] m1.contains_key(q) ==> m1[q].operation == m2[q].operation,
        m1.contains_key(k),
    ensures
        m1[k].value == m2[k].value,
    decreases reach_set(m1, k).len(),
{
    let op = m1[k].operation;
    assert(m2.contains_key(k));
    assert(m2[k].operation == op);
    assert(consistent_at(m1, k));
    assert(consistent_at(m2, k));
    assert forall|c: Coord|
        op_refs(op).contains(c) implies (#[trigger] values_of(m1).contains_key(c) == values_of(
        m2,
    ).contains_key(c) && (values_of(m1).contains_key(c) ==> values_of(m1)[c] == values_of(
        m2,
    )[c])) by {
        assert(dep_edge(m1, k, c));
        assert(m1.contains_key(c));
        assert(m2.contains_key(c));
        lemma_reach_set_step(m1, k, c);
        lemma_value_at_determined(m1, m2, c);
    }
    lemma_eval_depends_on_refs(op, values_of(m1), values_of(m2));
}

/// Edits are reproducible: the value snapshot of a table is a function of
/// its formulas. Two well-formed tables whose cells carry the same formulas
/// hold the same values everywhere, so re-issuing an identical edit, or
/// replaying a history of edits, always yields the same snapshot.
pub proof fn lemma_values_determined(t1: Table, t2: Table)
    requires
        t1.wf(),
        t2.wf(),
        t1@.dom() == t2@.dom(),
        forall|k: Coord| #[trigger] t1@.contains_key(k) ==> t1@[k].operation == t2@[k].operation,
    ensures
        forall|k: Coord| #[trigger] t1@.contains_key(k) ==> t1@[k] == t2@[k],
{
    let m1 = t1@;
    let m2 = t2@;
    assert(m1.dom().finite()) by {
        crate::gridmap::lemma_seq_to_map_props(t1.cells.entries@);
    }
    assert(acyclic(dep_graph_of(m1))) by {
        assert forall|a: Coord, b: Coord| #![trigger edge(dep_graph_of(m1), a, b)] #![trigger edge(t1.graph.fwd(), a, b)]
            edge(dep_graph_of(m1), a, b) <==> edge(t1.graph.fwd(), a, b) by {
            assert(edge(dep_graph_of(m1), a, b) <==> dep_edge(m1, a, b));
        }
        lemma_same_edges_same_reach(dep_graph_of(m1), t1.graph.fwd());
    }
    assert forall|k: Coord| #[trigger] m1.contains_key(k) implies m1[k] == m2[k] by {
        lemma_value_at_determined(m1, m2, k);
    }
}

/// The sparse grid of cells and the dependency graph over them. The table
/// owns both; all access to cells goes through it, and each successful edit
/// leaves every cached value consistent with its formula.
pub struct Table {
    pub cells: GridMap<Cell>,
    pub graph: DepGraph,
}

impl View for Table {
    type V = Map<Coord, Cell>;

    open spec fn view(&self) -> Map<Coord, Cell> {
        self.cells@
    }
}

impl Table {
    /// The table's invariant: sound stores, a dependency graph that records
    /// exactly what the formulas read, no dangling reference, no cycle, and
    /// no stale cache.
    pub open spec fn wf(&self) -> bool {
        &&& self.shape_wf()
        &&& consistent(self@)
    }

    /// The structural part of the invariant: sound stores, a graph that
    /// records exactly what the formulas read, no dangling reference and no
    /// cycle. During an edit this holds while caches are still being brought
    /// up to date.
    pub open spec fn shape_wf(&self) -> bool {
        &&& self.cells.wf()
        &&& self.graph.wf()
        &&& forall|a: Coord, b: Coord| #![trigger edge(self.graph.fwd(), a, b)] #![trigger dep_edge(self@, a, b)]
            edge(self.graph.fwd(), a, b) <==> dep_edge(self@, a, b)
        &&& refs_closed(self@)
        &&& acyclic(self.graph.fwd())
    }

    /// An empty table: no cells, no edges.
    pub fn new() -> (r: Table)
        ensures
            r.wf(),
            r@ == Map::<Coord, Cell>::empty(),
    {
        let r = Table { cells: GridMap::new(), graph: DepGraph::new() };
        proof {
            assert(forall|a: Coord, b: Coord| !dep_edge(r@, a, b));
            assert(forall|k: Coord| !r@.contains_key(k));
        }
        r
    }

    /// The value of the cell at `coord`, or `Unity` when no cell is there.
    /// A pure read: it never recomputes and never creates a cell.
    pub fn get_value_of_cell(&self, coord: Coord) -> (r: CellValue)
        requires
            self.wf(),
        ensures
            r == if self@.contains_key(coord) {
                self@[coord].value
            } else {
                CellValue::Unity
            },
    {
        match self.cells.get(coord) {
            Some(cell) => cell.get_value(),
            None => CellValue::Unity,
        }
    }

    /// Value of one operand against the table: a literal is itself, a
    /// reference is the target's cached value, `Unity` when the target is
    /// absent.
    fn resolve_operand(&self, o: &OperationValue) -> (r: CellValue)
        requires
            self.cells.wf(),
        ensures
            r == spec_resolve(values_of(self@), *o),
    {
        match o {
            OperationValue::Value(v) => *v,
            OperationValue::Cell(c) => match self.cells.get(*c) {
                Some(cell) => cell.get_value(),
                None => CellValue::Unity,
            },
        }
    }

    /// Value of a formula against the table's current values.
    fn eval_operation(&self, op: &Operation) -> (r: CellValue)
        requires
            self.cells.wf(),
        ensures
            r == spec_eval(*op, values_of(self@)),
    {
        match op {
            Operation::Literal(o) => self.resolve_operand(o),
            Operation::Add(o1, o2) => self.resolve_operand(o1).add(self.resolve_operand(o2)),
            Operation::Sub(o1, o2) => self.resolve_operand(o1).sub(self.resolve_operand(o2)),
            Operation::Mul(o1, o2) => self.resolve_operand(o1).mul(self.resolve_operand(o2)),
            Operation::Div(o1, o2) => self.resolve_operand(o1).div(self.resolve_operand(o2)),
        }
    }

    /// Recompute the cell at `c` from its stored formula and the current
    /// values, and cache the result. The formula and the graph are left as
    /// they are.
    fn update_cell(&mut self, c: Coord)
        requires
            old(self).cells.wf(),
            old(self)@.contains_key(c),
        ensures
            final (self).cells.wf(),
            final (self)@ == old(self)@.insert(
                c,
                Cell {
                    value: spec_eval(old(self)@[c].operation, values_of(old(self)@)),
                    operation: old(self)@[c].operation,
                },
            ),
            final (self).graph == old(self).graph,
    {
        let cell: Cell = match self.cells.get(c) {
            Some(cr) => *cr,
            None => Cell::new(),
        };
        let v = self.eval_operation(&cell.operation);
        self.cells.insert(c, Cell { value: v, operation: cell.operation });
    }


    /// Create an empty cell at `t`, which must be absent. The graph does not
    /// change: an empty cell reads nothing, and nothing read `t` before,
    /// since references never dangle.
    fn vivify_one(&mut self, t: Coord)
        requires
            old(self).wf(),
            !old(self)@.contains_key(t),
        ensures
            final (self).wf(),
            final (self)@ == old(self)@.insert(t, empty_cell()),
            final (self).graph == old(self).graph,
    {
        let ghost m = self@;
        self.cells.insert(t, Cell::new());
        proof {
            let m2 = self@;
            assert(m2 == m.insert(t, empty_cell()));
            assert forall|a: Coord, b: Coord| #![trigger edge(self.graph.fwd(), a, b)] #![trigger dep_edge(m2, a, b)]
                edge(self.graph.fwd(), a, b) <==> dep_edge(m2, a, b) by {
                if a == t {
                    assert(op_refs(empty_cell().operation) =~= Set::<Coord>::empty());
                    assert(!dep_edge(m2, t, b));
                    assert(!dep_edge(m, t, b));
                } else {
                    assert(dep_edge(m2, a, b) <==> dep_edge(m, a, b));
                }
            }
            assert(refs_closed(m2)) by {
                assert forall|a: Coord, b: Coord| #[trigger] dep_edge(m2, a, b) implies
                    m2.contains_key(b) by {
                    assert(dep_edge(m, a, b));
                }
            }
            assert forall|k: Coord| #[trigger] m2.contains_key(k) implies consistent_at(
                m2,
                k,
            ) by {
                if k == t {
                    assert(m2[t] == empty_cell());
                    assert(spec_eval(empty_cell().operation, values_of(m2))
                        == CellValue::Unity);
                } else {
                    assert(m.contains_key(k) && consistent_at(m, k));
                    assert(m2[k] == m[k]);
                    assert forall|c: Coord|
                        op_refs(m2[k].operation).contains(c) implies (#[trigger] values_of(
                        m,
                    ).contains_key(c) == values_of(m2).contains_key(c) && (values_of(
                        m,
                    ).contains_key(c) ==> values_of(m)[c] == values_of(m2)[c])) by {
                        if c == t {
                            assert(dep_edge(m, k, t));
                            assert(m.contains_key(t));
                            assert(false);
                        }
                    }
                    lemma_eval_depends_on_refs(m2[k].operation, values_of(m), values_of(m2));
                }
            }
        }
    }


    /// Replace the formula at `coord`, which must have a cell, and rewire
    /// the graph: the edges its old formula had recorded go away and the new
    /// formula's references come in. The cached value at `coord` is kept for
    /// the recompute pass; no other cell changes, so every other cache stays
    /// consistent. The caller has already checked that no new reference
    /// closes a cycle.
    fn rewire(&mut self, coord: Coord, operation: Operation, targets: &Vec<Coord>)
        requires
            old(self).wf(),
            old(self)@.contains_key(coord),
            targets@.no_duplicates(),
            forall|b: Coord| #[trigger] targets@.contains(b) <==> op_refs(operation).contains(b),
            forall|t: Coord| #[trigger]
                op_refs(operation).contains(t) ==> old(self)@.contains_key(t),
            forall|t: Coord| #[trigger]
                op_refs(operation).contains(t) ==> t != coord && !reaches(
                    old(self).graph.fwd(),
                    t,
                    coord,
                ),
        ensures
            final (self).shape_wf(),
            final (self)@ == old(self)@.insert(
                coord,
                Cell { value: old(self)@[coord].value, operation },
            ),
            forall|k: Coord| #[trigger]
                final (self)@.contains_key(k) && k != coord ==> consistent_at(final (self)@, k),
    {
        let ghost m0 = self@;
        let ghost g0 = self.graph.fwd();
        let cur: Cell = match self.cells.get(coord) {
            Some(c) => *c,
            None => Cell::new(),
        };
        self.cells.insert(coord, Cell { value: cur.value, operation });
        let ghost m1 = self@;
        self.graph.clear_edges_from(coord);
        let n = targets.len();
        let mut ti: usize = 0;
        while ti < n
            invariant
                n == targets@.len(),
                0 <= ti <= n,
                targets@.no_duplicates(),
                self.graph.wf(),
                self@ == m1,
                self.cells.wf(),
                forall|a: Coord, b: Coord| #[trigger]
                    edge(self.graph.fwd(), a, b) <==> ((edge(g0, a, b) && a != coord) || (a == coord
                        && targets@.subrange(0, ti as int).contains(b))),
            decreases n - ti,
        {
            let t = targets[ti];
            let ghost gprev = self.graph.fwd();
            self.graph.add_edge(coord, t);
            proof {
                broadcast use vstd::seq_lib::lemma_seq_contains_after_push;

                assert(targets@.subrange(0, ti + 1) =~= targets@.subrange(0, ti as int).push(
                    targets@[ti as int],
                ));
                assert forall|a: Coord, b: Coord| #[trigger]
                    edge(self.graph.fwd(), a, b) <==> ((edge(g0, a, b) && a != coord) || (a == coord
                        && targets@.subrange(0, ti + 1).contains(b))) by {
                    assert(edge(self.graph.fwd(), a, b) <==> (edge(gprev, a, b) || (a == coord && b
                        == t)));
                }
            }
            ti += 1;
        }
        proof {
            assert(targets@.subrange(0, n as int) =~= targets@);
            let g2 = self.graph.fwd();
            assert(forall|a: Coord, b: Coord| #[trigger]
                edge(g2, a, b) <==> ((edge(g0, a, b) && a != coord) || (a == coord && op_refs(
                    operation,
                ).contains(b))));
            // the graph records exactly what the formulas now read
            assert forall|a: Coord, b: Coord| #![trigger edge(g2, a, b)] #![trigger dep_edge(m1, a, b)]
                edge(g2, a, b) <==> dep_edge(m1, a, b) by {
                if a == coord {
                    assert(m1[coord].operation == operation);
                } else {
                    assert(dep_edge(m1, a, b) <==> dep_edge(m0, a, b));
                    assert(edge(g0, a, b) <==> dep_edge(m0, a, b));
                }
            }
            // no dangling reference
            assert(refs_closed(m1)) by {
                assert forall|a: Coord, b: Coord| #[trigger] dep_edge(m1, a, b) implies
                    m1.contains_key(b) by {
                    if a == coord {
                        assert(op_refs(operation).contains(b));
                        assert(m0.contains_key(b));
                    } else {
                        assert(dep_edge(m0, a, b));
                        assert(m0.contains_key(b));
                    }
                }
            }
            // still no cycle: exactly the validated replacement of targets
            let gext = g0.insert(coord, op_refs(operation));
            lemma_replace_targets_acyclic(g0, coord, op_refs(operation));
            assert forall|a: Coord, b: Coord| #[trigger] edge(g2, a, b) implies edge(
                gext,
                a,
                b,
            ) by {
                if a != coord {
                    assert(edge(g0, a, b));
                }
            }
            lemma_subgraph_acyclic(g2, gext);
            // every other cache is still consistent: no value changed at all
            assert(values_of(m1) =~= values_of(m0));
            assert forall|k: Coord| #[trigger] m1.contains_key(k) && k != coord implies
                consistent_at(m1, k) by {
                assert(m0.contains_key(k));
                assert(consistent_at(m0, k));
                assert(m1[k] == m0[k]);
            }
        }
    }


    /// Recompute the affected closure of `coord` in dependency order: the
    /// cell at `coord` and every transitive dependent, each one after
    /// everything it reads. Afterwards the whole table is consistent again;
    /// no cell outside the closure has its value touched.
    fn recompute_closure(&mut self, coord: Coord)
        requires
            old(self).shape_wf(),
            old(self)@.contains_key(coord),
            forall|k: Coord| #[trigger]
                old(self)@.contains_key(k) && k != coord ==> consistent_at(old(self)@, k),
        ensures
            final (self).wf(),
            final (self).graph == old(self).graph,
            forall|k: Coord| #[trigger]
                final (self)@.contains_key(k) <==> old(self)@.contains_key(k),
            forall|k: Coord| #[trigger]
                final (self)@.contains_key(k) ==> final (self)@[k].operation
                    == old(self)@[k].operation,
            forall|k: Coord| #[trigger]
                final (self)@.contains_key(k) && k != coord && !reaches(
                    old(self).graph.fwd(),
                    k,
                    coord,
                ) ==> final (self)@[k].value == old(self)@[k].value,
    {
        let ghost m0 = self@;
        let ghost gsnap = self.graph;
        let ghost g = self.graph.fwd();
        let ghost rev = self.graph.rev();
        let order = self.graph.affected_closure_topo_order(coord);
        proof {
            assert(mirrored(g, rev));
            assert(mirrored(rev, g)) by {
                assert forall|a: Coord, b: Coord| #![trigger edge(rev, a, b)] #![trigger edge(g, b, a)]
                    edge(rev, a, b) <==> edge(g, b, a) by {}
            }
            assert forall|x: Coord| #[trigger] order@.contains(x) implies m0.contains_key(x) by {
                if x != coord {
                    assert(reaches(rev, coord, x));
                    lemma_mirror_reaches(rev, g, coord, x);
                    assert(reaches(g, x, coord));
                    let p = choose|p: Seq<Coord>|
                        is_path(g, p) && p.first() == x && p.last() == coord;
                    assert(edge(g, p[0], p[1]));
                    assert(dep_edge(m0, x, p[1]));
                }
            }
        }
        let n = order.len();
        let mut idx: usize = 0;
        while idx < n
            invariant
                n == order@.len(),
                0 <= idx <= n,
                self.graph == gsnap,
                g == gsnap.fwd(),
                rev == gsnap.rev(),
                mirrored(g, rev),
                self.cells.wf(),
                gsnap.wf(),
                acyclic(g),
                order@.no_duplicates(),
                order@.contains(coord),
                forall|x: Coord| #[trigger]
                    order@.contains(x) <==> (x == coord || reaches(rev, coord, x)),
                forall|i: int, j: int| #![trigger edge(g, order@[j], order@[i])]
                    0 <= i < n && 0 <= j < n && edge(g, order@[j], order@[i]) ==> i < j,
                forall|x: Coord| #[trigger] order@.contains(x) ==> m0.contains_key(x),
                forall|k: Coord| #[trigger] self@.contains_key(k) <==> m0.contains_key(k),
                forall|k: Coord| #[trigger]
                    self@.contains_key(k) ==> self@[k].operation == m0[k].operation,
                forall|a: Coord, b: Coord| #![trigger edge(g, a, b)] #![trigger dep_edge(self@, a, b)]
                    edge(g, a, b) <==> dep_edge(self@, a, b),
                refs_closed(self@),
                forall|k: Coord| #[trigger]
                    self@.contains_key(k) && !order@.subrange(0, idx as int).contains(k)
                        ==> self@[k].value == m0[k].value,
                forall|k: Coord| #[trigger]
                    self@.contains_key(k) && (!order@.contains(k) || order@.subrange(
                        0,
                        idx as int,
                    ).contains(k)) ==> consistent_at(self@, k),
            decreases n - idx,
        {
            let c = order[idx];
            let ghost mprev = self@;
            proof {
                assert(order@[idx as int] == c);
                assert(order@.contains(c));
                assert(self@.contains_key(c));
            }
            self.update_cell(c);
            proof {
                broadcast use vstd::seq_lib::lemma_seq_contains_after_push;

                let mnew = self@;
                let opc = mprev[c].operation;
                assert(mnew == mprev.insert(
                    c,
                    Cell { value: spec_eval(opc, values_of(mprev)), operation: opc },
                ));
                assert(order@.subrange(0, idx + 1) =~= order@.subrange(0, idx as int).push(c));
                assert(!op_refs(opc).contains(c)) by {
                    if op_refs(opc).contains(c) {
                        assert(dep_edge(mprev, c, c));
                        assert(edge(g, c, c));
                        lemma_edge_reaches(g, c, c);
                    }
                }
                assert forall|cc: Coord|
                    op_refs(opc).contains(cc) implies (#[trigger] values_of(mprev).contains_key(
                    cc,
                ) == values_of(mnew).contains_key(cc) && (values_of(mprev).contains_key(cc)
                    ==> values_of(mprev)[cc] == values_of(mnew)[cc])) by {
                    assert(cc != c);
                }
                lemma_eval_depends_on_refs(opc, values_of(mprev), values_of(mnew));
                assert(consistent_at(mnew, c));
                assert forall|a: Coord, b: Coord| #![trigger edge(g, a, b)] #![trigger dep_edge(mnew, a, b)]
                    edge(g, a, b) <==> dep_edge(mnew, a, b) by {
                    assert(dep_edge(mnew, a, b) <==> dep_edge(mprev, a, b));
                }
                assert forall|k: Coord| #[trigger]
                    mnew.contains_key(k) && (!order@.contains(k) || order@.subrange(
                        0,
                        idx + 1,
                    ).contains(k)) implies consistent_at(mnew, k) by {
                    if k != c {
                        assert(mprev.contains_key(k));
                        assert(!order@.contains(k) || order@.subrange(0, idx as int).contains(k));
                        assert(consistent_at(mprev, k));
                        assert(mnew[k] == mprev[k]);
                        assert(!op_refs(mprev[k].operation).contains(c)) by {
                            if op_refs(mprev[k].operation).contains(c) {
                                assert(dep_edge(mprev, k, c));
                                assert(edge(g, k, c));
                                if !order@.contains(k) {
                                    assert(edge(rev, c, k));
                                    if c == coord {
                                        lemma_edge_reaches(rev, coord, k);
                                    } else {
                                        assert(reaches(rev, coord, c));
                                        lemma_reaches_extend(rev, coord, c, k);
                                    }
                                    assert(order@.contains(k));
                                    assert(false);
                                } else {
                                    let jk = choose|jk: int|
                                        0 <= jk < idx && order@.subrange(0, idx as int)[jk] == k;
                                    assert(order@[jk] == k);
                                    assert(edge(g, order@[jk], order@[idx as int]));
                                    assert(false);
                                }
                            }
                        }
                        assert forall|cc: Coord|
                            op_refs(mnew[k].operation).contains(cc) implies (#[trigger] values_of(
                            mprev,
                        ).contains_key(cc) == values_of(mnew).contains_key(cc) && (values_of(
                            mprev,
                        ).contains_key(cc) ==> values_of(mprev)[cc] == values_of(mnew)[cc])) by {
                            assert(cc != c);
                        }
                        lemma_eval_depends_on_refs(
                            mnew[k].operation,
                            values_of(mprev),
                            values_of(mnew),
                        );
                    }
                }
            }
            idx += 1;
        }
        proof {
            assert(order@.subrange(0, n as int) =~= order@);
            assert forall|k: Coord| #[trigger] self@.contains_key(k) implies consistent_at(
                self@,
                k,
            ) by {
                if order@.contains(k) {
                    assert(order@.subrange(0, n as int).contains(k));
                }
            }
            assert forall|k: Coord| #[trigger]
                self@.contains_key(k) && k != coord && !reaches(g, k, coord) implies self@[k].value
                    == m0[k].value by {
                if order@.contains(k) {
                    assert(reaches(rev, coord, k));
                    assert(mirrored(rev, g)) by {
                        assert forall|a: Coord, b: Coord| #![trigger edge(rev, a, b)] #![trigger edge(g, b, a)]
                            edge(rev, a, b) <==> edge(g, b, a) by {}
                    }
                    lemma_mirror_reaches(rev, g, coord, k);
                    assert(false);
                }
                assert(!order@.subrange(0, n as int).contains(k));
            }
        }
    }


    /// The committing half of an edit, once the cycle check has passed:
    /// vivify the referenced cells, replace the formula and the edges at
    /// `coord`, and recompute the affected closure in dependency order.
    fn install(&mut self, coord: Coord, operation: Operation, targets: &Vec<Coord>)
        requires
            old(self).wf(),
            targets@.no_duplicates(),
            forall|b: Coord| #[trigger] targets@.contains(b) <==> op_refs(operation).contains(b),
            forall|t: Coord| #[trigger]
                op_refs(operation).contains(t) ==> t != coord && !reaches(
                    old(self).graph.fwd(),
                    t,
                    coord,
                ),
        ensures
            final (self).wf(),
            forall|k: Coord| #[trigger]
                final (self)@.contains_key(k) <==> (old(self)@.contains_key(k) || k == coord
                    || op_refs(operation).contains(k)),
            final (self)@.contains_key(coord) && final (self)@[coord].operation == operation,
            forall|k: Coord|
                old(self)@.contains_key(k) && k != coord ==> (#[trigger] final (self)@[k]).operation
                    == old(self)@[k].operation,
            forall|k: Coord|
                !old(self)@.contains_key(k) && k != coord && (#[trigger] final (self)@).contains_key(
                    k,
                ) ==> final (self)@[k] == empty_cell(),
            forall|k: Coord|
                old(self)@.contains_key(k) && k != coord && !reaches(
                    dep_graph_of(final (self)@),
                    k,
                    coord,
                ) ==> (#[trigger] final (self)@[k]).value == old(self)@[k].value,
    {
        let ghost m0 = self@;
        let ghost g0 = self.graph.fwd();
        let n = targets.len();
        let mut ti: usize = 0;
        while ti < n
            invariant
                self.wf(),
                self.graph == old(self).graph,
                m0 == old(self)@,
                g0 == old(self).graph.fwd(),
                n == targets@.len(),
                0 <= ti <= n,
                targets@.no_duplicates(),
                forall|b: Coord| #[trigger] targets@.contains(b) <==> op_refs(operation).contains(
                    b,
                ),
                forall|k: Coord| #[trigger]
                    self@.contains_key(k) <==> (m0.contains_key(k) || targets@.subrange(
                        0,
                        ti as int,
                    ).contains(k)),
                forall|k: Coord| m0.contains_key(k) ==> (#[trigger] self@[k]) == m0[k],
                forall|k: Coord|
                    !m0.contains_key(k) && #[trigger] self@.contains_key(k) ==> self@[k]
                        == empty_cell(),
            decreases n - ti,
        {
            let t = targets[ti];
            proof {
                broadcast use vstd::seq_lib::lemma_seq_contains_after_push;

                assert(targets@.subrange(0, ti + 1) =~= targets@.subrange(0, ti as int).push(
                    targets@[ti as int],
                ));
            }
            if !self.cells.contains_key(t) {
                self.vivify_one(t);
            }
            ti += 1;
        }
        proof {
            assert(targets@.subrange(0, n as int) =~= targets@);
        }
        if !self.cells.contains_key(coord) {
            self.vivify_one(coord);
        }
        let ghost m2 = self@;
        proof {
            assert(m2.contains_key(coord));
            assert forall|t: Coord| #[trigger] op_refs(operation).contains(t) implies
                m2.contains_key(t) by {
                assert(targets@.contains(t));
            }
            assert(self.graph == old(self).graph);
            assert(self.graph.fwd() == g0);
        }
        let ghost vcoord = m2[coord].value;
        self.rewire(coord, operation, targets);
        let ghost m3 = self@;
        let ghost g2 = self.graph.fwd();
        proof {
            assert(m3 == m2.insert(coord, Cell { value: vcoord, operation }));
            assert(m3.contains_key(coord));
        }
        self.recompute_closure(coord);
        proof {
            let mf = self@;
            lemma_install_post(m0, m2, m3, mf, g2, coord, operation, targets@);
        }
    }

    /// Install a formula at `coord`. Every coordinate the formula references
    /// is given an empty cell first if absent. The candidate references are
    /// validated against the dependency graph before anything is committed:
    /// an edit that would close a cycle returns `CycleError` and the table is
    /// left exactly as it was. On success the formula replaces the old one,
    /// the edges are rewired, and the affected closure is recomputed in
    /// dependency order, so every cached value is consistent again. Cells
    /// outside the affected closure keep their values.
    pub fn insert(&mut self, coord: Coord, operation: Operation) -> (res: Result<(), CycleError>)
        requires
            old(self).wf(),
        ensures
            final (self).wf(),
            res is Err <==> exists|t: Coord|
                op_refs(operation).contains(t) && (t == coord || reaches(
                    dep_graph_of(old(self)@),
                    t,
                    coord,
                )),
            res is Err ==> *final (self) == *old(self),
            res is Ok ==> forall|k: Coord| #[trigger]
                final (self)@.contains_key(k) <==> (old(self)@.contains_key(k) || k == coord
                    || op_refs(operation).contains(k)),
            res is Ok ==> final (self)@.contains_key(coord) && final (self)@[coord].operation
                == operation,
            res is Ok ==> forall|k: Coord|
                old(self)@.contains_key(k) && k != coord ==> (#[trigger] final (self)@[k]).operation
                    == old(self)@[k].operation,
            res is Ok ==> forall|k: Coord|
                !old(self)@.contains_key(k) && k != coord && (#[trigger] final (self)@).contains_key(
                    k,
                ) ==> final (self)@[k] == empty_cell(),
            res is Ok ==> forall|k: Coord|
                old(self)@.contains_key(k) && k != coord && !reaches(
                    dep_graph_of(final (self)@),
                    k,
                    coord,
                ) ==> (#[trigger] final (self)@[k]).value == old(self)@[k].value,
    {
        let ghost m0 = self@;
        let ghost g0 = self.graph.fwd();
        let targets = op_targets(&operation);
        proof {
            assert forall|a: Coord, b: Coord| #![trigger edge(g0, a, b)] #![trigger edge(dep_graph_of(m0), a, b)]
                edge(g0, a, b) <==> edge(dep_graph_of(m0), a, b) by {
                assert(edge(dep_graph_of(m0), a, b) <==> dep_edge(m0, a, b));
            }
            lemma_same_edges_same_reach(g0, dep_graph_of(m0));
        }
        if self.graph.would_create_cycle(coord, &targets) {
            proof {
                let i = choose|i: int|
                    0 <= i < targets@.len() && (targets@[i] == coord || reaches(
                        g0,
                        targets@[i],
                        coord,
                    ));
                let t = targets@[i];
                assert(targets@.contains(t));
                assert(op_refs(operation).contains(t));
                assert(t == coord || reaches(dep_graph_of(m0), t, coord));
            }
            return Err(CycleError);
        }
        proof {
            assert forall|t: Coord| #[trigger] op_refs(operation).contains(t) implies t != coord
                && !reaches(g0, t, coord) && !reaches(dep_graph_of(m0), t, coord) by {
                assert(targets@.contains(t));
                let i = choose|i: int| 0 <= i < targets@.len() && targets@[i] == t;
                assert(!(targets@[i] == coord || reaches(g0, targets@[i], coord)));
            }
        }
        self.install(coord, operation, &targets);
        Ok(())
    }

    /// Clear the cell at `coord`: set it back to the literal `Unity`, the
    /// value of an empty cell. A clearing edit references nothing, so it can
    /// never close a cycle, and every dependent of `coord` is recomputed as
    /// with any other edit.
    pub fn clear_cell(&mut self, coord: Coord) -> (res: Result<(), CycleError>)
        requires
            old(self).wf(),
        ensures
            final (self).wf(),
            res is Ok,
            final (self)@.contains_key(coord),
            final (self)@[coord].operation == Operation::Literal(
                OperationValue::Value(CellValue::Unity),
            ),
            final (self)@[coord].value == CellValue::Unity,
            forall|k: Coord| #[trigger]
                final (self)@.contains_key(k) <==> (old(self)@.contains_key(k) || k == coord),
            forall|k: Coord|
                old(self)@.contains_key(k) && k != coord ==> (#[trigger] final (self)@[k]).operation
                    == old(self)@[k].operation,
            forall|k: Coord|
                old(self)@.contains_key(k) && k != coord && !reaches(
                    dep_graph_of(final (self)@),
                    k,
                    coord,
                ) ==> (#[trigger] final (self)@[k]).value == old(self)@[k].value,
    {
        let res = self.insert(
            coord,
            Operation::Literal(OperationValue::Value(CellValue::Unity)),
        );
        proof {
            let op = Operation::Literal(OperationValue::Value(CellValue::Unity));
            assert(op_refs(op) =~= Set::<Coord>::empty());
            assert(res is Ok);
            assert(consistent_at(self@, coord));
            assert(spec_eval(op, values_of(self@)) == CellValue::Unity);
        }
        res
    }

    /// A snapshot of every present cell with its current value. Each call
    /// walks the table afresh; the table itself is not touched.
    pub fn iter(&self) -> (r: Vec<(Coord, CellValue)>)
        requires
            self.wf(),
        ensures
            r@.len() == self@.dom().len(),
            forall|i: int|
                0 <= i < r@.len() ==> self@.contains_key((#[trigger] r@[i]).0) && r@[i].1
                    == self@[r@[i].0].value,
            forall|k: Coord| #[trigger]
                self@.contains_key(k) ==> exists|i: int| 0 <= i < r@.len() && r@[i].0 == k,
            forall|i: int, j: int| #![trigger r@[i].0, r@[j].0]
                0 <= i < r@.len() && 0 <= j < r@.len() && i != j ==> r@[i].0 != r@[j].0,
    {
        proof {
            crate::gridmap::lemma_seq_to_map_props(self.cells.entries@);
        }
        let n = self.cells.len();
        let mut r: Vec<(Coord, CellValue)> = Vec::new();
        let mut i: usize = 0;
        while i < n
            invariant
                self.wf(),
                n == self.cells.entries_seq().len(),
                n == self@.dom().len(),
                0 <= i <= n,
                r@.len() == i,
                forall|j: int|
                    0 <= j < i ==> (#[trigger] r@[j]).0 == self.cells.entries_seq()[j].0 && r@[j].1
                        == self.cells.entries_seq()[j].1.value,
                forall|j: int|
                    0 <= j < i ==> self@.contains_key((#[trigger] r@[j]).0) && r@[j].1
                        == self@[r@[j].0].value,
            decreases n - i,
        {
            let k = self.cells.key_at(i);
            let cell = self.cells.val_at(i);
            r.push((k, cell.get_value()));
            i += 1;
        }
        proof {
            crate::gridmap::lemma_seq_to_map_props(self.cells.entries@);
            assert forall|k: Coord| #[trigger] self@.contains_key(k) implies exists|i: int|
                0 <= i < r@.len() && r@[i].0 == k by {
                let j = choose|j: int|
                    0 <= j < self.cells.entries_seq().len() && self.cells.entries_seq()[j].0 == k;
                assert(r@[j].0 == k);
            }
        }
        r
    }
}

} // verus!
