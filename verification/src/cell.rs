use crate::coord::Coord;
use crate::value::{spec_add, spec_div, spec_mul, spec_sub, CellValue};
use vstd::prelude::*;

verus! {

/// A formula operand: a literal value, or a reference to the cell at a
/// coordinate. A reference resolves to the referenced cell's cached value,
/// or to `Unity` when no cell is present there.
#[derive(Clone, Copy, Debug)]
pub enum OperationValue {
    Value(CellValue),
    Cell(Coord),
}

/// A cell's recipe: a closed set of operator kinds, each of fixed arity,
/// evaluated as a pure function of its operands' resolved values.
#[derive(Clone, Copy, Debug)]
pub enum Operation {
    Literal(OperationValue),
    Add(OperationValue, OperationValue),
    Sub(OperationValue, OperationValue),
    Mul(OperationValue, OperationValue),
    Div(OperationValue, OperationValue),
}

/// The error of an edit whose references would close a dependency cycle.
/// Such an edit is rejected in full and changes nothing.
#[derive(Clone, Copy, PartialEq, Eq, Structural, Debug)]
pub struct CycleError;

/// Value of an operand against a snapshot of cell values: a literal is
/// itself; a reference is the value at its coordinate, `Unity` when unset.
pub open spec fn spec_resolve(vals: Map<Coord, CellValue>, o: OperationValue) -> CellValue {
    match o {
        OperationValue::Value(v) => v,
        OperationValue::Cell(c) => if vals.contains_key(c) {
            vals[c]
        } else {
            CellValue::Unity
        },
    }
}

/// Value of a formula against a snapshot of cell values.
pub open spec fn spec_eval(op: Operation, vals: Map<Coord, CellValue>) -> CellValue {
    match op {
        Operation::Literal(o) => spec_resolve(vals, o),
        Operation::Add(o1, o2) => spec_add(spec_resolve(vals, o1), spec_resolve(vals, o2)),
        Operation::Sub(o1, o2) => spec_sub(spec_resolve(vals, o1), spec_resolve(vals, o2)),
        Operation::Mul(o1, o2) => spec_mul(spec_resolve(vals, o1), spec_resolve(vals, o2)),
        Operation::Div(o1, o2) => spec_div(spec_resolve(vals, o1), spec_resolve(vals, o2)),
    }
}

/// Coordinates an operand reads.
pub open spec fn operand_refs(o: OperationValue) -> Set<Coord> {
    match o {
        OperationValue::Value(_) => Set::empty(),
        OperationValue::Cell(c) => Set::empty().insert(c),
    }
}

/// Coordinates a formula reads: the targets of its reference operands.
pub open spec fn op_refs(op: Operation) -> Set<Coord> {
    match op {
        Operation::Literal(o) => operand_refs(o),
        Operation::Add(o1, o2) => operand_refs(o1).union(operand_refs(o2)),
        Operation::Sub(o1, o2) => operand_refs(o1).union(operand_refs(o2)),
        Operation::Mul(o1, o2) => operand_refs(o1).union(operand_refs(o2)),
        Operation::Div(o1, o2) => operand_refs(o1).union(operand_refs(o2)),
    }
}

/// A formula's value depends only on the values at the coordinates it reads:
/// two snapshots that agree there give the same result.
pub proof fn lemma_eval_depends_on_refs(
    op: Operation,
    v1: Map<Coord, CellValue>,
    v2: Map<Coord, CellValue>,
)
    requires
        forall|c: Coord|
            op_refs(op).contains(c) ==> (#[trigger] v1.contains_key(c) == v2.contains_key(c) && (
            v1.contains_key(c) ==> v1[c] == v2[c])),
    ensures
        spec_eval(op, v1) == spec_eval(op, v2),
{
    match op {
        Operation::Literal(o) => {
            lemma_resolve_agrees(o, op, v1, v2);
        },
        Operation::Add(o1, o2) => {
            lemma_resolve_agrees(o1, op, v1, v2);
            lemma_resolve_agrees(o2, op, v1, v2);
        },
        Operation::Sub(o1, o2) => {
            lemma_resolve_agrees(o1, op, v1, v2);
            lemma_resolve_agrees(o2, op, v1, v2);
        },
        Operation::Mul(o1, o2) => {
            lemma_resolve_agrees(o1, op, v1, v2);
            lemma_resolve_agrees(o2, op, v1, v2);
        },
        Operation::Div(o1, o2) => {
            lemma_resolve_agrees(o1, op, v1, v2);
            lemma_resolve_agrees(o2, op, v1, v2);
        },
    }
}

/// An operand of a formula resolves alike under two snapshots that agree on
/// the formula's references.
proof fn lemma_resolve_agrees(
    o: OperationValue,
    op: Operation,
    v1: Map<Coord, CellValue>,
    v2: Map<Coord, CellValue>,
)
    requires
        operand_refs(o).subset_of(op_refs(op)),
        forall|c: Coord|
            op_refs(op).contains(c) ==> (#[trigger] v1.contains_key(c) == v2.contains_key(c) && (
            v1.contains_key(c) ==> v1[c] == v2[c])),
    ensures
        spec_resolve(v1, o) == spec_resolve(v2, o),
{
    match o {
        OperationValue::Value(_) => {},
        OperationValue::Cell(c) => {
            assert(operand_refs(o).contains(c));
            assert(op_refs(op).contains(c));
        },
    }
}

/// One cell of the table: the cached value and the formula that yields it.
/// After a recompute the cached value equals the formula evaluated against
/// the current values of all referenced cells; the table keeps that so.
#[derive(Clone, Copy, Debug)]
pub struct Cell {
    pub value: CellValue,
    pub operation: Operation,
}

/// The cell a coordinate gets when first referenced: value `Unity`, recipe
/// the literal `Unity`.
pub open spec fn empty_cell() -> Cell {
    Cell {
        value: CellValue::Unity,
        operation: Operation::Literal(OperationValue::Value(CellValue::Unity)),
    }
}

impl Cell {
    /// An implicit, empty cell: value `Unity`, recipe the literal `Unity`.
    pub fn new() -> (r: Cell)
        ensures
            r == (Cell {
                value: CellValue::Unity,
                operation: Operation::Literal(OperationValue::Value(CellValue::Unity)),
            }),
    {
        Cell {
            value: CellValue::Unity,
            operation: Operation::Literal(OperationValue::Value(CellValue::Unity)),
        }
    }

    /// The cached value; a pure read, never a recompute.
    pub fn get_value(&self) -> (r: CellValue)
        ensures
            r == self.value,
    {
        self.value
    }

    /// Replace the stored recipe; the cached value is left alone, since the
    /// table decides when to recompute.
    pub fn set_operation(&mut self, op: Operation)
        ensures
            *final (self) == (Cell { value: old(self).value, operation: op }),
    {
        self.operation = op;
    }

    /// Set the value directly. Any recipe other than a literal would be
    /// violated by a direct write, so the recipe becomes that literal.
    pub fn set_value(&mut self, val: CellValue)
        ensures
            *final (self) == (Cell { value: val, operation: Operation::Literal(
                OperationValue::Value(val),
            ) }),
    {
        self.operation = Operation::Literal(OperationValue::Value(val));
        self.value = val;
    }
}

} // verus!
