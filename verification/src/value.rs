use rustc_apfloat::Float;
use vstd::prelude::*;

verus! {

/// Bit pattern of +1.0 in IEEE-754 binary64.
pub const ONE_BITS: u64 = 0x3FF0_0000_0000_0000;

/// Sign bit of an IEEE-754 binary64 bit pattern: flipping it negates the number.
pub const SIGN_BIT: u64 = 0x8000_0000_0000_0000;

/// Exponent mask of an IEEE-754 binary64 bit pattern.
pub const EXP_MASK: u64 = 0x7FF0_0000_0000_0000;

/// Mantissa mask of an IEEE-754 binary64 bit pattern.
pub const FRAC_MASK: u64 = 0x000F_FFFF_FFFF_FFFF;

/// Magnitude mask of an IEEE-754 binary64 bit pattern: every bit but the sign.
pub const MAG_MASK: u64 = 0x7FFF_FFFF_FFFF_FFFF;

/// A spreadsheet value: a number, held as the bit pattern of an IEEE-754
/// binary64 floating-point number, or `Unity`, the algebraic identity that
/// stands for an empty cell (it acts as zero under addition and subtraction
/// and as one under multiplication and division).
///
/// `==` compares values the way IEEE-754 compares the numbers they encode:
/// a NaN equals nothing, not even itself; the two zeros are equal; any other
/// number is equal exactly to its own bit pattern; `Unity` equals only
/// `Unity`. In contracts this is `spec_value_eq`; the logical equality `==`
/// of specifications remains equality of representations.
#[derive(Clone, Copy, Debug)]
pub enum CellValue {
    Num(u64),
    Unity,
}

/// The bit pattern encodes a NaN: exponent bits all ones, mantissa not zero.
pub open spec fn spec_is_nan(b: u64) -> bool {
    b & EXP_MASK == EXP_MASK && b & FRAC_MASK != 0u64
}

/// The bit pattern encodes a zero, of either sign.
pub open spec fn spec_is_zero(b: u64) -> bool {
    b & MAG_MASK == 0u64
}

/// IEEE-754 equality of two binary64 bit patterns: false when either side is
/// a NaN; the two zeros are equal; otherwise a binary64 value has exactly one
/// encoding, so equal numbers are equal patterns.
pub open spec fn spec_num_eq(a: u64, b: u64) -> bool {
    !spec_is_nan(a) && !spec_is_nan(b) && (a == b || (spec_is_zero(a) && spec_is_zero(b)))
}

/// Equality of values: numbers compare as IEEE-754 doubles, `Unity` equals
/// only itself, and the two tags never compare equal.
pub open spec fn spec_value_eq(a: CellValue, b: CellValue) -> bool {
    match (a, b) {
        (CellValue::Num(x), CellValue::Num(y)) => spec_num_eq(x, y),
        (CellValue::Unity, CellValue::Unity) => true,
        _ => false,
    }
}

impl PartialEq for CellValue {
    /// IEEE-754 equality: a NaN equals nothing, the two zeros are equal,
    /// `Unity` equals only `Unity`.
    fn eq(&self, other: &CellValue) -> (r: bool) {
        match (self, other) {
            (CellValue::Num(x), CellValue::Num(y)) => {
                let a = *x;
                let b = *y;
                let nan_a = a & EXP_MASK == EXP_MASK && a & FRAC_MASK != 0;
                let nan_b = b & EXP_MASK == EXP_MASK && b & FRAC_MASK != 0;
                let zero_a = a & MAG_MASK == 0;
                let zero_b = b & MAG_MASK == 0;
                !nan_a && !nan_b && (a == b || (zero_a && zero_b))
            },
            (CellValue::Unity, CellValue::Unity) => true,
            _ => false,
        }
    }
}

impl vstd::std_specs::cmp::PartialEqSpecImpl for CellValue {
    open spec fn obeys_eq_spec() -> bool {
        true
    }

    open spec fn eq_spec(&self, other: &CellValue) -> bool {
        spec_value_eq(*self, *other)
    }
}

/// Bit pattern of the IEEE-754 binary64 sum of the numbers with bit patterns
/// `a` and `b`, rounded to nearest, ties to even.
pub uninterp spec fn add_bits(a: u64, b: u64) -> u64;

/// Bit pattern of the IEEE-754 binary64 difference of the numbers with bit
/// patterns `a` and `b`, rounded to nearest, ties to even.
pub uninterp spec fn sub_bits(a: u64, b: u64) -> u64;

/// Bit pattern of the IEEE-754 binary64 product of the numbers with bit
/// patterns `a` and `b`, rounded to nearest, ties to even.
pub uninterp spec fn mul_bits(a: u64, b: u64) -> u64;

/// Bit pattern of the IEEE-754 binary64 quotient of the numbers with bit
/// patterns `a` and `b`, rounded to nearest, ties to even; division by zero
/// yields an infinity and invalid cases yield a NaN, as IEEE-754 directs.
pub uninterp spec fn div_bits(a: u64, b: u64) -> u64;

/// Relies on `rustc_apfloat::Float::add_r` at `ieee::Double`: binary64
/// addition whose result depends on the operands' bit patterns alone.
#[verifier::external_body]
fn add_raw(a: u64, b: u64) -> (r: u64)
    ensures
        r == add_bits(a, b),
{
    let x = rustc_apfloat::ieee::Double::from_bits(a as u128);
    let y = rustc_apfloat::ieee::Double::from_bits(b as u128);
    x.add_r(y, rustc_apfloat::Round::NearestTiesToEven).value.to_bits() as u64
}

/// Relies on `rustc_apfloat::Float::sub_r` at `ieee::Double`: binary64
/// subtraction whose result depends on the operands' bit patterns alone.
#[verifier::external_body]
fn sub_raw(a: u64, b: u64) -> (r: u64)
    ensures
        r == sub_bits(a, b),
{
    let x = rustc_apfloat::ieee::Double::from_bits(a as u128);
    let y = rustc_apfloat::ieee::Double::from_bits(b as u128);
    x.sub_r(y, rustc_apfloat::Round::NearestTiesToEven).value.to_bits() as u64
}

/// Relies on `rustc_apfloat::Float::mul_r` at `ieee::Double`: binary64
/// multiplication whose result depends on the operands' bit patterns alone.
#[verifier::external_body]
fn mul_raw(a: u64, b: u64) -> (r: u64)
    ensures
        r == mul_bits(a, b),
{
    let x = rustc_apfloat::ieee::Double::from_bits(a as u128);
    let y = rustc_apfloat::ieee::Double::from_bits(b as u128);
    x.mul_r(y, rustc_apfloat::Round::NearestTiesToEven).value.to_bits() as u64
}

/// Relies on `rustc_apfloat::Float::div_r` at `ieee::Double`: binary64
/// division whose result depends on the operands' bit patterns alone.
#[verifier::external_body]
fn div_raw(a: u64, b: u64) -> (r: u64)
    ensures
        r == div_bits(a, b),
{
    let x = rustc_apfloat::ieee::Double::from_bits(a as u128);
    let y = rustc_apfloat::ieee::Double::from_bits(b as u128);
    x.div_r(y, rustc_apfloat::Round::NearestTiesToEven).value.to_bits() as u64
}

/// Sum of two values: `Unity` acts as zero on either side.
pub open spec fn spec_add(a: CellValue, b: CellValue) -> CellValue {
    match (a, b) {
        (CellValue::Num(x), CellValue::Num(y)) => CellValue::Num(add_bits(x, y)),
        (CellValue::Num(x), CellValue::Unity) => CellValue::Num(x),
        (CellValue::Unity, CellValue::Num(y)) => CellValue::Num(y),
        (CellValue::Unity, CellValue::Unity) => CellValue::Unity,
    }
}

/// Difference of two values: `Unity` acts as zero, so `Unity - Num(y)`
/// is the negation of `y`, written by flipping the sign bit.
pub open spec fn spec_sub(a: CellValue, b: CellValue) -> CellValue {
    match (a, b) {
        (CellValue::Num(x), CellValue::Num(y)) => CellValue::Num(sub_bits(x, y)),
        (CellValue::Num(x), CellValue::Unity) => CellValue::Num(x),
        (CellValue::Unity, CellValue::Num(y)) => CellValue::Num(y ^ SIGN_BIT),
        (CellValue::Unity, CellValue::Unity) => CellValue::Unity,
    }
}

/// Product of two values: `Unity` acts as one on either side.
pub open spec fn spec_mul(a: CellValue, b: CellValue) -> CellValue {
    match (a, b) {
        (CellValue::Num(x), CellValue::Num(y)) => CellValue::Num(mul_bits(x, y)),
        (CellValue::Num(x), CellValue::Unity) => CellValue::Num(x),
        (CellValue::Unity, CellValue::Num(y)) => CellValue::Num(y),
        (CellValue::Unity, CellValue::Unity) => CellValue::Unity,
    }
}

/// Quotient of two values: `Unity` acts as one, so `Unity / Num(y)` is the
/// reciprocal of `y`, and `Unity / Unity` stays `Unity` to keep the identity
/// closed under the algebra.
pub open spec fn spec_div(a: CellValue, b: CellValue) -> CellValue {
    match (a, b) {
        (CellValue::Num(x), CellValue::Num(y)) => CellValue::Num(div_bits(x, y)),
        (CellValue::Num(x), CellValue::Unity) => CellValue::Num(x),
        (CellValue::Unity, CellValue::Num(y)) => CellValue::Num(div_bits(ONE_BITS, y)),
        (CellValue::Unity, CellValue::Unity) => CellValue::Unity,
    }
}

impl CellValue {
    /// Add `other` to this value.
    pub fn add(self, other: CellValue) -> (r: CellValue)
        ensures
            r == spec_add(self, other),
    {
        match (self, other) {
            (CellValue::Num(x), CellValue::Num(y)) => CellValue::Num(add_raw(x, y)),
            (CellValue::Num(x), CellValue::Unity) => CellValue::Num(x),
            (CellValue::Unity, CellValue::Num(y)) => CellValue::Num(y),
            (CellValue::Unity, CellValue::Unity) => CellValue::Unity,
        }
    }

    /// Subtract `other` from this value.
    pub fn sub(self, other: CellValue) -> (r: CellValue)
        ensures
            r == spec_sub(self, other),
    {
        match (self, other) {
            (CellValue::Num(x), CellValue::Num(y)) => CellValue::Num(sub_raw(x, y)),
            (CellValue::Num(x), CellValue::Unity) => CellValue::Num(x),
            (CellValue::Unity, CellValue::Num(y)) => CellValue::Num(y ^ SIGN_BIT),
            (CellValue::Unity, CellValue::Unity) => CellValue::Unity,
        }
    }

    /// Multiply this value by `other`.
    pub fn mul(self, other: CellValue) -> (r: CellValue)
        ensures
            r == spec_mul(self, other),
    {
        match (self, other) {
            (CellValue::Num(x), CellValue::Num(y)) => CellValue::Num(mul_raw(x, y)),
            (CellValue::Num(x), CellValue::Unity) => CellValue::Num(x),
            (CellValue::Unity, CellValue::Num(y)) => CellValue::Num(y),
            (CellValue::Unity, CellValue::Unity) => CellValue::Unity,
        }
    }

    /// Divide this value by `other`.
    pub fn div(self, other: CellValue) -> (r: CellValue)
        ensures
            r == spec_div(self, other),
    {
        match (self, other) {
            (CellValue::Num(x), CellValue::Num(y)) => CellValue::Num(div_raw(x, y)),
            (CellValue::Num(x), CellValue::Unity) => CellValue::Num(x),
            (CellValue::Unity, CellValue::Num(y)) => CellValue::Num(div_raw(ONE_BITS, y)),
            (CellValue::Unity, CellValue::Unity) => CellValue::Unity,
        }
    }
}

/// Identity laws of the value algebra: `Unity` is a two-sided identity for
/// addition and multiplication and a right identity for subtraction and
/// division, while on the left of a subtraction it negates the number and on
/// the left of a division it takes the reciprocal.
pub proof fn lemma_unity_identity_laws(v: u64)
    ensures
        spec_add(CellValue::Unity, CellValue::Num(v)) == CellValue::Num(v),
        spec_add(CellValue::Num(v), CellValue::Unity) == CellValue::Num(v),
        spec_mul(CellValue::Unity, CellValue::Num(v)) == CellValue::Num(v),
        spec_mul(CellValue::Num(v), CellValue::Unity) == CellValue::Num(v),
        spec_sub(CellValue::Num(v), CellValue::Unity) == CellValue::Num(v),
        spec_sub(CellValue::Unity, CellValue::Num(v)) == CellValue::Num(v ^ SIGN_BIT),
        spec_div(CellValue::Num(v), CellValue::Unity) == CellValue::Num(v),
        spec_div(CellValue::Unity, CellValue::Num(v)) == CellValue::Num(
            div_bits(ONE_BITS, v),
        ),
        spec_add(CellValue::Unity, CellValue::Unity) == CellValue::Unity,
        spec_mul(CellValue::Unity, CellValue::Unity) == CellValue::Unity,
        spec_value_eq(CellValue::Unity, CellValue::Unity),
{
}

} // verus!
