//! Fixed-precision decimal arithmetic for the pricing paths.
//!
//! Consensus forbids floating point here: every node must produce
//! bit-identical costs. All arithmetic is delegated to `rust_decimal`, whose
//! values are a 96-bit integer mantissa scaled by a power of ten between 0
//! and 28. A [`Dec`] holds exactly those constituents as plain values, so
//! contracts can speak about them; every operation crosses into the crate
//! through a trusted wrapper.
use vstd::prelude::*;

use rust_decimal::Decimal;
use rust_decimal::MathematicalOps;
use rust_decimal::prelude::ToPrimitive;

verus! {

/// The largest mantissa magnitude a decimal can carry: `2^96 - 1`.
pub const MAX_DEC_MANTISSA: i128 = 0x0000_0000_FFFF_FFFF_FFFF_FFFF_FFFF_FFFFi128;

/// The largest power of ten a decimal can be scaled down by.
pub const MAX_DEC_SCALE: u32 = 28;

/// A fixed-point decimal with value `mantissa / 10^scale`.
#[derive(Clone, Copy, PartialEq, Eq, Structural, Debug)]
pub struct Dec {
    pub mantissa: i128,
    pub scale: u32,
}

impl Dec {
    /// The representable domain: a 96-bit mantissa and a scale of at most 28.
    pub open spec fn wf(self) -> bool {
        &&& -MAX_DEC_MANTISSA <= self.mantissa <= MAX_DEC_MANTISSA
        &&& self.scale <= MAX_DEC_SCALE
    }

    pub open spec fn model(self) -> (int, int) {
        (self.mantissa as int, self.scale as int)
    }
}

/// The mantissa/scale pair of an optional decimal, for stating what the
/// checked operations return.
pub open spec fn opt_model(r: Option<Dec>) -> Option<(int, int)> {
    match r {
        Some(d) => Some(d.model()),
        None => None,
    }
}

pub open spec fn pow10(e: int) -> int
    decreases e,
{
    if e <= 0 {
        1
    } else {
        10 * pow10(e - 1)
    }
}

/// The decimal holding an ordinary monetary amount: mantissa `x`, scale 0.
/// This is what `u64` conversion to a decimal yields.
pub fn dec_from_u64(x: u64) -> (r: Dec)
    ensures
        r.wf(),
        r.mantissa == x,
        r.scale == 0,
{
    Dec { mantissa: x as i128, scale: 0 }
}

pub fn dec_zero() -> (r: Dec)
    ensures
        r.wf(),
        r.mantissa == 0,
        r.scale == 0,
{
    Dec { mantissa: 0, scale: 0 }
}

/// What converting a decimal to a `u64` yields: nothing for a negative
/// value, the value truncated toward zero when it fits, nothing otherwise.
pub open spec fn to_u64_of(m: int, s: int) -> Option<int> {
    if m < 0 {
        None
    } else if m / pow10(s) < 0x1_0000_0000_0000_0000 {
        Some(m / pow10(s))
    } else {
        None
    }
}

/// What `rust_decimal`'s checked addition returns where rescaling has to
/// round; on the stated exact sub-domains the wrapper's contract pins the
/// result instead.
pub uninterp spec fn add_of(am: int, asc: int, bm: int, bsc: int) -> Option<(int, int)>;

pub uninterp spec fn sub_of(am: int, asc: int, bm: int, bsc: int) -> Option<(int, int)>;

pub uninterp spec fn mul_of(am: int, asc: int, bm: int, bsc: int) -> Option<(int, int)>;

pub uninterp spec fn div_of(am: int, asc: int, bm: int, bsc: int) -> Option<(int, int)>;

/// The decimal exponential, `e^(m / 10^s)`, as `rust_decimal` computes it.
pub uninterp spec fn exp_of(m: int, s: int) -> Option<(int, int)>;

/// The decimal natural logarithm of `m / 10^s`, as `rust_decimal` computes
/// it.
pub uninterp spec fn ln_of(m: int, s: int) -> Option<(int, int)>;

/// Relies on `rust_decimal::Decimal::checked_add`: adding a zero is the
/// identity, addition at a common scale is exact mantissa addition while the
/// sum stays within 96 bits, and every other case is the crate's
/// deterministic rescaling, named `add_of`.
#[verifier::external_body]
pub fn dec_add(a: &Dec, b: &Dec) -> (r: Option<Dec>)
    requires
        a.wf(),
        b.wf(),
    ensures
        opt_model(r) == add_of(a.mantissa as int, a.scale as int, b.mantissa as int, b.scale as int),
        (r matches Some(c) ==> c.wf()),
        a.mantissa == 0 ==> r == Some(*b),
        a.mantissa != 0 && b.mantissa == 0 ==> r == Some(*a),
        a.scale == b.scale && -MAX_DEC_MANTISSA <= a.mantissa + b.mantissa <= MAX_DEC_MANTISSA
            ==> opt_model(r) == Some(((a.mantissa + b.mantissa) as int, a.scale as int)),
{
    let x = Decimal::from_i128_with_scale(a.mantissa, a.scale);
    let y = Decimal::from_i128_with_scale(b.mantissa, b.scale);
    match x.checked_add(y) {
        Some(z) => Some(Dec { mantissa: z.mantissa(), scale: z.scale() }),
        None => None,
    }
}

/// Relies on `rust_decimal::Decimal::checked_sub`: subtracting zero is the
/// identity, subtracting from zero negates, subtraction at a common scale is
/// exact mantissa subtraction, and every other case is named `sub_of`.
#[verifier::external_body]
pub fn dec_sub(a: &Dec, b: &Dec) -> (r: Option<Dec>)
    requires
        a.wf(),
        b.wf(),
    ensures
        opt_model(r) == sub_of(a.mantissa as int, a.scale as int, b.mantissa as int, b.scale as int),
        (r matches Some(c) ==> c.wf()),
        a.mantissa == 0 ==> opt_model(r) == Some((-b.mantissa as int, b.scale as int)),
        a.mantissa != 0 && b.mantissa == 0 ==> r == Some(*a),
        a.scale == b.scale && -MAX_DEC_MANTISSA <= a.mantissa - b.mantissa <= MAX_DEC_MANTISSA
            ==> opt_model(r) == Some(((a.mantissa - b.mantissa) as int, a.scale as int)),
{
    let x = Decimal::from_i128_with_scale(a.mantissa, a.scale);
    let y = Decimal::from_i128_with_scale(b.mantissa, b.scale);
    match x.checked_sub(y) {
        Some(z) => Some(Dec { mantissa: z.mantissa(), scale: z.scale() }),
        None => None,
    }
}

/// Relies on `rust_decimal::Decimal::checked_mul`: a zero factor yields the
/// zero of scale 0, multiplication is exact mantissa multiplication at the
/// summed scale while both stay in range, and every other case is named
/// `mul_of`.
#[verifier::external_body]
pub fn dec_mul(a: &Dec, b: &Dec) -> (r: Option<Dec>)
    requires
        a.wf(),
        b.wf(),
    ensures
        opt_model(r) == mul_of(a.mantissa as int, a.scale as int, b.mantissa as int, b.scale as int),
        (r matches Some(c) ==> c.wf()),
        a.mantissa == 0 || b.mantissa == 0 ==> opt_model(r) == Some((0int, 0int)),
        (a.mantissa != 0 && b.mantissa != 0
            && -MAX_DEC_MANTISSA <= a.mantissa * b.mantissa <= MAX_DEC_MANTISSA
            && a.scale + b.scale <= MAX_DEC_SCALE)
            ==> opt_model(r) == Some((a.mantissa * b.mantissa, a.scale + b.scale)),
{
    let x = Decimal::from_i128_with_scale(a.mantissa, a.scale);
    let y = Decimal::from_i128_with_scale(b.mantissa, b.scale);
    match x.checked_mul(y) {
        Some(z) => Some(Dec { mantissa: z.mantissa(), scale: z.scale() }),
        None => None,
    }
}

/// Relies on `rust_decimal::Decimal::checked_div`: division by zero fails, a
/// zero dividend yields the zero of scale 0, and every other case is the
/// crate's deterministic long division, named `div_of`.
#[verifier::external_body]
pub fn dec_div(a: &Dec, b: &Dec) -> (r: Option<Dec>)
    requires
        a.wf(),
        b.wf(),
    ensures
        opt_model(r) == div_of(a.mantissa as int, a.scale as int, b.mantissa as int, b.scale as int),
        (r matches Some(c) ==> c.wf()),
        b.mantissa == 0 ==> r == None::<Dec>,
        a.mantissa == 0 && b.mantissa != 0 ==> opt_model(r) == Some((0int, 0int)),
{
    let x = Decimal::from_i128_with_scale(a.mantissa, a.scale);
    let y = Decimal::from_i128_with_scale(b.mantissa, b.scale);
    match x.checked_div(y) {
        Some(z) => Some(Dec { mantissa: z.mantissa(), scale: z.scale() }),
        None => None,
    }
}

/// Relies on `rust_decimal::MathematicalOps::checked_exp`: the exponential of
/// zero is one, and every other case is the crate's Taylor evaluation, named
/// `exp_of`; the result depends on the argument alone.
#[verifier::external_body]
pub fn dec_exp(a: &Dec) -> (r: Option<Dec>)
    requires
        a.wf(),
    ensures
        opt_model(r) == exp_of(a.mantissa as int, a.scale as int),
        (r matches Some(c) ==> c.wf()),
        a.mantissa == 0 ==> opt_model(r) == Some((1int, 0int)),
{
    let x = Decimal::from_i128_with_scale(a.mantissa, a.scale);
    match x.checked_exp() {
        Some(z) => Some(Dec { mantissa: z.mantissa(), scale: z.scale() }),
        None => None,
    }
}

/// Relies on `rust_decimal::MathematicalOps::checked_ln`: it fails exactly on
/// non-positive arguments, the logarithm of one is zero, and every other case
/// is the crate's evaluation, named `ln_of`; the result depends on the
/// argument alone.
#[verifier::external_body]
pub fn dec_ln(a: &Dec) -> (r: Option<Dec>)
    requires
        a.wf(),
    ensures
        opt_model(r) == ln_of(a.mantissa as int, a.scale as int),
        (r matches Some(c) ==> c.wf()),
        a.mantissa <= 0 ==> r == None::<Dec>,
        a.mantissa == 1 && a.scale == 0 ==> opt_model(r) == Some((0int, 0int)),
{
    let x = Decimal::from_i128_with_scale(a.mantissa, a.scale);
    match x.checked_ln() {
        Some(z) => Some(Dec { mantissa: z.mantissa(), scale: z.scale() }),
        None => None,
    }
}

/// Relies on `rust_decimal`'s `ToPrimitive::to_u64`: negative values yield
/// nothing, other values are truncated toward zero and returned when they fit
/// in 64 bits.
#[verifier::external_body]
pub fn dec_to_u64(a: &Dec) -> (r: Option<u64>)
    requires
        a.wf(),
    ensures
        match r {
            Some(v) => to_u64_of(a.mantissa as int, a.scale as int) == Some(v as int),
            None => to_u64_of(a.mantissa as int, a.scale as int) == None::<int>,
        },
{
    let x = Decimal::from_i128_with_scale(a.mantissa, a.scale);
    x.to_u64()
}

/// Relies on `rust_decimal`'s `PartialOrd`, which orders decimals by their
/// numeric value: `a > b` iff `a.mantissa * 10^b.scale > b.mantissa *
/// 10^a.scale`.
#[verifier::external_body]
pub fn dec_gt(a: &Dec, b: &Dec) -> (r: bool)
    requires
        a.wf(),
        b.wf(),
    ensures
        r == (a.mantissa * pow10(b.scale as int) > b.mantissa * pow10(a.scale as int)),
{
    let x = Decimal::from_i128_with_scale(a.mantissa, a.scale);
    let y = Decimal::from_i128_with_scale(b.mantissa, b.scale);
    x > y
}

/// Converting a monetary amount to a decimal and back returns the amount:
/// the decimal carries mantissa `x` at scale 0, and truncation at scale 0 is
/// the identity on a non-negative 64-bit mantissa.
pub proof fn lemma_u64_decimal_round_trip(x: u64)
    ensures
        to_u64_of(x as int, 0) == Some(x as int),
{
    assert(pow10(0) == 1);
    assert(x as int / 1int == x as int);
}

} // verus!
