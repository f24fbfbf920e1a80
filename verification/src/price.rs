//! Exact decimal prices.
//!
//! A price is an arbitrary-precision-style decimal given as an unscaled
//! mantissa and a decimal scale. Internally it is held as a single exact
//! fixed-point number: the mathematical value multiplied by 10^18. Equality
//! and ordering are therefore those of the mathematical value, never of a
//! particular digits/scale spelling, so one value can never occupy two
//! price levels.

use vstd::prelude::*;

verus! {

/// Highest decimal scale a price can carry: values are held in units of
/// 10^-18.
pub const MAX_SCALE: u32 = 18;

/// 10^e over the integers.
pub open spec fn pow10(e: nat) -> int
    decreases e,
{
    if e == 0 {
        1
    } else {
        10 * pow10((e - 1) as nat)
    }
}

/// An exact decimal price; its view is the mathematical value in units of
/// 10^-18.
#[derive(Clone, Copy, Debug, PartialEq, Eq, Structural, Hash)]
pub struct Price {
    units: i128,
}

impl View for Price {
    type V = int;

    closed spec fn view(&self) -> int {
        self.units as int
    }
}

pub proof fn lemma_pow10_positive(e: nat)
    ensures
        pow10(e) >= 1,
    decreases e,
{
    if e > 0 {
        lemma_pow10_positive((e - 1) as nat);
    }
}

/// 10^e for e <= 18; small enough to stay well inside `i128`.
fn pow10_units(e: u32) -> (r: i128)
    requires
        e <= MAX_SCALE,
    ensures
        r == pow10(e as nat),
        1 <= r <= pow10(MAX_SCALE as nat),
{
    let mut r: i128 = 1;
    let mut k: u32 = 0;
    while k < e
        invariant
            k <= e <= MAX_SCALE,
            r == pow10(k as nat),
            1 <= r,
        decreases e - k,
    {
        proof {
            lemma_pow10_monotone(k as nat + 1, MAX_SCALE as nat);
            lemma_pow10_fits(MAX_SCALE as nat);
        }
        r = r * 10;
        k = k + 1;
    }
    proof {
        lemma_pow10_monotone(e as nat, MAX_SCALE as nat);
    }
    r
}

proof fn lemma_pow10_monotone(a: nat, b: nat)
    requires
        a <= b,
    ensures
        pow10(a) <= pow10(b),
    decreases b,
{
    if a < b {
        lemma_pow10_monotone(a, (b - 1) as nat);
        lemma_pow10_positive((b - 1) as nat);
    }
}

proof fn lemma_pow10_fits(e: nat)
    requires
        e <= MAX_SCALE,
    ensures
        pow10(e) <= 1_000_000_000_000_000_000,
{
    lemma_pow10_monotone(e, MAX_SCALE as nat);
    reveal_with_fuel(pow10, 19);
    assert(pow10(MAX_SCALE as nat) == 1_000_000_000_000_000_000);
}

impl Price {
    /// Builds the price `mantissa * 10^-scale`. Scales beyond
    /// [`MAX_SCALE`] are not representable and are rejected.
    pub fn new(mantissa: i64, scale: u32) -> (r: Option<Price>)
        ensures
            match r {
                Some(p) => scale <= MAX_SCALE && p@ == mantissa * pow10((MAX_SCALE - scale) as nat),
                None => scale > MAX_SCALE,
            },
    {
        if scale > MAX_SCALE {
            return None;
        }
        let f = pow10_units(MAX_SCALE - scale);
        proof {
            lemma_pow10_fits((MAX_SCALE - scale) as nat);
            assert((mantissa as int) * f >= (-0x8000_0000_0000_0000) * 1_000_000_000_000_000_000
                && (mantissa as int) * f <= 0x8000_0000_0000_0000 * 1_000_000_000_000_000_000)
                by (nonlinear_arith)
                requires
                    1 <= f <= 1_000_000_000_000_000_000,
                    -0x8000_0000_0000_0000 <= mantissa as int <= 0x7fff_ffff_ffff_ffff,
            ;
        }
        Some(Price { units: (mantissa as i128) * f })
    }

    /// The raw fixed-point value, in units of 10^-18.
    pub fn units(&self) -> (r: i128)
        ensures
            r == self@,
    {
        self.units
    }

    /// Rebuilds a price from its raw fixed-point value.
    pub fn from_units(units: i128) -> (r: Price)
        ensures
            r@ == units,
    {
        Price { units }
    }

    /// Strict order on the mathematical value.
    pub fn lt(&self, other: &Price) -> (r: bool)
        ensures
            r == (self@ < other@),
    {
        self.units < other.units
    }
}

} // verus!
