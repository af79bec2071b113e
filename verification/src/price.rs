//! Prices: strictly positive monetary values held as counts of minor units.
//!
//! A price with two fractional digits is held exactly as a number of cents,
//! which gives the ordered ladders an integer key with a total order. The
//! constructors that accept decimals convert through the mantissa/scale
//! representation of `rust_decimal` and reject anything that a whole number
//! of cents cannot hold.

use vstd::arithmetic::div_mod::{
    lemma_breakdown, lemma_div_denominator, lemma_div_multiples_vanish, lemma_mod_multiples_basic,
};
use vstd::prelude::*;

use crate::error::MatchingEngineError;

verus! {

#[verifier::external_type_specification]
#[verifier::external_body]
pub struct ExDecimal(rust_decimal::Decimal);

/// A strictly positive monetary value, held as a count of minor units
/// (cents: two fractional digits).
#[derive(Debug, Clone, Copy, PartialEq, Eq, Structural, PartialOrd, Ord)]
pub struct Price {
    pub cents: i64,
}

/// Ten to the power `e` (one for any non-positive `e`).
pub open spec fn pow10(e: int) -> int
    decreases e,
{
    if e <= 0 {
        1
    } else {
        10 * pow10(e - 1)
    }
}

/// The decimal `m / 10^s` is a whole number of cents.
pub open spec fn exact_cents(m: int, s: int) -> bool {
    (m * 100) % pow10(s) == 0
}

/// The number of cents in the decimal `m / 10^s`.
pub open spec fn cents_of_parts(m: int, s: int) -> int {
    (m * 100) / pow10(s)
}

proof fn lemma_pow10_pos(e: int)
    ensures
        pow10(e) >= 1,
    decreases e,
{
    if e > 0 {
        lemma_pow10_pos(e - 1);
    }
}

/// Ten to the power `e`, for the exponents a decimal scale can produce.
fn pow10_i128(e: u32) -> (r: i128)
    requires
        e <= 26,
    ensures
        r == pow10(e as int),
        r >= 1,
{
    proof {
        reveal_with_fuel(pow10, 28);
    }
    match e {
        0 => 1,
        1 => 10,
        2 => 100,
        3 => 1_000,
        4 => 10_000,
        5 => 100_000,
        6 => 1_000_000,
        7 => 10_000_000,
        8 => 100_000_000,
        9 => 1_000_000_000,
        10 => 10_000_000_000,
        11 => 100_000_000_000,
        12 => 1_000_000_000_000,
        13 => 10_000_000_000_000,
        14 => 100_000_000_000_000,
        15 => 1_000_000_000_000_000,
        16 => 10_000_000_000_000_000,
        17 => 100_000_000_000_000_000,
        18 => 1_000_000_000_000_000_000,
        19 => 10_000_000_000_000_000_000,
        20 => 100_000_000_000_000_000_000,
        21 => 1_000_000_000_000_000_000_000,
        22 => 10_000_000_000_000_000_000_000,
        23 => 100_000_000_000_000_000_000_000,
        24 => 1_000_000_000_000_000_000_000_000,
        25 => 10_000_000_000_000_000_000_000_000,
        _ => 100_000_000_000_000_000_000_000_000,
    }
}

/// The unscaled integer `m` of a decimal `m / 10^scale`, as
/// `rust_decimal::Decimal::mantissa` reads it; a function of the decimal
/// value alone.
pub uninterp spec fn mantissa_of(d: rust_decimal::Decimal) -> int;

/// The exponent `scale` of a decimal `m / 10^scale`, as
/// `rust_decimal::Decimal::scale` reads it; a function of the decimal value
/// alone.
pub uninterp spec fn scale_of(d: rust_decimal::Decimal) -> int;

/// The decimal that `str::parse::<rust_decimal::Decimal>` reads from a
/// string, when it reads one; it depends on the characters alone.
pub uninterp spec fn dec_of_str(s: Seq<char>) -> Option<rust_decimal::Decimal>;

/// The decimal `cents / 10^2` that `rust_decimal::Decimal::new` builds from
/// a count of cents.
pub uninterp spec fn decimal_of_cents(cents: i64) -> rust_decimal::Decimal;

/// The number of cents in a decimal value.
pub open spec fn decimal_cents(d: rust_decimal::Decimal) -> int {
    cents_of_parts(mantissa_of(d), scale_of(d))
}

/// A decimal value can be a price exactly when it is positive, a whole
/// number of cents, and within a 64-bit count of cents.
pub open spec fn decimal_is_price(d: rust_decimal::Decimal) -> bool {
    &&& mantissa_of(d) >= 1
    &&& exact_cents(mantissa_of(d), scale_of(d))
    &&& decimal_cents(d) <= i64::MAX
}

/// Relies on rust_decimal::Decimal::mantissa: the unscaled integer `m` of a
/// decimal `m / 10^scale`; it is assembled from the three 32-bit words of
/// the representation, so its magnitude stays below 2^96.
#[verifier::external_body]
fn decimal_mantissa(d: &rust_decimal::Decimal) -> (r: i128)
    ensures
        r as int == mantissa_of(*d),
        -0x1000000000000000000000000 < r < 0x1000000000000000000000000,
{
    d.mantissa()
}

/// Relies on rust_decimal::Decimal::scale: the exponent of a decimal
/// `m / 10^scale`, which the crate keeps at or below its maximum scale of 28.
#[verifier::external_body]
fn decimal_scale(d: &rust_decimal::Decimal) -> (r: u32)
    ensures
        r as int == scale_of(*d),
        r <= 28,
{
    d.scale()
}

/// Relies on str::parse::<rust_decimal::Decimal>: reads a decimal number
/// from a string; it neither panics nor depends on anything but the
/// characters.
#[verifier::external_body]
fn parse_decimal(s: &str) -> (r: Option<rust_decimal::Decimal>)
    ensures
        r == dec_of_str(s@),
{
    s.parse::<rust_decimal::Decimal>().ok()
}

impl Price {
    /// A price is well formed when it holds at least one cent.
    pub open spec fn wf(self) -> bool {
        self.cents >= 1
    }

    /// Builds a price from a whole number of cents, rejecting anything that
    /// is not strictly positive.
    pub fn from_cents(cents: i64) -> (r: Result<Price, MatchingEngineError>)
        ensures
            cents <= 0 ==> (r matches Err(e) && e is InvalidPrice),
            cents > 0 ==> (r matches Ok(p) && p.cents == cents && p.wf()),
    {
        if cents <= 0 {
            Err(MatchingEngineError::InvalidPrice("price in cents must be positive"))
        } else {
            Ok(Price { cents })
        }
    }

    /// Builds a price from the mantissa/scale representation of a decimal
    /// `mantissa / 10^scale`, rejecting values that are not a positive whole
    /// number of cents representable in 64 bits.
    pub fn from_parts(mantissa: i128, scale: u32) -> (r: Result<Price, MatchingEngineError>)
        requires
            scale <= 28,
        ensures
            r is Ok <==> (mantissa >= 1 && exact_cents(mantissa as int, scale as int)
                && cents_of_parts(mantissa as int, scale as int) <= i64::MAX),
            r matches Ok(p) ==> p.cents == cents_of_parts(mantissa as int, scale as int)
                && p.wf(),
            r matches Err(e) ==> e is InvalidPrice,
    {
        let ghost m: int = mantissa as int;
        let ghost s: int = scale as int;
        if mantissa <= 0 {
            return Err(MatchingEngineError::InvalidPrice("price must be positive"));
        }
        if scale <= 2 {
            let mult: i128 = pow10_i128(2 - scale);
            proof {
                reveal_with_fuel(pow10, 4);
                assert(pow10(0) == 1 && pow10(1) == 10 && pow10(2) == 100);
                if s == 0 {
                    assert(pow10(s) * pow10(2 - s) == 100);
                } else if s == 1 {
                    assert(pow10(s) * pow10(2 - s) == 100);
                } else {
                    assert(s == 2);
                    assert(pow10(s) * pow10(2 - s) == 100);
                }
                lemma_pow10_pos(s);
                lemma_pow10_pos(2 - s);
                lemma_mod_multiples_basic(m * pow10(2 - s), pow10(s));
                lemma_div_multiples_vanish(m * pow10(2 - s), pow10(s));
                assert(pow10(s) * (m * pow10(2 - s)) == m * 100) by (nonlinear_arith)
                    requires
                        pow10(s) * pow10(2 - s) == 100,
                ;
                assert(exact_cents(m, s));
                assert(cents_of_parts(m, s) == m * pow10(2 - s));
                assert(m * pow10(2 - s) >= 1) by (nonlinear_arith)
                    requires
                        m >= 1 && pow10(2 - s) >= 1,
                ;
            }
            match mantissa.checked_mul(mult) {
                None => Err(MatchingEngineError::InvalidPrice("price is too large")),
                Some(c) => {
                    if c > i64::MAX as i128 {
                        Err(MatchingEngineError::InvalidPrice("price is too large"))
                    } else {
                        Ok(Price { cents: c as i64 })
                    }
                },
            }
        } else {
            let d: i128 = pow10_i128(scale - 2);
            let mu: u128 = mantissa as u128;
            let du: u128 = d as u128;
            let rem: u128 = mu % du;
            let quot: u128 = mu / du;
            proof {
                assert(pow10(s) == 10 * pow10(s - 1));
                assert(pow10(s - 1) == 10 * pow10(s - 2));
                assert(pow10(s) == 100 * pow10(s - 2));
                lemma_pow10_pos(s - 2);
                lemma_breakdown(m * 100, 100, pow10(s - 2));
                lemma_mod_multiples_basic(m, 100);
                lemma_div_multiples_vanish(m, 100);
                assert((m * 100) % pow10(s) == 100 * (m % pow10(s - 2)));
                assert(exact_cents(m, s) <==> m % pow10(s - 2) == 0);
                lemma_div_denominator(m * 100, 100, pow10(s - 2));
                assert(cents_of_parts(m, s) == m / pow10(s - 2));
            }
            if rem != 0 {
                Err(MatchingEngineError::InvalidPrice("price has more than two fractional digits"))
            } else {
                if quot > i64::MAX as u128 {
                    Err(MatchingEngineError::InvalidPrice("price is too large"))
                } else {
                    proof {
                        assert(m / pow10(s - 2) >= 1) by {
                            vstd::arithmetic::div_mod::lemma_fundamental_div_mod(
                                m,
                                pow10(s - 2),
                            );
                        };
                    }
                    Ok(Price { cents: quot as i64 })
                }
            }
        }
    }

    /// Builds a price from a decimal value, accepting exactly the positive
    /// whole numbers of cents representable in 64 bits and rejecting the
    /// rest as invalid.
    pub fn new(value: rust_decimal::Decimal) -> (r: Result<Price, MatchingEngineError>)
        ensures
            r is Ok <==> decimal_is_price(value),
            r matches Ok(p) ==> p.cents == decimal_cents(value) && p.wf(),
            r matches Err(e) ==> e is InvalidPrice,
    {
        let m = decimal_mantissa(&value);
        let s = decimal_scale(&value);
        Self::from_parts(m, s)
    }

    /// Builds a price from a decimal string: the string must parse as a
    /// decimal whose value is a positive whole number of cents within 64
    /// bits, and the price holds exactly that many cents.
    pub fn from_str(s: &str) -> (r: Result<Price, MatchingEngineError>)
        ensures
            r is Ok <==> (dec_of_str(s@) matches Some(d) && decimal_is_price(d)),
            r matches Ok(p) ==> (dec_of_str(s@) matches Some(d) && p.cents == decimal_cents(d)
                && p.wf()),
            r matches Err(e) ==> e is InvalidPrice,
    {
        match parse_decimal(s) {
            None => Err(MatchingEngineError::InvalidPrice("price string is not a decimal")),
            Some(d) => Self::new(d),
        }
    }

    /// Relies on rust_decimal::Decimal::new: the decimal value
    /// `cents / 10^2` of this price. For a non-negative count the built
    /// decimal stores that count and scale two unchanged, so it reads back
    /// as exactly these cents.
    #[verifier::external_body]
    pub fn value(&self) -> (r: rust_decimal::Decimal)
        ensures
            r == decimal_of_cents(self.cents),
            self.cents >= 0 ==> (mantissa_of(r) == self.cents as int && scale_of(r) == 2),
    {
        rust_decimal::Decimal::new(self.cents, 2)
    }

    /// The price as a whole number of cents.
    pub fn as_cents(&self) -> (r: i64)
        ensures
            r == self.cents,
    {
        self.cents
    }
}

} // verus!
