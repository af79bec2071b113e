//! Order quantities: non-negative 64-bit unit counts with checked arithmetic.

use vstd::prelude::*;

use crate::error::MatchingEngineError;

verus! {

/// A quantity of units in an order.
///
/// The public constructor rejects zero; only fills inside the engine may
/// drive the remaining quantity of an order to zero.
#[derive(Debug, Clone, Copy, PartialEq, Eq, Structural)]
pub struct Quantity(pub u64);

/// The value that `str::parse::<u64>` reads from a decimal string, when it
/// reads one; it depends on the characters alone.
pub uninterp spec fn u64_of_dec_str(s: Seq<char>) -> Option<u64>;

/// Relies on str::parse::<u64>: parses a decimal string into a 64-bit value.
#[verifier::external_body]
fn parse_u64(s: &str) -> (r: Option<u64>)
    ensures
        r == u64_of_dec_str(s@),
{
    s.parse::<u64>().ok()
}

impl Quantity {
    /// Builds a quantity, rejecting zero.
    pub fn new(value: u64) -> (r: Result<Quantity, MatchingEngineError>)
        ensures
            value == 0 ==> (r matches Err(e) && e is InvalidQuantity),
            value != 0 ==> (r matches Ok(q) && q.0 == value),
    {
        if value == 0 {
            Err(MatchingEngineError::InvalidQuantity("quantity must be greater than zero"))
        } else {
            Ok(Quantity(value))
        }
    }

    /// Builds a quantity that may be zero; used for the residual of a fully
    /// filled order.
    pub(crate) fn new_allow_zero(value: u64) -> (r: Quantity)
        ensures
            r.0 == value,
    {
        Quantity(value)
    }

    /// The raw unit count.
    pub fn value(&self) -> (r: u64)
        ensures
            r == self.0,
    {
        self.0
    }

    /// Parses a quantity from a decimal string, rejecting anything that is
    /// not a positive 64-bit count.
    pub fn from_str(s: &str) -> (r: Result<Quantity, MatchingEngineError>)
        ensures
            match u64_of_dec_str(s@) {
                Some(v) => if v != 0 {
                    r matches Ok(q) && q.0 == v
                } else {
                    r matches Err(e) && e is InvalidQuantity
                },
                None => r matches Err(e) && e is InvalidQuantity,
            },
    {
        match parse_u64(s) {
            Some(v) => Self::new(v),
            None => Err(MatchingEngineError::InvalidQuantity("quantity is not a decimal count")),
        }
    }

    /// True when this quantity can be taken in full out of `available`.
    pub fn can_be_satisfied_by(&self, available: &Quantity) -> (r: bool)
        ensures
            r == (self.0 <= available.0),
    {
        self.0 <= available.0
    }

    /// The smaller of two quantities.
    pub fn min(self, other: Self) -> (r: Self)
        ensures
            r.0 == if self.0 <= other.0 {
                self.0
            } else {
                other.0
            },
    {
        if self.0 <= other.0 {
            self
        } else {
            other
        }
    }

    /// The larger of two quantities.
    pub fn max(self, other: Self) -> (r: Self)
        ensures
            r.0 == if self.0 >= other.0 {
                self.0
            } else {
                other.0
            },
    {
        if self.0 >= other.0 {
            self
        } else {
            other
        }
    }
}

impl core::ops::Add<Quantity> for Quantity {
    type Output = Quantity;

    /// Sums two quantities; the caller must rule overflow out.
    fn add(self, other: Quantity) -> (r: Quantity) {
        Quantity(self.0 + other.0)
    }
}

impl vstd::std_specs::ops::AddSpecImpl<Quantity> for Quantity {
    open spec fn obeys_add_spec() -> bool {
        true
    }

    open spec fn add_req(self, other: Quantity) -> bool {
        self.0 + other.0 <= u64::MAX
    }

    open spec fn add_spec(self, other: Quantity) -> Quantity {
        Quantity((self.0 + other.0) as u64)
    }
}

impl core::ops::Sub<Quantity> for Quantity {
    type Output = Result<Quantity, MatchingEngineError>;

    /// Subtracts a quantity, failing on underflow and on a zero result.
    fn sub(self, other: Quantity) -> (r: Result<Quantity, MatchingEngineError>)
        ensures
            self.0 < other.0 ==> (r matches Err(e) && e == (MatchingEngineError::InsufficientQuantity {
                requested: other.0,
                available: self.0,
            })),
            self.0 == other.0 ==> (r matches Err(e) && e is InvalidQuantity),
            self.0 > other.0 ==> (r matches Ok(q) && q.0 == self.0 - other.0),
    {
        if self.0 < other.0 {
            return Err(MatchingEngineError::InsufficientQuantity {
                requested: other.0,
                available: self.0,
            });
        }
        let result = self.0 - other.0;
        if result == 0 {
            return Err(MatchingEngineError::InvalidQuantity("resulting quantity would be zero"));
        }
        Ok(Quantity(result))
    }
}

impl vstd::std_specs::ops::SubSpecImpl<Quantity> for Quantity {
    open spec fn obeys_sub_spec() -> bool {
        false
    }

    open spec fn sub_req(self, other: Quantity) -> bool {
        true
    }

    open spec fn sub_spec(self, other: Quantity) -> Result<Quantity, MatchingEngineError> {
        Ok(self)
    }
}

impl core::ops::Mul<u64> for Quantity {
    type Output = Quantity;

    /// Scales a quantity; the caller must rule overflow out.
    fn mul(self, scalar: u64) -> (r: Quantity) {
        Quantity(self.0 * scalar)
    }
}

impl vstd::std_specs::ops::MulSpecImpl<u64> for Quantity {
    open spec fn obeys_mul_spec() -> bool {
        true
    }

    open spec fn mul_req(self, scalar: u64) -> bool {
        self.0 * scalar <= u64::MAX
    }

    open spec fn mul_spec(self, scalar: u64) -> Quantity {
        Quantity((self.0 * scalar) as u64)
    }
}

impl core::ops::Div<u64> for Quantity {
    type Output = Result<Quantity, MatchingEngineError>;

    /// Divides a quantity, failing on a zero divisor and on a zero result.
    fn div(self, divisor: u64) -> (r: Result<Quantity, MatchingEngineError>)
        ensures
            divisor == 0 ==> (r matches Err(e) && e is InvalidQuantity),
            divisor != 0 && self.0 / divisor == 0 ==> (r matches Err(e) && e is InvalidQuantity),
            divisor != 0 && self.0 / divisor != 0 ==> (r matches Ok(q) && q.0 == self.0 / divisor),
    {
        if divisor == 0 {
            return Err(MatchingEngineError::InvalidQuantity("cannot divide by zero"));
        }
        let result = self.0 / divisor;
        if result == 0 {
            return Err(MatchingEngineError::InvalidQuantity(
                "division would result in zero quantity",
            ));
        }
        Ok(Quantity(result))
    }
}

impl vstd::std_specs::ops::DivSpecImpl<u64> for Quantity {
    open spec fn obeys_div_spec() -> bool {
        false
    }

    open spec fn div_req(self, divisor: u64) -> bool {
        true
    }

    open spec fn div_spec(self, divisor: u64) -> Result<Quantity, MatchingEngineError> {
        Ok(self)
    }
}

} // verus!
