//! Identifiers: order ids, trading symbols, user ids.

use vstd::prelude::*;
use vstd::string::StrSliceExecFns;

use crate::error::MatchingEngineError;

verus! {

#[verifier::external_type_specification]
#[verifier::external_body]
pub struct ExUuid(uuid::Uuid);

/// The 128-bit value that `uuid::Uuid::as_u128` reads out of a UUID (its
/// sixteen bytes in big-endian order); a function of the UUID alone.
pub uninterp spec fn u128_of(u: uuid::Uuid) -> u128;

/// The UUID that `uuid::Uuid::from_u128` builds from a 128-bit value; a
/// function of the value alone.
pub uninterp spec fn uuid_of(bits: u128) -> uuid::Uuid;

/// A globally unique, opaque order identifier, held as the 128-bit value of
/// a UUID.
#[derive(Debug, Clone, Copy, PartialEq, Eq, Structural)]
pub struct OrderId(pub u128);

impl OrderId {
    /// Relies on uuid::Uuid::new_v4: a freshly generated random identifier.
    /// Nothing is assumed of the value; the call aborts only if the
    /// operating system's randomness source fails.
    #[verifier::external_body]
    pub fn new() -> OrderId {
        OrderId(uuid::Uuid::new_v4().as_u128())
    }

    /// Relies on uuid::Uuid::as_u128: reads the 128-bit value of the given
    /// identifier.
    #[verifier::external_body]
    pub fn from_uuid(uuid: uuid::Uuid) -> (r: OrderId)
        ensures
            r.0 == u128_of(uuid),
    {
        OrderId(uuid.as_u128())
    }

    /// Relies on uuid::Uuid::from_u128 and as_u128: rebuilds the UUID form
    /// of this identifier; from_u128 lays the value out as the sixteen
    /// big-endian bytes that as_u128 reads back, so the value round-trips.
    #[verifier::external_body]
    pub fn as_uuid(&self) -> (r: uuid::Uuid)
        ensures
            r == uuid_of(self.0),
            u128_of(r) == self.0,
    {
        uuid::Uuid::from_u128(self.0)
    }
}

/// The characters that `str::to_uppercase` maps a string to; the result
/// depends on the characters alone.
pub uninterp spec fn upper_of(s: Seq<char>) -> Seq<char>;

/// Relies on str::to_uppercase: the upper-case equivalent of the string.
#[verifier::external_body]
fn to_upper(s: &str) -> (r: String)
    ensures
        r@ == upper_of(s@),
{
    s.to_uppercase()
}

/// A validated trading symbol: non-empty, at most ten characters, held in
/// upper case.
#[derive(Debug)]
pub struct Symbol(pub String);

impl View for Symbol {
    type V = Seq<char>;

    open spec fn view(&self) -> Seq<char> {
        self.0@
    }
}

impl Symbol {
    /// Validates and normalizes a trading symbol.
    pub fn new(symbol: String) -> (r: Result<Symbol, MatchingEngineError>)
        ensures
            symbol@.len() == 0 || symbol@.len() > 10 ==> (r matches Err(e) && e is InvalidPrice),
            1 <= symbol@.len() <= 10 ==> (r matches Ok(sym) && sym@ == upper_of(symbol@)),
    {
        let n = symbol.as_str().unicode_len();
        if n == 0 {
            Err(MatchingEngineError::InvalidPrice("symbol cannot be empty"))
        } else if n > 10 {
            Err(MatchingEngineError::InvalidPrice("symbol too long (max 10 characters)"))
        } else {
            Ok(Symbol(to_upper(symbol.as_str())))
        }
    }

    /// The symbol text.
    pub fn as_str(&self) -> (r: &str)
        ensures
            r@ == self@,
    {
        self.0.as_str()
    }
}

impl Clone for Symbol {
    /// Copies the symbol, keeping its characters.
    fn clone(&self) -> (r: Self)
        ensures
            r@ == self@,
    {
        Symbol(self.0.clone())
    }
}

/// An identifier for the user who placed an order.
#[derive(Debug, PartialEq)]
pub struct UserId(pub String);

impl View for UserId {
    type V = Seq<char>;

    open spec fn view(&self) -> Seq<char> {
        self.0@
    }
}

impl UserId {
    /// Wraps a user identifier.
    pub fn new(user_id: String) -> (r: UserId)
        ensures
            r@ == user_id@,
    {
        UserId(user_id)
    }

    /// The user identifier text.
    pub fn as_str(&self) -> (r: &str)
        ensures
            r@ == self@,
    {
        self.0.as_str()
    }
}

impl Clone for UserId {
    /// Copies the user identifier, keeping its characters.
    fn clone(&self) -> (r: Self)
        ensures
            r@ == self@,
    {
        UserId(self.0.clone())
    }
}

} // verus!
