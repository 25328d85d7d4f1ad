//! A pooled loyalty-discount engine.
//!
//! Customers of a business earn a shared discount pool: a fixed share of every
//! transaction is skimmed into the pool of the current calendar week, and the
//! pool of the prior week is paid out, split evenly over the eligible
//! customers, to each returning customer's first transaction of a day.
//! Access is gated by short-lived bearer tokens scoped to a phone number and
//! a business name.
//!
//! All amounts of money are fixed-point values held in millionths of a unit.

pub mod num;
pub mod text;
pub mod date;
pub mod ledger;
pub mod codec;
pub mod auth;
pub mod engine;

use vstd::prelude::*;

verus! {

/// Phone numbers are exactly ten ASCII digits.
pub open spec fn spec_is_phone(s: Seq<u8>) -> bool {
    s.len() == 10 && crate::num::all_digits(s)
}

/// Checks that `s` consists of exactly ten ASCII digits.
pub fn is_valid_phone(s: &[u8]) -> (r: bool)
    ensures
        r == spec_is_phone(s@),
{
    if s.len() != 10 {
        return false;
    }
    let j = crate::num::scan_digits(s, 0);
    j == s.len()
}

/// A query naming the phone a token is issued for.
pub struct PhoneQuery {
    pub phone: String,
}

impl PhoneQuery {
    /// The named phone is a ten-digit number.
    pub fn is_valid(&self) -> (r: bool)
        ensures
            r == spec_is_phone(vstd::utf8::encode_utf8(self.phone@)),
    {
        is_valid_phone(self.phone.as_str().as_bytes())
    }
}

/// Counts the requests a running service has seen.
pub struct RequestLogger {
    pub requests: u64,
}

impl RequestLogger {
    pub fn new() -> (r: RequestLogger)
        ensures
            r.requests == 0,
    {
        RequestLogger { requests: 0 }
    }

    /// Notes one more request, saturating at the counter's top.
    pub fn record(&mut self)
        ensures
            final(self).requests == if old(self).requests < u64::MAX {
                old(self).requests + 1
            } else {
                u64::MAX as int
            },
    {
        if self.requests < u64::MAX {
            self.requests = self.requests + 1;
        }
    }
}

} // verus!
