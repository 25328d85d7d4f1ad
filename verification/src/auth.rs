//! Bearer tokens scoped to a phone and a business.
//!
//! Issuing a token writes three store records that must later agree:
//! `token:<id>` holds `<id>___<expiry>`, `phone:<phone>:token` holds the id,
//! and `<business>_token_<id>` holds the id again.  Validation re-derives
//! everything from those records and the current date on every call: the
//! token record must split on `___` into the id and a well-formed expiry
//! date, the business-scoped record must return the same id, and the expiry
//! day must not lie before today.

use vstd::prelude::*;
use crate::date::{Date, date_ok, date_lt, date_before, spec_parse_date, parse_date, spec_add_days,
    add_days, spec_format_date, append_date};
use crate::text::{bytes_of, append_lit, append_bytes, eq_bytes, copy_bytes};

verus! {

/// One key-value pair to be persisted in the store.
pub struct StoreWrite {
    pub key: Vec<u8>,
    pub value: Vec<u8>,
}

/// How a validation attempt ends.
#[derive(Clone, Copy, PartialEq, Eq, Structural, Debug)]
pub enum AuthOutcome {
    /// All three lookups agree and the expiry day is today or later.
    Valid,
    /// The token record carries an expiry that is not a date.
    InvalidExpiry,
    /// A lookup is missing or disagrees, or the token has expired.
    NotAuthorized,
}

/// The three-underscore separator stands at `i`.
pub open spec fn sep_at(s: Seq<u8>, i: int) -> bool {
    0 <= i && i + 3 <= s.len() && s[i] == 95 && s[i + 1] == 95 && s[i + 2] == 95
}

/// The first separator position at or after `i`, or -1.
pub open spec fn first_sep_from(s: Seq<u8>, i: int) -> int
    decreases s.len() - i,
{
    if i < 0 || i + 3 > s.len() {
        -1
    } else if sep_at(s, i) {
        i
    } else {
        first_sep_from(s, i + 1)
    }
}

/// A token record split on `___`: the stored id and the expiry text when
/// the separator occurs exactly once, otherwise two empty parts.
pub open spec fn spec_split_record(s: Seq<u8>) -> (Seq<u8>, Seq<u8>) {
    let f = first_sep_from(s, 0);
    if f >= 0 && first_sep_from(s, f + 3) == -1 {
        (s.take(f), s.skip(f + 3))
    } else {
        (Seq::empty(), Seq::empty())
    }
}

/// The outcome of validating `token` for a business, given the fetched
/// `token:<id>` record, the fetched business-scoped record, and today.
pub open spec fn spec_auth(token: Seq<u8>, record: Seq<u8>, brecord: Seq<u8>, today: Date)
    -> AuthOutcome {
    let stored = spec_split_record(record).0;
    let estr = spec_split_record(record).1;
    if estr.len() > 0 && spec_parse_date(estr) is None {
        AuthOutcome::InvalidExpiry
    } else {
        let expiry_ok = estr.len() > 0 && !date_lt(spec_parse_date(estr).unwrap(), today);
        if stored == token && brecord == token && expiry_ok {
            AuthOutcome::Valid
        } else {
            AuthOutcome::NotAuthorized
        }
    }
}

proof fn lemma_first_sep_char(s: Seq<u8>, i: int, j: int)
    requires
        0 <= i <= j,
        forall|k: int| i <= k < j ==> !sep_at(s, k),
        (j + 3 > s.len()) || sep_at(s, j),
    ensures
        first_sep_from(s, i) == if j + 3 <= s.len() {
            j
        } else {
            -1int
        },
    decreases j - i,
{
    if i < j {
        if i + 3 > s.len() {
            assert(j + 3 > s.len());
        } else {
            assert(!sep_at(s, i));
            lemma_first_sep_char(s, i + 1, j);
        }
    }
}

/// Finds the first separator at or after `from`, as the store's split does.
fn find_sep(s: &[u8], from: usize) -> (r: Option<usize>)
    requires
        from <= s@.len(),
    ensures
        match r {
            Some(f) => from <= f && f + 3 <= s@.len() && first_sep_from(s@, from as int) == f,
            None => first_sep_from(s@, from as int) == -1,
        },
{
    let n = s.len();
    let mut i: usize = from;
    loop
        invariant
            from <= i <= n,
            n == s@.len(),
            forall|k: int| from <= k < i ==> !sep_at(s@, k),
        decreases n - i,
    {
        if i >= n || n - i < 3 {
            proof {
                lemma_first_sep_char(s@, from as int, i as int);
            }
            return None;
        }
        if s[i] == 95 && s[i + 1] == 95 && s[i + 2] == 95 {
            proof {
                assert(sep_at(s@, i as int));
                lemma_first_sep_char(s@, from as int, i as int);
            }
            return Some(i);
        }
        proof {
            assert(!sep_at(s@, i as int));
        }
        i += 1;
    }
}

/// Splits a fetched token record on `___` into the stored id and the expiry
/// text; both empty unless the separator occurs exactly once.
pub fn split_record(s: &[u8]) -> (r: (Vec<u8>, Vec<u8>))
    ensures
        (r.0@, r.1@) == spec_split_record(s@),
{
    let n = s.len();
    match find_sep(s, 0) {
        None => (Vec::new(), Vec::new()),
        Some(f) => {
            match find_sep(s, f + 3) {
                Some(_) => (Vec::new(), Vec::new()),
                None => {
                    let head = copy_bytes(vstd::slice::slice_subrange(s, 0, f));
                    let tail = copy_bytes(vstd::slice::slice_subrange(s, f + 3, n));
                    proof {
                        assert(head@ =~= s@.take(f as int));
                        assert(tail@ =~= s@.skip(f + 3));
                    }
                    (head, tail)
                },
            }
        },
    }
}

/// Validates `token` against the two fetched records for `today`.
pub fn validate_token(token: &[u8], record: &[u8], brecord: &[u8], today: &Date) -> (r:
    AuthOutcome)
    ensures
        r == spec_auth(token@, record@, brecord@, *today),
{
    let (stored, estr) = split_record(record);
    let mut expiry_ok = false;
    if estr.len() > 0 {
        match parse_date(estr.as_slice()) {
            None => {
                return AuthOutcome::InvalidExpiry;
            },
            Some(expiry) => {
                expiry_ok = !date_before(&expiry, today);
            },
        }
    }
    if eq_bytes(stored.as_slice(), token) && eq_bytes(brecord, token) && expiry_ok {
        AuthOutcome::Valid
    } else {
        AuthOutcome::NotAuthorized
    }
}

pub open spec fn spec_token_key(token: Seq<u8>) -> Seq<u8> {
    bytes_of("token:"@) + token
}

pub open spec fn spec_phone_token_key(phone: Seq<u8>) -> Seq<u8> {
    bytes_of("phone:"@) + phone + bytes_of(":token"@)
}

pub open spec fn spec_business_token_key(business: Seq<u8>, token: Seq<u8>) -> Seq<u8> {
    business + bytes_of("_token_"@) + token
}

/// The store key of the raw token record.
pub fn token_key(token: &[u8]) -> (r: Vec<u8>)
    ensures
        r@ == spec_token_key(token@),
{
    proof {
        reveal_strlit("token:");
    }
    let mut out: Vec<u8> = Vec::new();
    append_lit(&mut out, "token:");
    append_bytes(&mut out, token);
    out
}

/// The store key of the phone-scoped token record.
pub fn phone_token_key(phone: &[u8]) -> (r: Vec<u8>)
    ensures
        r@ == spec_phone_token_key(phone@),
{
    proof {
        reveal_strlit("phone:");
        reveal_strlit(":token");
    }
    let mut out: Vec<u8> = Vec::new();
    append_lit(&mut out, "phone:");
    append_bytes(&mut out, phone);
    append_lit(&mut out, ":token");
    out
}

/// The store key of the business-scoped token record.
pub fn business_token_key(business: &[u8], token: &[u8]) -> (r: Vec<u8>)
    ensures
        r@ == spec_business_token_key(business@, token@),
{
    proof {
        reveal_strlit("_token_");
    }
    let mut out: Vec<u8> = Vec::new();
    append_bytes(&mut out, business);
    append_lit(&mut out, "_token_");
    append_bytes(&mut out, token);
    out
}

/// A token id byte: a lowercase hexadecimal digit or a hyphen.
pub open spec fn token_byte_ok(b: u8) -> bool {
    (48 <= b <= 57) || (97 <= b <= 102) || b == 45
}

/// Relies on `uuid::Uuid::new_v4` and the `Display` impl of `Uuid`, which
/// renders the hyphenated lowercase hexadecimal form: 36 bytes, each a
/// lowercase hex digit or a hyphen.  Nothing is assumed about which
/// identifier comes back, only its shape.
#[verifier::external_body]
fn fresh_token_id() -> (r: Vec<u8>)
    ensures
        r@.len() == 36,
        forall|i: int| 0 <= i < r@.len() ==> token_byte_ok(#[trigger] r@[i]),
{
    uuid::Uuid::new_v4().to_string().into_bytes()
}

/// The value of the raw token record: id, separator, expiry day.
pub open spec fn spec_token_record(token: Seq<u8>, expiry: Date) -> Seq<u8> {
    token + bytes_of("___"@) + spec_format_date(expiry)
}

/// Issues a fresh token for `(phone, business)`: returns the token id and
/// the three records the store must keep, with the expiry seven days out.
pub fn issue_token(phone: &[u8], business: &[u8], today: &Date) -> (r: (Vec<u8>, Vec<StoreWrite>))
    requires
        date_ok(*today),
        today.year <= 9998,
    ensures
        r.0@.len() == 36,
        forall|i: int| 0 <= i < r.0@.len() ==> token_byte_ok(#[trigger] r.0@[i]),
        r.1@.len() == 3,
        r.1@[0].key@ == spec_token_key(r.0@),
        r.1@[0].value@ == spec_token_record(r.0@, spec_add_days(*today, 7)),
        r.1@[1].key@ == spec_phone_token_key(phone@),
        r.1@[1].value@ == r.0@,
        r.1@[2].key@ == spec_business_token_key(business@, r.0@),
        r.1@[2].value@ == r.0@,
        spec_auth(r.0@, r.1@[0].value@, r.1@[2].value@, *today) == AuthOutcome::Valid,
{
    proof {
        reveal_strlit("___");
    }
    let token = fresh_token_id();
    let expiry = add_days(*today, 7);
    let mut record: Vec<u8> = Vec::new();
    append_bytes(&mut record, token.as_slice());
    append_lit(&mut record, "___");
    append_date(&mut record, &expiry);
    let mut writes: Vec<StoreWrite> = Vec::new();
    writes.push(StoreWrite { key: token_key(token.as_slice()), value: record });
    writes.push(
        StoreWrite { key: phone_token_key(phone), value: copy_bytes(token.as_slice()) },
    );
    writes.push(
        StoreWrite {
            key: business_token_key(business, token.as_slice()),
            value: copy_bytes(token.as_slice()),
        },
    );
    proof {
        assert forall|i: int| 0 <= i < token@.len() implies (#[trigger] token@[i]) != 95 by {
            assert(token_byte_ok(token@[i]));
        }
        crate::date::lemma_add_days_ge(*today, 7);
        lemma_issued_token_validates(token@, expiry, *today);
    }
    (token, writes)
}

// ---------------------------------------------------------------------------
// Validation is strict: each mismatched field alone denies access.
// ---------------------------------------------------------------------------

/// Access is granted only when every field agrees: a `Valid` outcome means
/// the stored id and the business-scoped record both equal the presented
/// token, and the record carries an expiry day no earlier than today.
pub proof fn lemma_valid_needs_agreement(token: Seq<u8>, record: Seq<u8>, brecord: Seq<u8>,
    today: Date)
    ensures
        spec_auth(token, record, brecord, today) == AuthOutcome::Valid ==> {
            let (stored, estr) = spec_split_record(record);
            &&& stored == token
            &&& brecord == token
            &&& estr.len() > 0
            &&& spec_parse_date(estr) is Some
            &&& !date_lt(spec_parse_date(estr).unwrap(), today)
        },
{
}

/// A business-scoped record that disagrees with the token denies access,
/// whatever the other fields hold, as long as the stored expiry is readable.
pub proof fn lemma_wrong_business_denied(token: Seq<u8>, record: Seq<u8>, brecord: Seq<u8>,
    today: Date)
    requires
        brecord != token,
        spec_split_record(record).1.len() > 0 ==> spec_parse_date(
            spec_split_record(record).1,
        ) is Some,
    ensures
        spec_auth(token, record, brecord, today) == AuthOutcome::NotAuthorized,
{
}

/// A stored id that disagrees with the presented token denies access.
pub proof fn lemma_wrong_token_denied(token: Seq<u8>, record: Seq<u8>, brecord: Seq<u8>,
    today: Date)
    requires
        spec_split_record(record).0 != token,
        spec_split_record(record).1.len() > 0 ==> spec_parse_date(
            spec_split_record(record).1,
        ) is Some,
    ensures
        spec_auth(token, record, brecord, today) == AuthOutcome::NotAuthorized,
{
}

/// An expiry day strictly before today denies access.
pub proof fn lemma_expired_denied(token: Seq<u8>, record: Seq<u8>, brecord: Seq<u8>, today: Date)
    requires
        spec_split_record(record).1.len() > 0,
        spec_parse_date(spec_split_record(record).1) is Some,
        date_lt(spec_parse_date(spec_split_record(record).1).unwrap(), today),
    ensures
        spec_auth(token, record, brecord, today) == AuthOutcome::NotAuthorized,
{
}

/// A missing or separator-less record denies access.
pub proof fn lemma_missing_record_denied(token: Seq<u8>, brecord: Seq<u8>, today: Date)
    ensures
        spec_auth(token, Seq::empty(), brecord, today) == AuthOutcome::NotAuthorized,
{
    assert(first_sep_from(Seq::<u8>::empty(), 0) == -1);
}

/// A record freshly written by `issue_token` validates for its own token
/// and business on any day up to and including the expiry day: token ids
/// carry no underscore, so the record splits exactly at the separator, and
/// the expiry text reads back as the very day it was written from.
pub proof fn lemma_issued_token_validates(token: Seq<u8>, expiry: Date, today: Date)
    requires
        token.len() > 0,
        forall|i: int| 0 <= i < token.len() ==> (#[trigger] token[i]) != 95,
        date_ok(expiry),
        !date_lt(expiry, today),
    ensures
        spec_auth(token, spec_token_record(token, expiry), token, today) == AuthOutcome::Valid,
{
    reveal_strlit("___");
    let fmt = spec_format_date(expiry);
    let record = spec_token_record(token, expiry);
    let t = token.len() as int;
    assert(bytes_of("___"@).len() == 3);
    assert(bytes_of("___"@)[0] == 95 && bytes_of("___"@)[1] == 95 && bytes_of("___"@)[2] == 95);
    crate::date::lemma_format_date_no_underscore(expiry);
    crate::date::lemma_format_parse_date(expiry);
    assert(fmt.len() == 11) by {
        assert(spec_parse_date(fmt) is Some);
    }
    assert(record.len() == t + 3 + 11);
    assert(record[t] == 95 && record[t + 1] == 95 && record[t + 2] == 95);
    assert(sep_at(record, t));
    assert forall|k: int| 0 <= k < t implies !sep_at(record, k) by {
        assert(record[k] == token[k]);
    }
    lemma_first_sep_char(record, 0, t);
    assert(first_sep_from(record, 0) == t);
    assert forall|k: int| t + 3 <= k < record.len() implies !sep_at(record, k) by {
        assert(record[k] == fmt[k - t - 3]);
    }
    lemma_first_sep_char(record, t + 3, record.len() as int);
    assert(first_sep_from(record, t + 3) == -1);
    assert(record.take(t) =~= token);
    assert(record.skip(t + 3) =~= fmt);
    assert(spec_split_record(record) == (token, fmt));
    assert(spec_parse_date(fmt) == Some(expiry));
}

} // verus!
