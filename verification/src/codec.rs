//! The serialization contract for stored weekly aggregates.
//!
//! A `CustomerDiscountDetails` is persisted as one JSON object with four
//! fixed fields in a fixed order.  Money fields are written as signed
//! decimals with exactly six fraction digits; the customer counter as a
//! plain integer; the expense map as nested objects of string keys and
//! string values.  The decoder accepts exactly this shape, and rejects a
//! record whose numbers leave the documented ranges or whose keys repeat,
//! so every decoded aggregate is well formed and bounded.

use vstd::prelude::*;
use crate::num::{is_digit, all_digits, digits_val, spec_digits, spec_pad_digits, pow10,
    MONEY_CAP, COUNT_CAP, scan_digits, digits_value, push_digits, push_pad_digits};
use crate::text::{bytes_of, spec_lit_at, append_lit, append_bytes, lit_at, eq_bytes};
use crate::ledger::{DayLog, CustomerLog, CustomerDiscountDetails, DayLogV, CustomerLogV, LedgerV,
    days_wf, customers_wf, ledger_wf, ledger_bounded};

verus! {

pub open spec fn key_pooled() -> Seq<char> {
    "{\"total_pooled_amount\":"@
}

pub open spec fn key_eligible() -> Seq<char> {
    ",\"total_eligible_customers\":"@
}

pub open spec fn key_given() -> Seq<char> {
    ",\"total_discount_given\":"@
}

pub open spec fn key_map() -> Seq<char> {
    ",\"customer_expense_map\":{"@
}

/// A key or value may carry any byte but the double quote, which would end
/// it early when read back.
pub open spec fn text_ok(s: Seq<u8>) -> bool {
    forall|i: int| 0 <= i < s.len() ==> s[i] != 34
}

/// Every key and amount text of the aggregate is storable.
pub open spec fn ledger_text_ok(l: LedgerV) -> bool {
    forall|i: int|
        0 <= i < l.customers.len() ==> {
            let c = #[trigger] l.customers[i];
            text_ok(c.phone) && forall|j: int|
                0 <= j < c.days.len() ==> text_ok((#[trigger] c.days[j]).day) && text_ok(
                    c.days[j].amounts,
                )
        }
}

// ---------------------------------------------------------------------------
// What the encoder writes.
// ---------------------------------------------------------------------------

/// A money amount: sign, units, and exactly six fraction digits.
pub open spec fn enc_money(m: int) -> Seq<u8> {
    let mag = if m < 0 {
        -m
    } else {
        m
    };
    let sign: Seq<u8> = if m < 0 {
        seq![45u8]
    } else {
        Seq::empty()
    };
    sign + spec_digits((mag / 1000000) as nat) + seq![46u8] + spec_pad_digits(
        (mag % 1000000) as nat,
        6,
    )
}

pub open spec fn enc_count(n: nat) -> Seq<u8> {
    spec_digits(n)
}

pub open spec fn enc_str(s: Seq<u8>) -> Seq<u8> {
    seq![34u8] + s + seq![34u8]
}

pub open spec fn enc_day(d: DayLogV) -> Seq<u8> {
    enc_str(d.day) + seq![58u8] + enc_str(d.amounts)
}

pub open spec fn enc_day_list(ds: Seq<DayLogV>) -> Seq<u8>
    decreases ds.len(),
{
    if ds.len() == 0 {
        Seq::empty()
    } else if ds.len() == 1 {
        enc_day(ds[0])
    } else {
        enc_day(ds[0]) + seq![44u8] + enc_day_list(ds.skip(1))
    }
}

pub open spec fn enc_customer(c: CustomerLogV) -> Seq<u8> {
    enc_str(c.phone) + seq![58u8] + seq![123u8] + enc_day_list(c.days) + seq![125u8]
}

pub open spec fn enc_customer_list(cs: Seq<CustomerLogV>) -> Seq<u8>
    decreases cs.len(),
{
    if cs.len() == 0 {
        Seq::empty()
    } else if cs.len() == 1 {
        enc_customer(cs[0])
    } else {
        enc_customer(cs[0]) + seq![44u8] + enc_customer_list(cs.skip(1))
    }
}

/// The full stored form of an aggregate.
#[verifier::opaque]
pub open spec fn enc_ledger(l: LedgerV) -> Seq<u8> {
    bytes_of(key_pooled()) + enc_money(l.pooled) + bytes_of(key_eligible()) + enc_count(
        l.eligible as nat,
    ) + bytes_of(key_given()) + enc_money(l.given) + bytes_of(key_map()) + enc_customer_list(
        l.customers,
    ) + seq![125u8] + seq![125u8]
}

// ---------------------------------------------------------------------------
// What the decoder accepts.
// ---------------------------------------------------------------------------

/// Position just past the digit run that starts at `i`.
pub open spec fn p_digits_end(s: Seq<u8>, i: int) -> int
    decreases s.len() - i,
{
    if i < 0 || i >= s.len() || !is_digit(s[i]) {
        i
    } else {
        p_digits_end(s, i + 1)
    }
}

/// Position of the closing quote at or after `i`.
pub open spec fn p_quote_end(s: Seq<u8>, i: int) -> int
    decreases s.len() - i,
{
    if i < 0 || i >= s.len() || s[i] == 34 {
        i
    } else {
        p_quote_end(s, i + 1)
    }
}

/// An unsigned integer of at most `maxlen` digits.
pub open spec fn p_uint(s: Seq<u8>, i: int, maxlen: int) -> Option<(int, int)> {
    let j = p_digits_end(s, i);
    if j == i || j - i > maxlen {
        None
    } else {
        Some((digits_val(s.subrange(i, j)), j))
    }
}

/// A money amount in micros: optional sign, units, a dot, six fraction
/// digits, within the documented cap.
pub open spec fn p_money(s: Seq<u8>, i: int) -> Option<(int, int)> {
    let neg = 0 <= i < s.len() && s[i] == 45;
    let i1 = if neg {
        i + 1
    } else {
        i
    };
    match p_uint(s, i1, 13) {
        None => None,
        Some((units, j)) => if j < s.len() && s[j] == 46 {
            match p_uint(s, j + 1, 6) {
                None => None,
                Some((frac, k)) => if k == j + 7 {
                    let mag = units * 1000000 + frac;
                    let v = if neg {
                        -mag
                    } else {
                        mag
                    };
                    if -(MONEY_CAP as int) <= v <= MONEY_CAP as int {
                        Some((v, k))
                    } else {
                        None
                    }
                } else {
                    None
                },
            }
        } else {
            None
        },
    }
}

/// The customer counter, within its cap.
pub open spec fn p_count(s: Seq<u8>, i: int) -> Option<(int, int)> {
    match p_uint(s, i, 18) {
        None => None,
        Some((n, j)) => if n <= COUNT_CAP as int {
            Some((n, j))
        } else {
            None
        },
    }
}

/// A quoted string; no escapes, so the content may hold any byte but `"`.
pub open spec fn p_str(s: Seq<u8>, i: int) -> Option<(Seq<u8>, int)> {
    if 0 <= i < s.len() && s[i] == 34 {
        let j = p_quote_end(s, i + 1);
        if j < s.len() {
            Some((s.subrange(i + 1, j), j + 1))
        } else {
            None
        }
    } else {
        None
    }
}

/// One `"day":"amounts"` pair.
pub open spec fn p_day(s: Seq<u8>, i: int) -> Option<(DayLogV, int)> {
    match p_str(s, i) {
        None => None,
        Some((day, j)) => if j < s.len() && s[j] == 58 {
            match p_str(s, j + 1) {
                None => None,
                Some((amounts, k)) => Some((DayLogV { day: day, amounts: amounts }, k)),
            }
        } else {
            None
        },
    }
}

/// Comma-separated day pairs; stops before the byte that is not a comma.
pub open spec fn p_day_list(s: Seq<u8>, i: int) -> Option<(Seq<DayLogV>, int)>
    decreases s.len() - i,
{
    match p_day(s, i) {
        None => None,
        Some((d, j)) => if j < s.len() && s[j] == 44 && i < j + 1 {
            match p_day_list(s, j + 1) {
                None => None,
                Some((rest, k)) => Some((seq![d] + rest, k)),
            }
        } else {
            Some((seq![d], j))
        },
    }
}

/// One `"phone":{ ... }` entry.
pub open spec fn p_customer(s: Seq<u8>, i: int) -> Option<(CustomerLogV, int)> {
    match p_str(s, i) {
        None => None,
        Some((phone, j)) => if j + 1 < s.len() && s[j] == 58 && s[j + 1] == 123 {
            if j + 2 < s.len() && s[j + 2] == 125 {
                Some((CustomerLogV { phone: phone, days: Seq::empty() }, j + 3))
            } else {
                match p_day_list(s, j + 2) {
                    None => None,
                    Some((ds, k)) => if k < s.len() && s[k] == 125 {
                        Some((CustomerLogV { phone: phone, days: ds }, k + 1))
                    } else {
                        None
                    },
                }
            }
        } else {
            None
        },
    }
}

/// Comma-separated customer entries; stops before the byte that is not a
/// comma.
pub open spec fn p_customer_list(s: Seq<u8>, i: int) -> Option<(Seq<CustomerLogV>, int)>
    decreases s.len() - i,
{
    match p_customer(s, i) {
        None => None,
        Some((c, j)) => if j < s.len() && s[j] == 44 && i < j + 1 {
            match p_customer_list(s, j + 1) {
                None => None,
                Some((rest, k)) => Some((seq![c] + rest, k)),
            }
        } else {
            Some((seq![c], j))
        },
    }
}

/// The whole stored record; `None` on any deviation from the documented
/// shape, range or key uniqueness.
#[verifier::opaque]
pub open spec fn p_ledger(s: Seq<u8>) -> Option<LedgerV> {
    if !spec_lit_at(s, 0, key_pooled()) {
        None
    } else {
        match p_money(s, key_pooled().len() as int) {
            None => None,
            Some((pooled, i1)) => if !spec_lit_at(s, i1, key_eligible()) {
                None
            } else {
                match p_count(s, i1 + key_eligible().len()) {
                    None => None,
                    Some((eligible, i2)) => if !spec_lit_at(s, i2, key_given()) {
                        None
                    } else {
                        match p_money(s, i2 + key_given().len()) {
                            None => None,
                            Some((given, i3)) => if !spec_lit_at(s, i3, key_map()) {
                                None
                            } else {
                                let i4 = i3 + key_map().len();
                                if i4 < s.len() && s[i4] == 125 {
                                    if i4 + 2 == s.len() && s[i4 + 1] == 125 {
                                        Some(LedgerV {
                                            pooled: pooled,
                                            eligible: eligible,
                                            given: given,
                                            customers: Seq::empty(),
                                        })
                                    } else {
                                        None
                                    }
                                } else {
                                    match p_customer_list(s, i4) {
                                        None => None,
                                        Some((cs, j)) => if j + 2 == s.len() && s[j] == 125 && s[j
                                            + 1] == 125 && customers_wf(cs) {
                                            Some(LedgerV {
                                                pooled: pooled,
                                                eligible: eligible,
                                                given: given,
                                                customers: cs,
                                            })
                                        } else {
                                            None
                                        },
                                    }
                                }
                            },
                        }
                    },
                }
            },
        }
    }
}

/// The aggregate a stored value denotes: the decoded record, or the empty
/// aggregate when the value is absent, empty or malformed.
#[verifier::opaque]
pub open spec fn spec_ledger_or_default(s: Seq<u8>) -> LedgerV {
    match p_ledger(s) {
        Some(l) => l,
        None => crate::ledger::spec_empty_ledger(),
    }
}

// ---------------------------------------------------------------------------
// Characterizations of the scanning functions.
// ---------------------------------------------------------------------------

pub proof fn lemma_digits_end_char(s: Seq<u8>, i: int, j: int)
    requires
        0 <= i <= j <= s.len(),
        forall|k: int| i <= k < j ==> is_digit(#[trigger] s[k]),
        j == s.len() || !is_digit(s[j]),
    ensures
        p_digits_end(s, i) == j,
    decreases j - i,
{
    if i < j {
        assert(is_digit(s[i]));
        lemma_digits_end_char(s, i + 1, j);
    }
}

pub proof fn lemma_quote_end_char(s: Seq<u8>, i: int, j: int)
    requires
        0 <= i <= j <= s.len(),
        forall|k: int| i <= k < j ==> (#[trigger] s[k]) != 34,
        j == s.len() || s[j] == 34,
    ensures
        p_quote_end(s, i) == j,
    decreases j - i,
{
    if i < j {
        lemma_quote_end_char(s, i + 1, j);
    }
}

/// Position just past the run of bytes other than `"` starting at `from`.
fn scan_quote(s: &[u8], from: usize) -> (j: usize)
    requires
        from <= s@.len(),
    ensures
        from <= j <= s@.len(),
        forall|k: int| from <= k < j ==> (#[trigger] s@[k]) != 34,
        j < s@.len() ==> s@[j as int] == 34,
        p_quote_end(s@, from as int) == j,
{
    let n = s.len();
    let mut j: usize = from;
    loop
        invariant
            from <= j <= n,
            n == s@.len(),
            forall|k: int| from <= k < j ==> (#[trigger] s@[k]) != 34,
        decreases n - j,
    {
        if j >= n {
            proof {
                lemma_quote_end_char(s@, from as int, j as int);
            }
            return j;
        }
        if s[j] == 34 {
            proof {
                lemma_quote_end_char(s@, from as int, j as int);
            }
            return j;
        }
        j += 1;
    }
}

// ---------------------------------------------------------------------------
// Executable encoder.
// ---------------------------------------------------------------------------

/// Appends a money amount as the encoder's `enc_money` form.
fn append_money(out: &mut Vec<u8>, m: i64)
    ensures
        final(out)@ == old(out)@ + enc_money(m as int),
{
    let mag: u64 = if m < 0 {
        out.push(45);
        (-(m as i128)) as u64
    } else {
        m as u64
    };
    push_digits((mag / 1000000) as u128, out);
    out.push(46);
    push_pad_digits(mag % 1000000, 6, out);
    proof {
        assert(out@ =~= old(out)@ + enc_money(m as int));
    }
}

/// The stored text of one money amount.
pub fn money_text(m: i64) -> (r: Vec<u8>)
    ensures
        r@ == enc_money(m as int),
{
    let mut out: Vec<u8> = Vec::new();
    append_money(&mut out, m);
    out
}

/// Appends one customer entry as the encoder's `enc_customer` form.
fn append_customer(out: &mut Vec<u8>, c: &CustomerLog)
    ensures
        final(out)@ == old(out)@ + enc_customer(c@),
{
    out.push(34);
    append_bytes(out, c.phone.as_slice());
    out.push(34);
    out.push(58);
    out.push(123);
    let ghost base = out@;
    let n = c.days.len();
    let mut j: usize = 0;
    while j < n
        invariant
            j <= n,
            n == c.days@.len(),
            out@ == base + enc_day_list(c@.days.take(j as int)),
        decreases n - j,
    {
        if j > 0 {
            out.push(44);
        }
        let dl = &c.days[j];
        out.push(34);
        append_bytes(out, dl.day.as_slice());
        out.push(34);
        out.push(58);
        out.push(34);
        append_bytes(out, dl.amounts.as_slice());
        out.push(34);
        proof {
            assert(c@.days.take(j + 1) =~= c@.days.take(j as int).push(c@.days[j as int]));
            lemma_enc_day_list_push(c@.days.take(j as int), c@.days[j as int]);
            assert(enc_day(c@.days[j as int]) =~= seq![34u8] + dl.day@ + seq![34u8] + seq![58u8]
                + seq![34u8] + dl.amounts@ + seq![34u8]);
            assert(out@ =~= base + enc_day_list(c@.days.take(j + 1)));
        }
        j += 1;
    }
    out.push(125);
    proof {
        assert(c@.days.take(n as int) =~= c@.days);
        assert(out@ =~= old(out)@ + enc_customer(c@));
    }
}

/// Appending one more entry extends the comma-joined list form.
pub proof fn lemma_enc_day_list_push(ds: Seq<DayLogV>, d: DayLogV)
    ensures
        enc_day_list(ds.push(d)) == if ds.len() == 0 {
            enc_day(d)
        } else {
            enc_day_list(ds) + seq![44u8] + enc_day_list(seq![d])
        },
    decreases ds.len(),
{
    let whole = ds.push(d);
    if ds.len() == 0 {
        assert(whole.len() == 1);
        assert(whole[0] == d);
        assert(enc_day_list(whole) == enc_day(d));
    } else if ds.len() == 1 {
        assert(whole.len() == 2);
        assert(whole[0] == ds[0]);
        assert(whole.skip(1) =~= seq![d]);
        assert(enc_day_list(whole) == enc_day(whole[0]) + seq![44u8] + enc_day_list(whole.skip(1)));
        assert(enc_day_list(seq![d]) == enc_day(d));
    } else {
        assert(whole.skip(1) =~= ds.skip(1).push(d));
        lemma_enc_day_list_push(ds.skip(1), d);
        assert(whole[0] == ds[0]);
        assert(enc_day_list(whole) == enc_day(whole[0]) + seq![44u8] + enc_day_list(whole.skip(1)));
        assert(enc_day_list(ds) == enc_day(ds[0]) + seq![44u8] + enc_day_list(ds.skip(1)));
        assert(enc_day_list(whole) =~= enc_day_list(ds) + seq![44u8] + enc_day_list(seq![d]));
    }
}

pub proof fn lemma_enc_customer_list_push(cs: Seq<CustomerLogV>, c: CustomerLogV)
    ensures
        enc_customer_list(cs.push(c)) == if cs.len() == 0 {
            enc_customer(c)
        } else {
            enc_customer_list(cs) + seq![44u8] + enc_customer_list(seq![c])
        },
    decreases cs.len(),
{
    let whole = cs.push(c);
    if cs.len() == 0 {
        assert(whole.len() == 1);
        assert(whole[0] == c);
        assert(enc_customer_list(whole) == enc_customer(c));
    } else if cs.len() == 1 {
        assert(whole.len() == 2);
        assert(whole[0] == cs[0]);
        assert(whole.skip(1) =~= seq![c]);
        assert(enc_customer_list(whole) == enc_customer(whole[0]) + seq![44u8] + enc_customer_list(
            whole.skip(1),
        ));
        assert(enc_customer_list(seq![c]) == enc_customer(c));
    } else {
        assert(whole.skip(1) =~= cs.skip(1).push(c));
        lemma_enc_customer_list_push(cs.skip(1), c);
        assert(whole[0] == cs[0]);
        assert(enc_customer_list(whole) == enc_customer(whole[0]) + seq![44u8] + enc_customer_list(
            whole.skip(1),
        ));
        assert(enc_customer_list(cs) == enc_customer(cs[0]) + seq![44u8] + enc_customer_list(
            cs.skip(1),
        ));
        assert(enc_customer_list(whole) =~= enc_customer_list(cs) + seq![44u8]
            + enc_customer_list(seq![c]));
    }
}

/// Writes the aggregate in its stored form.
pub fn encode_ledger(l: &CustomerDiscountDetails) -> (r: Vec<u8>)
    ensures
        r@ == enc_ledger(l@),
{
    proof {
        reveal(enc_ledger);
        reveal_strlit("{\"total_pooled_amount\":");
        reveal_strlit(",\"total_eligible_customers\":");
        reveal_strlit(",\"total_discount_given\":");
        reveal_strlit(",\"customer_expense_map\":{");
    }
    let mut out: Vec<u8> = Vec::new();
    append_lit(&mut out, "{\"total_pooled_amount\":");
    append_money(&mut out, l.total_pooled_amount);
    append_lit(&mut out, ",\"total_eligible_customers\":");
    push_digits(l.total_eligible_customers as u128, &mut out);
    append_lit(&mut out, ",\"total_discount_given\":");
    append_money(&mut out, l.total_discount_given);
    append_lit(&mut out, ",\"customer_expense_map\":{");
    let ghost base = out@;
    let n = l.customer_expense_map.len();
    let mut i: usize = 0;
    while i < n
        invariant
            i <= n,
            n == l.customer_expense_map@.len(),
            out@ == base + enc_customer_list(l@.customers.take(i as int)),
        decreases n - i,
    {
        if i > 0 {
            out.push(44);
        }
        append_customer(&mut out, &l.customer_expense_map[i]);
        proof {
            assert(l@.customers.take(i + 1) =~= l@.customers.take(i as int).push(
                l@.customers[i as int],
            ));
            lemma_enc_customer_list_push(l@.customers.take(i as int), l@.customers[i as int]);
            assert(out@ =~= base + enc_customer_list(l@.customers.take(i + 1)));
        }
        i += 1;
    }
    out.push(125);
    out.push(125);
    proof {
        assert(l@.customers.take(n as int) =~= l@.customers);
        assert(out@ =~= enc_ledger(l@));
    }
    out
}

// ---------------------------------------------------------------------------
// Executable decoder.
// ---------------------------------------------------------------------------

/// Reads an unsigned integer of at most `maxlen` digits.
fn d_uint(s: &[u8], i: usize, maxlen: usize) -> (r: Option<(u64, usize)>)
    requires
        i <= s@.len(),
        maxlen <= 18,
    ensures
        match r {
            Some(v) => p_uint(s@, i as int, maxlen as int) == Some((v.0 as int, v.1 as int))
                && v.1 <= s@.len(),
            None => p_uint(s@, i as int, maxlen as int) is None,
        },
{
    let j = scan_digits(s, i);
    proof {
        lemma_digits_end_char(s@, i as int, j as int);
    }
    if j == i || j - i > maxlen {
        return None;
    }
    let v = digits_value(s, i, j);
    Some((v, j))
}

/// Reads a money amount within the documented cap.
fn d_money(s: &[u8], i: usize) -> (r: Option<(i64, usize)>)
    requires
        i <= s@.len(),
    ensures
        match r {
            Some(v) => p_money(s@, i as int) == Some((v.0 as int, v.1 as int)) && v.1 <= s@.len(),
            None => p_money(s@, i as int) is None,
        },
{
    let neg = i < s.len() && s[i] == 45;
    let i1 = if neg {
        i + 1
    } else {
        i
    };
    let units;
    let j;
    match d_uint(s, i1, 13) {
        None => {
            return None;
        },
        Some(v) => {
            units = v.0;
            j = v.1;
        },
    }
    if !(j < s.len() && s[j] == 46) {
        return None;
    }
    let frac;
    let k;
    match d_uint(s, j + 1, 6) {
        None => {
            return None;
        },
        Some(v) => {
            frac = v.0;
            k = v.1;
        },
    }
    if !(k >= 7 && k - 7 == j) {
        return None;
    }
    proof {
        crate::num::lemma_pow10_18();
        crate::num::lemma_pow10_monotone(13, 18);
        crate::num::lemma_pow10_monotone(6, 18);
    }
    let mag: u128 = (units as u128) * 1000000 + (frac as u128);
    if mag > MONEY_CAP as u128 {
        return None;
    }
    let v: i64 = if neg {
        -(mag as i64)
    } else {
        mag as i64
    };
    Some((v, k))
}

/// Reads the customer counter within its cap.
fn d_count(s: &[u8], i: usize) -> (r: Option<(u64, usize)>)
    requires
        i <= s@.len(),
    ensures
        match r {
            Some(v) => p_count(s@, i as int) == Some((v.0 as int, v.1 as int)) && v.1 <= s@.len(),
            None => p_count(s@, i as int) is None,
        },
{
    match d_uint(s, i, 18) {
        None => None,
        Some(v) => if v.0 <= COUNT_CAP {
            Some(v)
        } else {
            None
        },
    }
}

/// Reads a quoted string.
fn d_str(s: &[u8], i: usize) -> (r: Option<(Vec<u8>, usize)>)
    requires
        i <= s@.len(),
    ensures
        match r {
            Some(v) => p_str(s@, i as int) == Some((v.0@, v.1 as int)) && i < v.1 <= s@.len(),
            None => p_str(s@, i as int) is None,
        },
{
    if !(i < s.len() && s[i] == 34) {
        return None;
    }
    let j = scan_quote(s, i + 1);
    if j >= s.len() {
        return None;
    }
    let content = vstd::slice::slice_subrange(s, i + 1, j);
    Some((crate::text::copy_bytes(content), j + 1))
}

/// Reads one `"day":"amounts"` pair.
fn d_day(s: &[u8], i: usize) -> (r: Option<(DayLog, usize)>)
    requires
        i <= s@.len(),
    ensures
        match r {
            Some(v) => p_day(s@, i as int) == Some((v.0@, v.1 as int)) && i < v.1 <= s@.len(),
            None => p_day(s@, i as int) is None,
        },
{
    let day;
    let j;
    match d_str(s, i) {
        None => {
            return None;
        },
        Some(v) => {
            day = v.0;
            j = v.1;
        },
    }
    if !(j < s.len() && s[j] == 58) {
        return None;
    }
    match d_str(s, j + 1) {
        None => None,
        Some(v) => Some((DayLog { day: day, amounts: v.0 }, v.1)),
    }
}

/// Reads a comma-joined run of day pairs.
fn d_day_list(s: &[u8], i: usize) -> (r: Option<(Vec<DayLog>, usize)>)
    requires
        i <= s@.len(),
    ensures
        match r {
            Some(v) => p_day_list(s@, i as int) == Some((
                v.0@.map_values(|d: DayLog| d@),
                v.1 as int,
            )) && i < v.1 <= s@.len(),
            None => p_day_list(s@, i as int) is None,
        },
    decreases s@.len() - i,
{
    let d;
    let j;
    match d_day(s, i) {
        None => {
            return None;
        },
        Some(v) => {
            d = v.0;
            j = v.1;
        },
    }
    if j < s.len() && s[j] == 44 {
        match d_day_list(s, j + 1) {
            None => None,
            Some(v) => {
                let mut rest = v.0;
                rest.insert(0, d);
                proof {
                    assert(rest@.map_values(|x: DayLog| x@) =~= seq![d@] + v.0@.map_values(
                        |x: DayLog| x@,
                    ));
                }
                Some((rest, v.1))
            },
        }
    } else {
        let mut one: Vec<DayLog> = Vec::new();
        one.push(d);
        proof {
            assert(one@.map_values(|x: DayLog| x@) =~= seq![d@]);
        }
        Some((one, j))
    }
}

/// Reads one `"phone":{ ... }` entry.
fn d_customer(s: &[u8], i: usize) -> (r: Option<(CustomerLog, usize)>)
    requires
        i <= s@.len(),
    ensures
        match r {
            Some(v) => p_customer(s@, i as int) == Some((v.0@, v.1 as int)) && i < v.1
                <= s@.len(),
            None => p_customer(s@, i as int) is None,
        },
{
    let phone;
    let j;
    match d_str(s, i) {
        None => {
            return None;
        },
        Some(v) => {
            phone = v.0;
            j = v.1;
        },
    }
    if !(j < s.len() && j + 1 < s.len() && s[j] == 58 && s[j + 1] == 123) {
        return None;
    }
    if j + 2 < s.len() && s[j + 2] == 125 {
        let empty_days: Vec<DayLog> = Vec::new();
        let c = CustomerLog { phone: phone, days: empty_days };
        proof {
            assert(c@.days =~= Seq::<DayLogV>::empty());
        }
        return Some((c, j + 3));
    }
    match d_day_list(s, j + 2) {
        None => None,
        Some(v) => {
            let k = v.1;
            if k < s.len() && s[k] == 125 {
                Some((CustomerLog { phone: phone, days: v.0 }, k + 1))
            } else {
                None
            }
        },
    }
}

/// Reads a comma-joined run of customer entries.
fn d_customer_list(s: &[u8], i: usize) -> (r: Option<(Vec<CustomerLog>, usize)>)
    requires
        i <= s@.len(),
    ensures
        match r {
            Some(v) => p_customer_list(s@, i as int) == Some((
                v.0@.map_values(|c: CustomerLog| c@),
                v.1 as int,
            )) && i < v.1 <= s@.len(),
            None => p_customer_list(s@, i as int) is None,
        },
    decreases s@.len() - i,
{
    let c;
    let j;
    match d_customer(s, i) {
        None => {
            return None;
        },
        Some(v) => {
            c = v.0;
            j = v.1;
        },
    }
    if j < s.len() && s[j] == 44 {
        match d_customer_list(s, j + 1) {
            None => None,
            Some(v) => {
                let mut rest = v.0;
                rest.insert(0, c);
                proof {
                    assert(rest@.map_values(|x: CustomerLog| x@) =~= seq![c@] + v.0@.map_values(
                        |x: CustomerLog| x@,
                    ));
                }
                Some((rest, v.1))
            },
        }
    } else {
        let mut one: Vec<CustomerLog> = Vec::new();
        one.push(c);
        proof {
            assert(one@.map_values(|x: CustomerLog| x@) =~= seq![c@]);
        }
        Some((one, j))
    }
}

/// Decides uniqueness of the day keys of one entry.
fn days_distinct(v: &Vec<DayLog>) -> (r: bool)
    ensures
        r == days_wf(v@.map_values(|d: DayLog| d@)),
{
    let n = v.len();
    let mut i: usize = 0;
    while i < n
        invariant
            i <= n,
            n == v@.len(),
            forall|a: int, b: int|
                0 <= a < b < n && a < i ==> (#[trigger] v@[a]@).day != (#[trigger] v@[b]@).day,
        decreases n - i,
    {
        let mut j: usize = i + 1;
        while j < n
            invariant
                i < j <= n,
                i < n,
                n == v@.len(),
                forall|a: int, b: int|
                    0 <= a < b < n && a < i ==> (#[trigger] v@[a]@).day != (#[trigger] v@[b]@).day,
                forall|b: int| i < b < j ==> (#[trigger] v@[b]@).day != v@[i as int]@.day,
            decreases n - j,
        {
            if eq_bytes(v[i].day.as_slice(), v[j].day.as_slice()) {
                proof {
                    let m = v@.map_values(|d: DayLog| d@);
                    assert(m[i as int].day == m[j as int].day);
                    assert(!days_wf(m));
                }
                return false;
            }
            j += 1;
        }
        i += 1;
    }
    true
}

/// Decides well-formedness of a decoded customer list.
fn customers_distinct(v: &Vec<CustomerLog>) -> (r: bool)
    ensures
        r == customers_wf(v@.map_values(|c: CustomerLog| c@)),
{
    let n = v.len();
    let mut i: usize = 0;
    while i < n
        invariant
            i <= n,
            n == v@.len(),
            forall|a: int, b: int|
                0 <= a < b < n && a < i ==> (#[trigger] v@[a]@).phone != (#[trigger] v@[b]@).phone,
            forall|a: int| 0 <= a < i ==> days_wf((#[trigger] v@[a]@).days),
        decreases n - i,
    {
        if !days_distinct(&v[i].days) {
            proof {
                let m = v@.map_values(|c: CustomerLog| c@);
                assert(m[i as int].days == v@[i as int]@.days);
                assert(!days_wf(m[i as int].days));
                assert(!customers_wf(m));
            }
            return false;
        }
        let mut j: usize = i + 1;
        while j < n
            invariant
                i < j <= n,
                i < n,
                n == v@.len(),
                forall|a: int, b: int|
                    0 <= a < b < n && a < i ==> (#[trigger] v@[a]@).phone != (
                    #[trigger] v@[b]@).phone,
                forall|b: int| i < b < j ==> (#[trigger] v@[b]@).phone != v@[i as int]@.phone,
            decreases n - j,
        {
            if eq_bytes(v[i].phone.as_slice(), v[j].phone.as_slice()) {
                proof {
                    let m = v@.map_values(|c: CustomerLog| c@);
                    assert(m[i as int].phone == m[j as int].phone);
                    assert(!customers_wf(m));
                }
                return false;
            }
            j += 1;
        }
        i += 1;
    }
    true
}

/// Reads a stored aggregate; `None` on any deviation from the documented
/// shape.
pub fn decode_ledger(s: &[u8]) -> (r: Option<CustomerDiscountDetails>)
    ensures
        match r {
            Some(l) => p_ledger(s@) == Some(l@) && l.wf() && ledger_bounded(l@),
            None => p_ledger(s@) is None,
        },
{
    proof {
        reveal(p_ledger);
        reveal_strlit("{\"total_pooled_amount\":");
        reveal_strlit(",\"total_eligible_customers\":");
        reveal_strlit(",\"total_discount_given\":");
        reveal_strlit(",\"customer_expense_map\":{");
    }
    proof {
        assert(key_pooled().len() == 23);
        assert(key_eligible().len() == 28);
        assert(key_given().len() == 24);
        assert(key_map().len() == 25);
    }
    if !lit_at(s, 0, "{\"total_pooled_amount\":") {
        return None;
    }
    let pooled;
    let i1;
    match d_money(s, 23) {
        None => {
            return None;
        },
        Some(v) => {
            pooled = v.0;
            i1 = v.1;
        },
    }
    if !lit_at(s, i1, ",\"total_eligible_customers\":") {
        return None;
    }
    let eligible;
    let i2;
    match d_count(s, i1 + 28) {
        None => {
            return None;
        },
        Some(v) => {
            eligible = v.0;
            i2 = v.1;
        },
    }
    if !lit_at(s, i2, ",\"total_discount_given\":") {
        return None;
    }
    let given;
    let i3;
    match d_money(s, i2 + 24) {
        None => {
            return None;
        },
        Some(v) => {
            given = v.0;
            i3 = v.1;
        },
    }
    if !lit_at(s, i3, ",\"customer_expense_map\":{") {
        return None;
    }
    let i4 = i3 + 25;
    if i4 < s.len() && s[i4] == 125 {
        if i4 + 2 == s.len() && s[i4 + 1] == 125 {
            let l = CustomerDiscountDetails {
                total_pooled_amount: pooled,
                total_eligible_customers: eligible,
                total_discount_given: given,
                customer_expense_map: Vec::new(),
            };
            proof {
                assert(l@.customers =~= Seq::<CustomerLogV>::empty());
            }
            return Some(l);
        }
        return None;
    }
    match d_customer_list(s, i4) {
        None => None,
        Some(v) => {
            let j = v.1;
            if j < s.len() && j + 1 < s.len() && j + 2 == s.len() && s[j] == 125 && s[j + 1] == 125 {
                if !customers_distinct(&v.0) {
                    return None;
                }
                let l = CustomerDiscountDetails {
                    total_pooled_amount: pooled,
                    total_eligible_customers: eligible,
                    total_discount_given: given,
                    customer_expense_map: v.0,
                };
                Some(l)
            } else {
                None
            }
        },
    }
}

// ---------------------------------------------------------------------------
// The round trip: what the encoder writes, the decoder reads back intact.
// ---------------------------------------------------------------------------

#[verifier::spinoff_prover]
proof fn lemma_uint_at(pre: Seq<u8>, d: Seq<u8>, post: Seq<u8>, maxlen: int)
    requires
        all_digits(d),
        1 <= d.len() <= maxlen,
        post.len() == 0 || !is_digit(post[0]),
    ensures
        p_uint(pre + d + post, pre.len() as int, maxlen) == Some((
            digits_val(d),
            pre.len() + d.len() as int,
        )),
{
    let s = pre + d + post;
    let i = pre.len() as int;
    assert forall|k: int| i <= k < i + d.len() implies is_digit(#[trigger] s[k]) by {
        assert(s[k] == d[k - i]);
    }
    if post.len() > 0 {
        assert(s[i + d.len()] == post[0]);
    }
    lemma_digits_end_char(s, i, i + d.len());
    assert(s.subrange(i, i + d.len()) =~= d);
}

#[verifier::spinoff_prover]
proof fn lemma_money_at(pre: Seq<u8>, m: int, post: Seq<u8>)
    requires
        -(MONEY_CAP as int) <= m <= MONEY_CAP as int,
        post.len() == 0 || !is_digit(post[0]),
    ensures
        p_money(pre + enc_money(m) + post, pre.len() as int) == Some((
            m,
            pre.len() + enc_money(m).len() as int,
        )),
{
    let s = pre + enc_money(m) + post;
    let i = pre.len() as int;
    let mag = if m < 0 {
        -m
    } else {
        m
    };
    let units = (mag / 1000000) as nat;
    let frac = (mag % 1000000) as nat;
    let d1 = spec_digits(units);
    let d2 = spec_pad_digits(frac, 6);
    assert(pow10(6) == 1_000_000 && pow10(12) == 1_000_000_000_000 && pow10(13)
        == 10_000_000_000_000) by {
        reveal_with_fuel(pow10, 14);
    }
    crate::num::lemma_digits_roundtrip(units);
    assert(units < pow10(13)) by (nonlinear_arith)
        requires
            0 <= mag <= 1_000_000_000_000_000_000,
            units == mag / 1000000,
            pow10(13) == 10_000_000_000_000,
    ;
    crate::num::lemma_digits_len_bound(units, 13);
    crate::num::lemma_pad_digits_roundtrip(frac, 6);
    assert(units * 1000000 + frac == mag) by (nonlinear_arith)
        requires
            units == mag / 1000000,
            frac == mag % 1000000,
            mag >= 0,
    ;
    if m < 0 {
        assert(enc_money(m) =~= seq![45u8] + d1 + seq![46u8] + d2);
        assert(s[i] == 45);
        let i1 = i + 1;
        assert(s =~= (pre + seq![45u8]) + d1 + (seq![46u8] + d2 + post));
        lemma_uint_at(pre + seq![45u8], d1, seq![46u8] + d2 + post, 13);
        let j = i1 + d1.len();
        assert(s[j] == 46);
        assert(s =~= (pre + seq![45u8] + d1 + seq![46u8]) + d2 + post);
        lemma_uint_at(pre + seq![45u8] + d1 + seq![46u8], d2, post, 6);
        assert(p_uint(s, j + 1, 6) == Some((frac as int, j + 7)));
        assert(p_money(s, i) == Some((m, i + enc_money(m).len())));
    } else {
        assert(enc_money(m) =~= d1 + seq![46u8] + d2);
        assert(s[i] == d1[0]);
        assert(is_digit(d1[0]));
        assert(s[i] != 45);
        assert(s =~= pre + d1 + (seq![46u8] + d2 + post));
        lemma_uint_at(pre, d1, seq![46u8] + d2 + post, 13);
        let j = i + d1.len();
        assert(s[j] == 46);
        assert(s =~= (pre + d1 + seq![46u8]) + d2 + post);
        lemma_uint_at(pre + d1 + seq![46u8], d2, post, 6);
        assert(p_uint(s, j + 1, 6) == Some((frac as int, j + 7)));
        assert(p_money(s, i) == Some((m, i + enc_money(m).len())));
    }
}

#[verifier::spinoff_prover]
proof fn lemma_count_at(pre: Seq<u8>, n: int, post: Seq<u8>)
    requires
        0 <= n <= COUNT_CAP as int,
        post.len() == 0 || !is_digit(post[0]),
    ensures
        p_count(pre + enc_count(n as nat) + post, pre.len() as int) == Some((
            n,
            pre.len() + enc_count(n as nat).len() as int,
        )),
{
    let d = spec_digits(n as nat);
    crate::num::lemma_digits_roundtrip(n as nat);
    assert(pow10(16) == 10_000_000_000_000_000) by {
        reveal_with_fuel(pow10, 17);
    }
    crate::num::lemma_digits_len_bound(n as nat, 16);
    lemma_uint_at(pre, d, post, 18);
}

#[verifier::spinoff_prover]
proof fn lemma_str_at(pre: Seq<u8>, v: Seq<u8>, post: Seq<u8>)
    requires
        text_ok(v),
    ensures
        p_str(pre + enc_str(v) + post, pre.len() as int) == Some((v, pre.len() + v.len() + 2int)),
{
    let s = pre + enc_str(v) + post;
    let i = pre.len() as int;
    assert(s[i] == 34);
    assert forall|k: int| i + 1 <= k < i + 1 + v.len() implies (#[trigger] s[k]) != 34 by {
        assert(s[k] == v[k - i - 1]);
    }
    assert(s[i + 1 + v.len()] == 34);
    lemma_quote_end_char(s, i + 1, i + 1 + v.len());
    assert(s.subrange(i + 1, i + 1 + v.len()) =~= v);
}

#[verifier::spinoff_prover]
proof fn lemma_day_at(pre: Seq<u8>, d: DayLogV, post: Seq<u8>)
    requires
        text_ok(d.day),
        text_ok(d.amounts),
    ensures
        p_day(pre + enc_day(d) + post, pre.len() as int) == Some((
            d,
            pre.len() + enc_day(d).len() as int,
        )),
{
    let s = pre + enc_day(d) + post;
    let i = pre.len() as int;
    assert(s =~= pre + enc_str(d.day) + (seq![58u8] + enc_str(d.amounts) + post));
    lemma_str_at(pre, d.day, seq![58u8] + enc_str(d.amounts) + post);
    let j = i + d.day.len() + 2;
    assert(s[j] == 58);
    assert(s =~= (pre + enc_str(d.day) + seq![58u8]) + enc_str(d.amounts) + post);
    lemma_str_at(pre + enc_str(d.day) + seq![58u8], d.amounts, post);
    assert(p_str(s, j + 1) == Some((d.amounts, j + 1 + d.amounts.len() + 2)));
    assert(p_day(s, i) == Some((DayLogV { day: d.day, amounts: d.amounts }, i + enc_day(
        d,
    ).len())));
    assert(DayLogV { day: d.day, amounts: d.amounts } =~~= d);
}

#[verifier::spinoff_prover]
proof fn lemma_day_list_single(pre: Seq<u8>, ds: Seq<DayLogV>, post: Seq<u8>)
    requires
        ds.len() == 1,
        text_ok(ds[0].day),
        text_ok(ds[0].amounts),
        post.len() == 0 || post[0] != 44,
    ensures
        p_day_list(pre + enc_day_list(ds) + post, pre.len() as int) == Some((
            ds,
            pre.len() + enc_day_list(ds).len() as int,
        )),
{
    let s = pre + enc_day_list(ds) + post;
    let i = pre.len() as int;
    assert(enc_day_list(ds) == enc_day(ds[0]));
    lemma_day_at(pre, ds[0], post);
    let j = i + enc_day(ds[0]).len();
    if post.len() > 0 {
        assert(s[j] == post[0]);
    }
    assert(seq![ds[0]] =~= ds);
    assert(p_day_list(s, i) == Some((ds, i + enc_day_list(ds).len())));
}

#[verifier::rlimit(100)]
#[verifier::spinoff_prover]
proof fn lemma_day_list_step(pre: Seq<u8>, ds: Seq<DayLogV>, post: Seq<u8>)
    requires
        ds.len() >= 2,
        forall|j: int|
            0 <= j < ds.len() ==> text_ok((#[trigger] ds[j]).day) && text_ok(ds[j].amounts),
        p_day_list(
            (pre + enc_day(ds[0]) + seq![44u8]) + enc_day_list(ds.skip(1)) + post,
            pre.len() + enc_day(ds[0]).len() + 1int,
        ) == Some((
            ds.skip(1),
            pre.len() + enc_day(ds[0]).len() + 1int + enc_day_list(ds.skip(1)).len() as int,
        )),
    ensures
        p_day_list(pre + enc_day_list(ds) + post, pre.len() as int) == Some((
            ds,
            pre.len() + enc_day_list(ds).len() as int,
        )),
{
    let s = pre + enc_day_list(ds) + post;
    let i = pre.len() as int;
    assert(enc_day_list(ds) == enc_day(ds[0]) + seq![44u8] + enc_day_list(ds.skip(1)));
    assert(s =~= pre + enc_day(ds[0]) + (seq![44u8] + enc_day_list(ds.skip(1)) + post));
    lemma_day_at(pre, ds[0], seq![44u8] + enc_day_list(ds.skip(1)) + post);
    let j = i + enc_day(ds[0]).len();
    assert(s[j] == 44);
    assert(s =~= (pre + enc_day(ds[0]) + seq![44u8]) + enc_day_list(ds.skip(1)) + post);
    assert(p_day_list(s, j + 1) == Some((
        ds.skip(1),
        i + enc_day_list(ds).len() as int,
    )));
    assert(seq![ds[0]] + ds.skip(1) =~= ds);
    assert(p_day_list(s, i) == Some((ds, i + enc_day_list(ds).len())));
}

proof fn lemma_day_list_at(pre: Seq<u8>, ds: Seq<DayLogV>, post: Seq<u8>)
    requires
        ds.len() >= 1,
        forall|j: int|
            0 <= j < ds.len() ==> text_ok((#[trigger] ds[j]).day) && text_ok(ds[j].amounts),
        post.len() == 0 || post[0] != 44,
    ensures
        p_day_list(pre + enc_day_list(ds) + post, pre.len() as int) == Some((
            ds,
            pre.len() + enc_day_list(ds).len() as int,
        )),
    decreases ds.len(),
{
    if ds.len() == 1 {
        lemma_day_list_single(pre, ds, post);
    } else {
        assert(forall|j2: int|
            0 <= j2 < ds.skip(1).len() ==> ds.skip(1)[j2] == ds[j2 + 1]);
        lemma_day_list_at(pre + enc_day(ds[0]) + seq![44u8], ds.skip(1), post);
        lemma_day_list_step(pre, ds, post);
    }
}

#[verifier::spinoff_prover]
proof fn lemma_customer_at_empty(pre: Seq<u8>, c: CustomerLogV, post: Seq<u8>)
    requires
        text_ok(c.phone),
        c.days.len() == 0,
    ensures
        p_customer(pre + enc_customer(c) + post, pre.len() as int) == Some((
            c,
            pre.len() + enc_customer(c).len() as int,
        )),
{
    let s = pre + enc_customer(c) + post;
    let i = pre.len() as int;
    assert(enc_day_list(c.days) == Seq::<u8>::empty());
    assert(enc_customer(c) =~= enc_str(c.phone) + seq![58u8, 123u8, 125u8]);
    assert(s =~= pre + enc_str(c.phone) + (seq![58u8, 123u8, 125u8] + post));
    lemma_str_at(pre, c.phone, seq![58u8, 123u8, 125u8] + post);
    let j = i + c.phone.len() + 2;
    assert(s[j] == 58);
    assert(s[j + 1] == 123);
    assert(s[j + 2] == 125);
    assert(CustomerLogV { phone: c.phone, days: Seq::empty() } =~~= c);
    assert(p_customer(s, i) == Some((c, i + enc_customer(c).len())));
}

#[verifier::rlimit(100)]
#[verifier::spinoff_prover]
proof fn lemma_customer_at_days(pre: Seq<u8>, c: CustomerLogV, post: Seq<u8>)
    requires
        text_ok(c.phone),
        c.days.len() >= 1,
        forall|j: int|
            0 <= j < c.days.len() ==> text_ok((#[trigger] c.days[j]).day) && text_ok(
                c.days[j].amounts,
            ),
    ensures
        p_customer(pre + enc_customer(c) + post, pre.len() as int) == Some((
            c,
            pre.len() + enc_customer(c).len() as int,
        )),
{
    let s = pre + enc_customer(c) + post;
    let i = pre.len() as int;
    assert(s =~= pre + enc_str(c.phone) + (seq![58u8] + seq![123u8] + enc_day_list(c.days)
        + seq![125u8] + post));
    lemma_str_at(
        pre,
        c.phone,
        seq![58u8] + seq![123u8] + enc_day_list(c.days) + seq![125u8] + post,
    );
    let j = i + c.phone.len() + 2;
    assert(s[j] == 58);
    assert(s[j + 1] == 123);
    assert(enc_day_list(c.days)[0] == 34) by {
        if c.days.len() == 1 {
            assert(enc_day_list(c.days) == enc_day(c.days[0]));
        } else {
            assert(enc_day_list(c.days) == enc_day(c.days[0]) + seq![44u8] + enc_day_list(
                c.days.skip(1),
            ));
        }
        assert(enc_day(c.days[0])[0] == 34);
    }
    assert(s[j + 2] == enc_day_list(c.days)[0]);
    assert(s[j + 2] != 125);
    assert(s =~= (pre + enc_str(c.phone) + seq![58u8] + seq![123u8]) + enc_day_list(c.days)
        + (seq![125u8] + post));
    lemma_day_list_at(
        pre + enc_str(c.phone) + seq![58u8] + seq![123u8],
        c.days,
        seq![125u8] + post,
    );
    let k = j + 2 + enc_day_list(c.days).len();
    assert(p_day_list(s, j + 2) == Some((c.days, k)));
    assert(s[k] == 125);
    assert(CustomerLogV { phone: c.phone, days: c.days } =~~= c);
    assert(p_customer(s, i) == Some((c, i + enc_customer(c).len())));
}

proof fn lemma_customer_at(pre: Seq<u8>, c: CustomerLogV, post: Seq<u8>)
    requires
        text_ok(c.phone),
        forall|j: int|
            0 <= j < c.days.len() ==> text_ok((#[trigger] c.days[j]).day) && text_ok(
                c.days[j].amounts,
            ),
    ensures
        p_customer(pre + enc_customer(c) + post, pre.len() as int) == Some((
            c,
            pre.len() + enc_customer(c).len() as int,
        )),
{
    if c.days.len() == 0 {
        lemma_customer_at_empty(pre, c, post);
    } else {
        lemma_customer_at_days(pre, c, post);
    }
}

#[verifier::rlimit(100)]
#[verifier::spinoff_prover]
proof fn lemma_customer_list_at(pre: Seq<u8>, cs: Seq<CustomerLogV>, post: Seq<u8>)
    requires
        cs.len() >= 1,
        forall|a: int|
            0 <= a < cs.len() ==> text_ok((#[trigger] cs[a]).phone) && forall|j: int|
                0 <= j < cs[a].days.len() ==> text_ok((#[trigger] cs[a].days[j]).day) && text_ok(
                    cs[a].days[j].amounts,
                ),
        post.len() == 0 || post[0] != 44,
    ensures
        p_customer_list(pre + enc_customer_list(cs) + post, pre.len() as int) == Some((
            cs,
            pre.len() + enc_customer_list(cs).len() as int,
        )),
    decreases cs.len(),
{
    let s = pre + enc_customer_list(cs) + post;
    let i = pre.len() as int;
    if cs.len() == 1 {
        assert(enc_customer_list(cs) == enc_customer(cs[0]));
        lemma_customer_at(pre, cs[0], post);
        let j = i + enc_customer(cs[0]).len();
        if post.len() > 0 {
            assert(s[j] == post[0]);
        }
        assert(seq![cs[0]] =~= cs);
        assert(p_customer_list(s, i) == Some((cs, i + enc_customer_list(cs).len())));
    } else {
        assert(enc_customer_list(cs) == enc_customer(cs[0]) + seq![44u8] + enc_customer_list(
            cs.skip(1),
        ));
        assert(s =~= pre + enc_customer(cs[0]) + (seq![44u8] + enc_customer_list(cs.skip(1))
            + post));
        lemma_customer_at(pre, cs[0], seq![44u8] + enc_customer_list(cs.skip(1)) + post);
        let j = i + enc_customer(cs[0]).len();
        assert(s[j] == 44);
        assert(s =~= (pre + enc_customer(cs[0]) + seq![44u8]) + enc_customer_list(cs.skip(1))
            + post);
        assert(forall|a: int| 0 <= a < cs.skip(1).len() ==> cs.skip(1)[a] == cs[a + 1]);
        lemma_customer_list_at(pre + enc_customer(cs[0]) + seq![44u8], cs.skip(1), post);
        assert(p_customer_list(s, j + 1) == Some((cs.skip(1), i + enc_customer_list(cs).len())));
        assert(seq![cs[0]] + cs.skip(1) =~= cs);
        assert(p_customer_list(s, i) == Some((cs, i + enc_customer_list(cs).len())));
    }
}

/// Writing an aggregate and reading it back yields the identical aggregate:
/// the decoder accepts exactly what the encoder wrote, field for field, with
/// every key, day and amount text intact and in order.
#[verifier::rlimit(100)]
#[verifier::spinoff_prover]
pub proof fn lemma_ledger_roundtrip(l: LedgerV)
    requires
        ledger_wf(l),
        ledger_bounded(l),
        ledger_text_ok(l),
    ensures
        p_ledger(enc_ledger(l)) == Some(l),
        spec_ledger_or_default(enc_ledger(l)) == l,
{
    reveal(p_ledger);
    reveal(enc_ledger);
    reveal(spec_ledger_or_default);
    reveal_strlit("{\"total_pooled_amount\":");
    reveal_strlit(",\"total_eligible_customers\":");
    reveal_strlit(",\"total_discount_given\":");
    reveal_strlit(",\"customer_expense_map\":{");
    let k1 = bytes_of(key_pooled());
    let k2 = bytes_of(key_eligible());
    let k3 = bytes_of(key_given());
    let k4 = bytes_of(key_map());
    let m1 = enc_money(l.pooled);
    let cnt = enc_count(l.eligible as nat);
    let m2 = enc_money(l.given);
    let cl = enc_customer_list(l.customers);
    let s = enc_ledger(l);
    assert(s =~= k1 + m1 + k2 + cnt + k3 + m2 + k4 + cl + seq![125u8] + seq![125u8]);

    // The opening key.
    assert(s.subrange(0, 23) =~= k1);
    assert(spec_lit_at(s, 0, key_pooled()));

    // The pooled amount, bounded by the comma that opens the next key.
    assert(s =~= k1 + m1 + (k2 + cnt + k3 + m2 + k4 + cl + seq![125u8] + seq![125u8]));
    let rest1 = k2 + cnt + k3 + m2 + k4 + cl + seq![125u8] + seq![125u8];
    assert(rest1[0] == 44 && !is_digit(44));
    lemma_money_at(k1, l.pooled, rest1);
    let i1: int = 23 + m1.len() as int;
    assert(p_money(s, 23) == Some((l.pooled, i1)));

    // The eligible counter.
    assert(s.subrange(i1, i1 + 28) =~= k2);
    assert(spec_lit_at(s, i1, key_eligible()));
    assert(s =~= (k1 + m1 + k2) + cnt + (k3 + m2 + k4 + cl + seq![125u8] + seq![125u8]));
    let rest2 = k3 + m2 + k4 + cl + seq![125u8] + seq![125u8];
    assert(rest2[0] == 44 && !is_digit(44));
    lemma_count_at(k1 + m1 + k2, l.eligible, rest2);
    let i2: int = i1 + 28 + cnt.len() as int;
    assert(p_count(s, i1 + 28) == Some((l.eligible, i2)));

    // The dispensed total.
    assert(s.subrange(i2, i2 + 24) =~= k3);
    assert(spec_lit_at(s, i2, key_given()));
    assert(s =~= (k1 + m1 + k2 + cnt + k3) + m2 + (k4 + cl + seq![125u8] + seq![125u8]));
    let rest3 = k4 + cl + seq![125u8] + seq![125u8];
    assert(rest3[0] == 44 && !is_digit(44));
    lemma_money_at(k1 + m1 + k2 + cnt + k3, l.given, rest3);
    let i3: int = i2 + 24 + m2.len() as int;
    assert(p_money(s, i2 + 24) == Some((l.given, i3)));

    // The expense map.
    assert(s.subrange(i3, i3 + 25) =~= k4);
    assert(spec_lit_at(s, i3, key_map()));
    let i4: int = i3 + 25;
    if l.customers.len() == 0 {
        assert(cl == Seq::<u8>::empty());
        assert(s[i4] == 125 && s[i4 + 1] == 125 && i4 + 2 == s.len());
        assert(p_ledger(s) == Some(LedgerV {
            pooled: l.pooled,
            eligible: l.eligible,
            given: l.given,
            customers: Seq::empty(),
        }));
        assert(LedgerV {
            pooled: l.pooled,
            eligible: l.eligible,
            given: l.given,
            customers: Seq::<CustomerLogV>::empty(),
        } =~~= l);
    } else {
        assert(cl[0] == 34) by {
            if l.customers.len() == 1 {
                assert(cl == enc_customer(l.customers[0]));
            } else {
                assert(cl == enc_customer(l.customers[0]) + seq![44u8] + enc_customer_list(
                    l.customers.skip(1),
                ));
            }
            assert(enc_customer(l.customers[0])[0] == 34);
        }
        assert(s[i4] == cl[0]);
        assert(s[i4] != 125);
        assert(s =~= (k1 + m1 + k2 + cnt + k3 + m2 + k4) + cl + (seq![125u8] + seq![125u8]));
        lemma_customer_list_at(
            k1 + m1 + k2 + cnt + k3 + m2 + k4,
            l.customers,
            seq![125u8] + seq![125u8],
        );
        let j: int = i4 + cl.len() as int;
        assert(p_customer_list(s, i4) == Some((l.customers, j)));
        assert(s[j] == 125 && s[j + 1] == 125 && j + 2 == s.len());
        assert(p_ledger(s) == Some(LedgerV {
            pooled: l.pooled,
            eligible: l.eligible,
            given: l.given,
            customers: l.customers,
        }));
        assert(LedgerV {
            pooled: l.pooled,
            eligible: l.eligible,
            given: l.given,
            customers: l.customers,
        } =~~= l);
    }
}

/// The aggregate a fetched value denotes: decoded when well formed, else the
/// empty aggregate, exactly as a missing value.
pub fn ledger_or_default(s: &[u8]) -> (r: CustomerDiscountDetails)
    ensures
        r@ == spec_ledger_or_default(s@),
        r.wf(),
        ledger_bounded(r@),
{
    proof {
        reveal(spec_ledger_or_default);
    }
    match decode_ledger(s) {
        Some(l) => l,
        None => Default::default(),
    }
}

} // verus!

