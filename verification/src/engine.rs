//! The discount pooling engine.
//!
//! Given a validated request, the engine reads the current and prior week's
//! aggregates, pays the requesting phone its share of the prior week's pool,
//! skims three percent of the final amount into the current pool, logs the
//! transaction, and renders the reply.  The caller fetches the four store
//! values named by the key functions, hands them in together with today's
//! date, and persists the one write the engine hands back.

use vstd::prelude::*;
use crate::num::{is_digit, digits_val, spec_digits, spec_pad_digits, pow10, div_trunc,
    div_round, MONEY_CAP, AMOUNT_CAP, scan_digits, digits_value, push_digits, push_pad_digits,
    div_trunc_i64, div_round_i128, lemma_pow10_18, lemma_pow10_monotone, lemma_digits_val_bound};
use crate::text::{bytes_of, append_lit, append_bytes, copy_bytes};
use crate::date::{Date, date_ok, spec_format_date, format_date, spec_monday_of, monday_of,
    append_date};
use crate::ledger::{CustomerDiscountDetails, LedgerV, has_phone, spec_transacted,
    spec_log_customers, ledger_bounded};
use crate::codec::{p_digits_end, lemma_digits_end_char, enc_money, enc_ledger,
    spec_ledger_or_default, ledger_or_default, encode_ledger, money_text};
use crate::auth::{AuthOutcome, StoreWrite, spec_auth, validate_token};

verus! {

// ---------------------------------------------------------------------------
// Request parsing: one `phone,amount` pair, both sides trimmed.
// ---------------------------------------------------------------------------

pub open spec fn is_space(b: u8) -> bool {
    b == 32 || b == 9 || b == 10 || b == 13
}

/// First non-blank position at or after `i`.
pub open spec fn skip_spaces(s: Seq<u8>, i: int) -> int
    decreases s.len() - i,
{
    if i < 0 || i >= s.len() || !is_space(s[i]) {
        i
    } else {
        skip_spaces(s, i + 1)
    }
}

/// Position after the last non-blank byte before `j`.
pub open spec fn rtrim_end(s: Seq<u8>, j: int) -> int
    decreases j,
{
    if j <= 0 || j > s.len() || !is_space(s[j - 1]) {
        j
    } else {
        rtrim_end(s, j - 1)
    }
}

/// The slice with leading and trailing blanks removed.
pub open spec fn spec_trim(s: Seq<u8>) -> Seq<u8> {
    let a = skip_spaces(s, 0);
    let b = rtrim_end(s, s.len() as int);
    if a < b {
        s.subrange(a, b)
    } else {
        Seq::empty()
    }
}

/// First position of byte `b` at or after `i`, or -1.
pub open spec fn first_at(s: Seq<u8>, i: int, b: u8) -> int
    decreases s.len() - i,
{
    if i < 0 || i >= s.len() {
        -1
    } else if s[i] == b {
        i
    } else {
        first_at(s, i + 1, b)
    }
}

/// The request split on its single comma, both parts trimmed; `None` unless
/// the comma occurs exactly once.
pub open spec fn spec_split_request(s: Seq<u8>) -> Option<(Seq<u8>, Seq<u8>)> {
    let c = first_at(s, 0, 44);
    if c >= 0 && first_at(s, c + 1, 44) == -1 {
        Some((spec_trim(s.take(c)), spec_trim(s.skip(c + 1))))
    } else {
        None
    }
}

proof fn lemma_skip_spaces_char(s: Seq<u8>, i: int, j: int)
    requires
        0 <= i <= j <= s.len(),
        forall|k: int| i <= k < j ==> is_space(#[trigger] s[k]),
        j == s.len() || !is_space(s[j]),
    ensures
        skip_spaces(s, i) == j,
    decreases j - i,
{
    if i < j {
        lemma_skip_spaces_char(s, i + 1, j);
    }
}

proof fn lemma_rtrim_end_char(s: Seq<u8>, j: int, b: int)
    requires
        0 <= b <= j <= s.len(),
        forall|k: int| b <= k < j ==> is_space(#[trigger] s[k]),
        b == 0 || !is_space(s[b - 1]),
    ensures
        rtrim_end(s, j) == b,
    decreases j - b,
{
    if b < j {
        lemma_rtrim_end_char(s, j - 1, b);
    }
}

proof fn lemma_first_at_char(s: Seq<u8>, i: int, j: int, b: u8)
    requires
        0 <= i <= j <= s.len(),
        forall|k: int| i <= k < j ==> (#[trigger] s[k]) != b,
        j == s.len() || s[j] == b,
    ensures
        first_at(s, i, b) == if j < s.len() {
            j
        } else {
            -1int
        },
    decreases j - i,
{
    if i < j {
        lemma_first_at_char(s, i + 1, j, b);
    }
}

/// Trims ASCII blanks from both ends.
pub fn trim_bytes(s: &[u8]) -> (r: Vec<u8>)
    ensures
        r@ == spec_trim(s@),
{
    let n = s.len();
    let mut a: usize = 0;
    while a < n && (s[a] == 32 || s[a] == 9 || s[a] == 10 || s[a] == 13)
        invariant
            a <= n,
            n == s@.len(),
            forall|k: int| 0 <= k < a ==> is_space(#[trigger] s@[k]),
        decreases n - a,
    {
        a += 1;
    }
    proof {
        lemma_skip_spaces_char(s@, 0, a as int);
    }
    let mut b: usize = n;
    while b > a && (s[b - 1] == 32 || s[b - 1] == 9 || s[b - 1] == 10 || s[b - 1] == 13)
        invariant
            a <= b <= n,
            n == s@.len(),
            forall|k: int| b <= k < n ==> is_space(#[trigger] s@[k]),
        decreases b,
    {
        b -= 1;
    }
    if a >= b {
        // The ends met, so every byte is blank and the trim is empty.
        proof {
            assert(a == b);
            if a < n {
                assert(is_space(s@[a as int]));
                assert(false);
            }
            lemma_rtrim_end_char(s@, n as int, 0);
        }
        Vec::new()
    } else {
        proof {
            assert(!is_space(s@[b - 1]));
            lemma_rtrim_end_char(s@, n as int, b as int);
        }
        let out = copy_bytes(vstd::slice::slice_subrange(s, a, b));
        proof {
            assert(out@ =~= spec_trim(s@));
        }
        out
    }
}

/// Splits the request on its single comma; `None` when the comma is missing
/// or repeated.
pub fn split_request(s: &[u8]) -> (r: Option<(Vec<u8>, Vec<u8>)>)
    ensures
        match r {
            Some(v) => spec_split_request(s@) == Some((v.0@, v.1@)),
            None => spec_split_request(s@) is None,
        },
{
    let n = s.len();
    let mut i: usize = 0;
    while i < n && s[i] != 44
        invariant
            i <= n,
            n == s@.len(),
            forall|k: int| 0 <= k < i ==> (#[trigger] s@[k]) != 44,
        decreases n - i,
    {
        i += 1;
    }
    proof {
        lemma_first_at_char(s@, 0, i as int, 44);
    }
    if i >= n {
        return None;
    }
    let mut j: usize = i + 1;
    while j < n && s[j] != 44
        invariant
            i + 1 <= j <= n,
            n == s@.len(),
            forall|k: int| i + 1 <= k < j ==> (#[trigger] s@[k]) != 44,
        decreases n - j,
    {
        j += 1;
    }
    proof {
        lemma_first_at_char(s@, i + 1, j as int, 44);
    }
    if j < n {
        return None;
    }
    let head = trim_bytes(vstd::slice::slice_subrange(s, 0, i));
    let tail = trim_bytes(vstd::slice::slice_subrange(s, i + 1, n));
    proof {
        assert(s@.subrange(0, i as int) =~= s@.take(i as int));
        assert(s@.subrange(i + 1, n as int) =~= s@.skip(i + 1));
    }
    Some((head, tail))
}

// ---------------------------------------------------------------------------
// Amounts: a non-negative decimal with at most nine integer and six
// fraction digits; anything else counts as zero.
// ---------------------------------------------------------------------------

/// The amount in micros an accepted decimal denotes.
pub open spec fn spec_parse_amount(s: Seq<u8>) -> Option<int> {
    let d = p_digits_end(s, 0);
    if d == 0 || d > 9 {
        None
    } else {
        let units = digits_val(s.take(d));
        if d == s.len() {
            Some(units * 1000000)
        } else if s[d] != 46 {
            None
        } else {
            let f = p_digits_end(s, d + 1);
            if f != s.len() || f - d - 1 > 6 {
                None
            } else {
                Some(units * 1000000 + digits_val(s.subrange(d + 1, f)) * pow10(
                    (6 - (f - d - 1)) as nat,
                ))
            }
        }
    }
}

/// The amount a request text denotes; a malformed text degrades to zero.
pub open spec fn spec_amount_or_zero(s: Seq<u8>) -> int {
    match spec_parse_amount(s) {
        Some(v) => v,
        None => 0,
    }
}

/// Ten to the `n`, executable.
fn pow10_u64(n: usize) -> (r: u64)
    requires
        n <= 18,
    ensures
        r == pow10(n as nat),
        1 <= r <= 1_000_000_000_000_000_000,
{
    proof {
        lemma_pow10_18();
        lemma_pow10_monotone(n as nat, 18);
    }
    let mut r: u64 = 1;
    let mut i: usize = 0;
    while i < n
        invariant
            i <= n <= 18,
            r == pow10(i as nat),
            r >= 1,
            pow10(18) == 1_000_000_000_000_000_000,
        decreases n - i,
    {
        proof {
            lemma_pow10_monotone((i + 1) as nat, 18);
        }
        r = r * 10;
        i += 1;
    }
    r
}

/// Reads the amount of a request, treating malformed input as zero.
pub fn parse_amount(s: &[u8]) -> (r: u64)
    ensures
        r == spec_amount_or_zero(s@),
        r < AMOUNT_CAP,
{
    proof {
        lemma_pow10_18();
        assert(pow10(9) == 1_000_000_000) by {
            reveal_with_fuel(pow10, 10);
        }
        assert(pow10(6) == 1_000_000) by {
            reveal_with_fuel(pow10, 7);
        }
    }
    let n = s.len();
    let d = scan_digits(s, 0);
    proof {
        lemma_digits_end_char(s@, 0, d as int);
    }
    if d == 0 || d > 9 {
        return 0;
    }
    let units = digits_value(s, 0, d);
    proof {
        assert(s@.subrange(0, d as int) =~= s@.take(d as int));
        assert(units < pow10(9)) by {
            lemma_pow10_monotone(d as nat, 9);
        }
    }
    if d == n {
        return units * 1000000;
    }
    if s[d] != 46 {
        return 0;
    }
    let f = scan_digits(s, d + 1);
    proof {
        lemma_digits_end_char(s@, d + 1, f as int);
    }
    if f != n || f - d - 1 > 6 {
        return 0;
    }
    let nf = f - d - 1;
    let frac = digits_value(s, d + 1, f);
    let scale = pow10_u64(6 - nf);
    proof {
        assert(frac < pow10(nf as nat));
        assert(pow10(nf as nat) * pow10((6 - nf) as nat) == pow10(6)) by {
            lemma_pow10_mul(nf as nat, (6 - nf) as nat);
        }
        assert(frac * scale < pow10(6)) by (nonlinear_arith)
            requires
                frac < pow10(nf as nat),
                scale == pow10((6 - nf) as nat),
                scale >= 1,
                pow10(nf as nat) * pow10((6 - nf) as nat) == pow10(6),
                frac >= 0,
        ;
    }
    units * 1000000 + frac * scale
}

/// Powers of ten multiply by adding exponents.
proof fn lemma_pow10_mul(a: nat, b: nat)
    ensures
        pow10(a) * pow10(b) == pow10(a + b),
    decreases a,
{
    if a == 0 {
    } else {
        lemma_pow10_mul((a - 1) as nat, b);
        assert(pow10(a) * pow10(b) == 10 * (pow10((a - 1) as nat) * pow10(b)))
            by (nonlinear_arith)
            requires
                pow10(a) == 10 * pow10((a - 1) as nat),
        ;
        assert((a - 1) + b == (a + b) - 1);
        assert(pow10(a + b) == 10 * pow10(((a + b) - 1) as nat));
    }
}

// ---------------------------------------------------------------------------
// The discount rule.
// ---------------------------------------------------------------------------

/// The discount owed to `phone` on `day`: nothing after a same-day
/// transaction or without a prior-week record; otherwise the prior pool
/// split over the prior and current eligible counts together.
pub open spec fn spec_discount(prior: LedgerV, cur: LedgerV, phone: Seq<u8>, day: Seq<u8>)
    -> int {
    if spec_transacted(cur, phone, day) {
        0
    } else if has_phone(prior.customers, phone) {
        let denom = prior.eligible + cur.eligible;
        if denom > 0 {
            div_trunc(prior.pooled, denom)
        } else {
            0
        }
    } else {
        0
    }
}

/// Computes the discount owed to `phone` on `day`.
pub fn compute_discount(
    prior: &CustomerDiscountDetails,
    cur: &CustomerDiscountDetails,
    phone: &[u8],
    day: &[u8],
) -> (d: i64)
    requires
        cur.wf(),
        ledger_bounded(prior@),
        ledger_bounded(cur@),
    ensures
        d == spec_discount(prior@, cur@, phone@, day@),
        -MONEY_CAP <= d <= MONEY_CAP,
{
    if cur.transacted_on(phone, day) {
        return 0;
    }
    if !prior.has_customer(phone) {
        return 0;
    }
    let denom: u64 = prior.total_eligible_customers + cur.total_eligible_customers;
    if denom == 0 {
        return 0;
    }
    div_trunc_i64(prior.total_pooled_amount, denom)
}

/// The discount as hundredths of a percent of the amount, rounded to the
/// nearest, ties away from zero; zero on a zero amount.
pub open spec fn spec_percent_h(discount: int, amount: int) -> int {
    if amount != 0 {
        div_round(discount * 10000, amount)
    } else {
        0
    }
}

// ---------------------------------------------------------------------------
// Rendering.
// ---------------------------------------------------------------------------

/// A signed count of hundredths as `-?D.DD`.
pub open spec fn fmt_cents(c: int) -> Seq<u8> {
    let mag = if c < 0 {
        -c
    } else {
        c
    };
    let sign: Seq<u8> = if c < 0 {
        seq![45u8]
    } else {
        Seq::empty()
    };
    sign + spec_digits((mag / 100) as nat) + seq![46u8] + spec_pad_digits((mag % 100) as nat, 2)
}

/// Appends `-?D.DD` for a signed count of hundredths.
fn append_cents(out: &mut Vec<u8>, c: i128)
    requires
        -100_000_000_000_000_000_000_000_000 <= c <= 100_000_000_000_000_000_000_000_000,
    ensures
        final(out)@ == old(out)@ + fmt_cents(c as int),
{
    let mag: u128 = if c < 0 {
        out.push(45);
        (-c) as u128
    } else {
        c as u128
    };
    push_digits(mag / 100, out);
    out.push(46);
    push_pad_digits((mag % 100) as u64, 2, out);
    proof {
        assert(out@ =~= old(out)@ + fmt_cents(c as int));
    }
}

/// The reply template: the phone as a number, the final amount and the
/// discount percentage each rounded to two decimals.
pub open spec fn spec_response_text(phone: Seq<u8>, final_micros: int, pct_h: int) -> Seq<u8> {
    bytes_of("Phone number: "@) + spec_digits(digits_val(phone) as nat) + bytes_of(
        "\n ; Final bill amount: "@,
    ) + fmt_cents(div_round(final_micros, 10000)) + bytes_of("\n ; Discount given: "@)
        + fmt_cents(pct_h) + seq![37u8]
}

// ---------------------------------------------------------------------------
// The engine itself.
// ---------------------------------------------------------------------------

/// The store key of a business's weekly aggregate.
pub open spec fn spec_week_key(business: Seq<u8>, monday: Date) -> Seq<u8> {
    business + bytes_of("___"@) + spec_format_date(monday)
}

pub fn week_key(business: &[u8], monday: &Date) -> (r: Vec<u8>)
    requires
        date_ok(*monday),
    ensures
        r@ == spec_week_key(business@, *monday),
{
    proof {
        reveal_strlit("___");
    }
    let mut out: Vec<u8> = Vec::new();
    append_bytes(&mut out, business);
    append_lit(&mut out, "___");
    append_date(&mut out, monday);
    out
}

/// The engine's reply: the text for the caller, and the one store write to
/// perform when the transaction went through.
pub struct EngineReply {
    pub response: Vec<u8>,
    pub update: Option<StoreWrite>,
}

#[verifier::ext_equal]
pub struct ReplyV {
    pub response: Seq<u8>,
    pub update: Option<(Seq<u8>, Seq<u8>)>,
}

impl View for EngineReply {
    type V = ReplyV;

    open spec fn view(&self) -> ReplyV {
        ReplyV {
            response: self.response@,
            update: match self.update {
                Some(w) => Some((w.key@, w.value@)),
                None => None,
            },
        }
    }
}

/// The current week's aggregate after the transaction: the expense logged
/// under the final amount's text, the eligible count raised on a first
/// appearance, the pool raised by the three-percent skim, and the dispensed
/// discount accumulated.
pub open spec fn spec_updated_ledger(cur: LedgerV, phone: Seq<u8>, day: Seq<u8>, discount: int,
    final_micros: int) -> LedgerV {
    LedgerV {
        pooled: cur.pooled + div_trunc(final_micros * 3, 100),
        eligible: cur.eligible + (if has_phone(cur.customers, phone) {
            0int
        } else {
            1int
        }),
        given: cur.given + discount,
        customers: spec_log_customers(cur.customers, phone, day, enc_money(final_micros)),
    }
}

/// The reply to a validated, well-formed request: the transaction applied
/// to the current week and the rendered text.
#[verifier::opaque]
pub open spec fn spec_transaction_reply(business: Seq<u8>, phone: Seq<u8>, amount_txt: Seq<u8>,
    today: Date, cur_bytes: Seq<u8>, prior_bytes: Seq<u8>) -> ReplyV {
    let amount = spec_amount_or_zero(amount_txt);
    let cur = spec_ledger_or_default(cur_bytes);
    let prior = spec_ledger_or_default(prior_bytes);
    let day = spec_format_date(today);
    let discount = spec_discount(prior, cur, phone, day);
    let final_micros = amount - discount;
    let updated = spec_updated_ledger(cur, phone, day, discount, final_micros);
    ReplyV {
        response: spec_response_text(phone, final_micros, spec_percent_h(discount, amount)),
        update: Some((spec_week_key(business, spec_monday_of(today)), enc_ledger(updated))),
    }
}

/// Everything the engine replies, as a function of the request, the two
/// token records, today's date, and the two fetched weekly aggregates.
#[verifier::opaque]
pub open spec fn spec_engine_reply(token: Seq<u8>, business: Seq<u8>, pna: Seq<u8>, today: Date,
    token_record: Seq<u8>, brecord: Seq<u8>, cur_bytes: Seq<u8>, prior_bytes: Seq<u8>)
    -> ReplyV {
    let auth = spec_auth(token, token_record, brecord, today);
    if auth == AuthOutcome::InvalidExpiry {
        ReplyV { response: bytes_of("Not authorized / Invalid token expiry date."@), update: None }
    } else if auth == AuthOutcome::NotAuthorized {
        ReplyV { response: bytes_of("Not authorized / Token expired."@), update: None }
    } else {
        match spec_split_request(pna) {
            None => ReplyV {
                response: bytes_of("Invalid phone_number_amount format. Expected 'phone,amount'."@),
                update: None,
            },
            Some((phone, amount_txt)) => if !crate::spec_is_phone(phone) {
                ReplyV {
                    response: bytes_of("Invalid phone number: "@) + phone + bytes_of(
                        ". Must be 10 digits."@,
                    ),
                    update: None,
                }
            } else {
                spec_transaction_reply(business, phone, amount_txt, today, cur_bytes, prior_bytes)
            },
        }
    }
}

/// Serves one discount request.
///
/// The caller supplies the two token records fetched under `token:<id>` and
/// `<business>_token_<id>`, and the current and prior week's stored
/// aggregates (empty bytes where the store held nothing), and persists the
/// returned write.  Store reads and writes stay outside; every decision in
/// between is this function's.
pub fn get_response(token: &[u8], business_name: &[u8], phone_number_amount: &[u8], today: &Date,
    token_record: &[u8], business_token_record: &[u8], current_week_value: &[u8],
    prior_week_value: &[u8]) -> (r: EngineReply)
    requires
        date_ok(*today),
        today.year >= 1001,
    ensures
        r@ == spec_engine_reply(
            token@,
            business_name@,
            phone_number_amount@,
            *today,
            token_record@,
            business_token_record@,
            current_week_value@,
            prior_week_value@,
        ),
{
    proof {
        reveal(spec_engine_reply);
        reveal_strlit("Not authorized / Invalid token expiry date.");
        reveal_strlit("Not authorized / Token expired.");
        reveal_strlit("Invalid phone_number_amount format. Expected 'phone,amount'.");
        reveal_strlit("Invalid phone number: ");
        reveal_strlit(". Must be 10 digits.");
        reveal_strlit("Phone number: ");
        reveal_strlit("\n ; Final bill amount: ");
        reveal_strlit("\n ; Discount given: ");
    }
    match validate_token(token, token_record, business_token_record, today) {
        AuthOutcome::InvalidExpiry => {
            let mut response: Vec<u8> = Vec::new();
            append_lit(&mut response, "Not authorized / Invalid token expiry date.");
            return EngineReply { response, update: None };
        },
        AuthOutcome::NotAuthorized => {
            let mut response: Vec<u8> = Vec::new();
            append_lit(&mut response, "Not authorized / Token expired.");
            return EngineReply { response, update: None };
        },
        AuthOutcome::Valid => {},
    }
    let phone;
    let amount_txt;
    match split_request(phone_number_amount) {
        None => {
            let mut response: Vec<u8> = Vec::new();
            append_lit(&mut response, "Invalid phone_number_amount format. Expected 'phone,amount'.");
            return EngineReply { response, update: None };
        },
        Some(v) => {
            phone = v.0;
            amount_txt = v.1;
        },
    }
    if !crate::is_valid_phone(phone.as_slice()) {
        let mut response: Vec<u8> = Vec::new();
        append_lit(&mut response, "Invalid phone number: ");
        append_bytes(&mut response, phone.as_slice());
        append_lit(&mut response, ". Must be 10 digits.");
        return EngineReply { response, update: None };
    }
    do_transaction(business_name, phone.as_slice(), amount_txt.as_slice(), today,
        current_week_value, prior_week_value)
}

/// Applies one validated transaction and renders the reply.
#[verifier::rlimit(100)]
fn do_transaction(business_name: &[u8], phone: &[u8], amount_txt: &[u8], today: &Date,
    current_week_value: &[u8], prior_week_value: &[u8]) -> (r: EngineReply)
    requires
        date_ok(*today),
        today.year >= 1001,
        crate::spec_is_phone(phone@),
    ensures
        r@ == spec_transaction_reply(
            business_name@,
            phone@,
            amount_txt@,
            *today,
            current_week_value@,
            prior_week_value@,
        ),
{
    proof {
        reveal(spec_transaction_reply);
        reveal_strlit("Phone number: ");
        reveal_strlit("\n ; Final bill amount: ");
        reveal_strlit("\n ; Discount given: ");
    }
    let amount: u64 = parse_amount(amount_txt);
    let mut cur = ledger_or_default(current_week_value);
    let prior = ledger_or_default(prior_week_value);
    let day = format_date(today);
    let discount: i64 = compute_discount(&prior, &cur, phone, day.as_slice());
    let final_micros: i64 = amount as i64 - discount;
    let contribution: i64 = skim(final_micros);
    let pct_h: i128 = if amount != 0 {
        div_round_i128((discount as i128) * 10000, amount as u128)
    } else {
        0
    };
    let ghost old_cur = cur@;
    let txt = money_text(final_micros);
    cur.log_expense(phone, day.as_slice(), txt.as_slice());
    cur.total_pooled_amount = cur.total_pooled_amount + contribution;
    cur.total_discount_given = cur.total_discount_given + discount;
    proof {
        assert(cur@ =~~= spec_updated_ledger(
            old_cur,
            phone@,
            day@,
            discount as int,
            final_micros as int,
        ));
    }
    let monday = monday_of(today);
    let key = week_key(business_name, &monday);
    let value = encode_ledger(&cur);
    let mut response: Vec<u8> = Vec::new();
    append_lit(&mut response, "Phone number: ");
    proof {
        assert(phone@.subrange(0, 10) =~= phone@);
        lemma_digits_val_bound(phone@);
    }
    let phone_num = digits_value(phone, 0, 10);
    push_digits(phone_num as u128, &mut response);
    append_lit(&mut response, "\n ; Final bill amount: ");
    let cents = div_round_i128(final_micros as i128, 10000);
    append_cents(&mut response, cents);
    append_lit(&mut response, "\n ; Discount given: ");
    append_cents(&mut response, pct_h);
    response.push(37);
    let r = EngineReply { response, update: Some(StoreWrite { key, value }) };
    proof {
        assert(r@.response =~= spec_response_text(
            phone@,
            final_micros as int,
            spec_percent_h(discount as int, amount as int),
        ));
        assert(r@ =~~= spec_transaction_reply(
            business_name@,
            phone@,
            amount_txt@,
            *today,
            current_week_value@,
            prior_week_value@,
        ));
    }
    r
}

// ---------------------------------------------------------------------------
// The discount rule, stated on its own.
// ---------------------------------------------------------------------------

/// A phone with a prior-week record and no transaction today is owed the
/// prior pool split over the two weeks' eligible counts together, whenever
/// that denominator is positive; the reply then renders exactly the amount
/// less that discount, and the discount as a share of the amount in
/// hundredths of a percent, zero for a zero amount.
pub proof fn lemma_pooled_distribution(prior: LedgerV, cur: LedgerV, phone: Seq<u8>,
    day: Seq<u8>, amount: int)
    requires
        !spec_transacted(cur, phone, day),
        has_phone(prior.customers, phone),
        prior.eligible + cur.eligible > 0,
    ensures
        spec_discount(prior, cur, phone, day) == div_trunc(
            prior.pooled,
            prior.eligible + cur.eligible,
        ),
        spec_percent_h(spec_discount(prior, cur, phone, day), amount) == if amount != 0 {
            div_round(spec_discount(prior, cur, phone, day) * 10000, amount)
        } else {
            0int
        },
{
}

/// The reply of a transaction renders the amount less the discount, and
/// persists the updated current week under its Monday-keyed record.
pub proof fn lemma_transaction_reply_shape(business: Seq<u8>, phone: Seq<u8>,
    amount_txt: Seq<u8>, today: Date, cur_bytes: Seq<u8>, prior_bytes: Seq<u8>)
    ensures
        ({
            let amount = spec_amount_or_zero(amount_txt);
            let cur = spec_ledger_or_default(cur_bytes);
            let prior = spec_ledger_or_default(prior_bytes);
            let day = spec_format_date(today);
            let discount = spec_discount(prior, cur, phone, day);
            spec_transaction_reply(business, phone, amount_txt, today, cur_bytes, prior_bytes)
                == ReplyV {
                response: spec_response_text(phone, amount - discount, spec_percent_h(
                    discount,
                    amount,
                )),
                update: Some((spec_week_key(business, spec_monday_of(today)), enc_ledger(
                    spec_updated_ledger(cur, phone, day, discount, amount - discount),
                ))),
            }
        }),
{
    reveal(spec_transaction_reply);
}

/// A phone that already transacted today receives no discount, whatever the
/// prior week holds.
pub proof fn lemma_no_discount_after_same_day(prior: LedgerV, cur: LedgerV, phone: Seq<u8>,
    day: Seq<u8>)
    requires
        spec_transacted(cur, phone, day),
    ensures
        spec_discount(prior, cur, phone, day) == 0,
{
}

/// A phone without a prior-week record receives no discount.
pub proof fn lemma_no_discount_without_prior(prior: LedgerV, cur: LedgerV, phone: Seq<u8>,
    day: Seq<u8>)
    requires
        !has_phone(prior.customers, phone),
    ensures
        spec_discount(prior, cur, phone, day) == 0,
{
}

/// The eligible counter rises by exactly one on a phone's first transaction
/// of the week and by zero afterwards: once logged, the phone is present,
/// so a second update of the same week adds nothing.
pub proof fn lemma_eligibility_counter(cur: LedgerV, phone: Seq<u8>, day: Seq<u8>,
    discount: int, final_micros: int)
    ensures
        spec_updated_ledger(cur, phone, day, discount, final_micros).eligible == cur.eligible
            + (if has_phone(cur.customers, phone) {
            0int
        } else {
            1int
        }),
        has_phone(spec_updated_ledger(cur, phone, day, discount, final_micros).customers, phone),
{
    let txt = enc_money(final_micros);
    let out = spec_log_customers(cur.customers, phone, day, txt);
    if has_phone(cur.customers, phone) {
        let i = crate::ledger::phone_index(cur.customers, phone);
        assert(0 <= i < cur.customers.len() && cur.customers[i].phone == phone);
        assert(out[i].phone == phone);
    } else {
        assert(out[cur.customers.len() as int].phone == phone);
    }
}

/// The three-percent pool contribution of a final amount, truncated toward
/// zero at micro precision.
fn skim(final_micros: i64) -> (r: i64)
    requires
        -2_000_000_000_000_000_000 <= final_micros <= 2_000_000_000_000_000_000,
    ensures
        r == div_trunc(final_micros as int * 3, 100),
        -60_000_000_000_000_000 <= r <= 60_000_000_000_000_000,
{
    if final_micros >= 0 {
        let m: u64 = final_micros as u64;
        let q: u64 = (m * 3) / 100;
        proof {
            assert((m as int * 3) / 100 <= (m as int * 3)) by (nonlinear_arith)
                requires m >= 0;
            assert((m as int * 3) / 100 >= 0) by (nonlinear_arith)
                requires m >= 0;
            assert((m as int * 3) / 100 * 100 <= m as int * 3) by (nonlinear_arith)
                requires m >= 0;
            assert((m as int * 3) / 100 <= 60_000_000_000_000_000) by (nonlinear_arith)
                requires 0 <= m <= 2_000_000_000_000_000_000;
        }
        q as i64
    } else {
        let m: u64 = (-(final_micros as i128)) as u64;
        let q: u64 = (m * 3) / 100;
        proof {
            assert((m as int * 3) / 100 >= 0) by (nonlinear_arith)
                requires m >= 0;
            assert((m as int * 3) / 100 <= 60_000_000_000_000_000) by (nonlinear_arith)
                requires 0 <= m <= 2_000_000_000_000_000_000;
        }
        -(q as i64)
    }
}

} // verus!
