//! Gregorian calendar dates, rendered and parsed as `DD-Mon-YYYY`.
//!
//! The engine needs very little from the calendar: stepping a date a few days
//! forward or back, finding the Monday of a date's week, comparing dates, and
//! the `21-Jul-2025` textual form used for persisted keys and token expiries.

use vstd::prelude::*;
use crate::num::{is_digit, all_digits, digits_val, spec_pad_digits, lemma_pad_digits_roundtrip,
    push_pad_digits, digits_value};
use crate::text::{bytes_of, spec_lit_at, append_lit, lit_at};

verus! {

/// A calendar date.  Only dates accepted by `date_ok` take part in the
/// engine's contracts: four-digit years keep the textual form fixed-width.
#[derive(Clone, Copy, PartialEq, Eq, Structural, Debug)]
pub struct Date {
    pub year: u32,
    pub month: u32,
    pub day: u32,
}

pub open spec fn is_leap_year(y: int) -> bool {
    (y % 4 == 0 && y % 100 != 0) || y % 400 == 0
}

pub open spec fn spec_month_len(y: int, m: int) -> int {
    if m == 2 {
        if is_leap_year(y) {
            29
        } else {
            28
        }
    } else if m == 4 || m == 6 || m == 9 || m == 11 {
        30
    } else {
        31
    }
}

pub open spec fn date_ok(d: Date) -> bool {
    1000 <= d.year <= 9999 && 1 <= d.month <= 12 && 1 <= d.day <= spec_month_len(
        d.year as int,
        d.month as int,
    )
}

/// Strictly earlier in the calendar.
pub open spec fn date_lt(a: Date, b: Date) -> bool {
    a.year < b.year || (a.year == b.year && (a.month < b.month || (a.month == b.month
        && a.day < b.day)))
}

pub fn month_len(y: u32, m: u32) -> (r: u32)
    ensures
        r == spec_month_len(y as int, m as int),
        28 <= r <= 31,
{
    if m == 2 {
        let leap = (y % 4 == 0 && y % 100 != 0) || y % 400 == 0;
        if leap {
            29
        } else {
            28
        }
    } else if m == 4 || m == 6 || m == 9 || m == 11 {
        30
    } else {
        31
    }
}

pub fn date_before(a: &Date, b: &Date) -> (r: bool)
    ensures
        r == date_lt(*a, *b),
{
    if a.year != b.year {
        a.year < b.year
    } else if a.month != b.month {
        a.month < b.month
    } else {
        a.day < b.day
    }
}

/// The calendar day before `d`.
pub open spec fn spec_prev_day(d: Date) -> Date {
    if d.day > 1 {
        Date { year: d.year, month: d.month, day: (d.day - 1) as u32 }
    } else if d.month > 1 {
        Date {
            year: d.year,
            month: (d.month - 1) as u32,
            day: spec_month_len(d.year as int, d.month - 1) as u32,
        }
    } else {
        Date { year: (d.year - 1) as u32, month: 12, day: 31 }
    }
}

/// The calendar day after `d`.
pub open spec fn spec_next_day(d: Date) -> Date {
    if d.day < spec_month_len(d.year as int, d.month as int) {
        Date { year: d.year, month: d.month, day: (d.day + 1) as u32 }
    } else if d.month < 12 {
        Date { year: d.year, month: (d.month + 1) as u32, day: 1 }
    } else {
        Date { year: (d.year + 1) as u32, month: 1, day: 1 }
    }
}

/// `d` stepped `n` days back.
pub open spec fn spec_sub_days(d: Date, n: nat) -> Date
    decreases n,
{
    if n == 0 {
        d
    } else {
        spec_prev_day(spec_sub_days(d, (n - 1) as nat))
    }
}

/// `d` stepped `n` days forward.
pub open spec fn spec_add_days(d: Date, n: nat) -> Date
    decreases n,
{
    if n == 0 {
        d
    } else {
        spec_next_day(spec_add_days(d, (n - 1) as nat))
    }
}

pub proof fn lemma_prev_day_ok(d: Date)
    requires
        date_ok(d),
        d.year >= 1001 || d.month > 1 || d.day > 1,
    ensures
        date_ok(spec_prev_day(d)),
        spec_prev_day(d).year == d.year || (spec_prev_day(d).year + 1 == d.year
            && spec_prev_day(d).month == 12 && spec_prev_day(d).day == 31),
{
}

pub proof fn lemma_next_day_ok(d: Date)
    requires
        date_ok(d),
        d.year <= 9998 || d.month < 12 || d.day < 31,
    ensures
        date_ok(spec_next_day(d)),
        spec_next_day(d).year == d.year || (spec_next_day(d).year == d.year + 1
            && spec_next_day(d).month == 1 && spec_next_day(d).day == 1),
{
}

/// Steps `d` back by `n` days.  The year bound leaves room for the at most
/// one year boundary that so short a step can cross.
pub fn sub_days(d: Date, n: u32) -> (r: Date)
    requires
        date_ok(d),
        d.year >= 1001,
        n <= 14,
    ensures
        r == spec_sub_days(d, n as nat),
        date_ok(r),
        r.year >= d.year - 1,
{
    let mut cur = d;
    let mut i: u32 = 0;
    while i < n
        invariant
            i <= n <= 14,
            date_ok(d),
            d.year >= 1001,
            cur == spec_sub_days(d, i as nat),
            date_ok(cur),
            cur.year == d.year || (cur.year + 1 == d.year && cur.month == 12 && cur.day + i
                >= 32),
        decreases n - i,
    {
        proof {
            lemma_prev_day_ok(cur);
        }
        let c = if cur.day > 1 {
            Date { year: cur.year, month: cur.month, day: cur.day - 1 }
        } else if cur.month > 1 {
            Date { year: cur.year, month: cur.month - 1, day: month_len(cur.year, cur.month - 1) }
        } else {
            Date { year: cur.year - 1, month: 12, day: 31 }
        };
        proof {
            assert(c == spec_prev_day(cur));
            assert(spec_sub_days(d, (i + 1) as nat) == spec_prev_day(spec_sub_days(d, i as nat)));
        }
        cur = c;
        i += 1;
    }
    cur
}

/// Steps `d` forward by `n` days.
pub fn add_days(d: Date, n: u32) -> (r: Date)
    requires
        date_ok(d),
        d.year <= 9998,
        n <= 14,
    ensures
        r == spec_add_days(d, n as nat),
        date_ok(r),
        r.year <= d.year + 1,
{
    let mut cur = d;
    let mut i: u32 = 0;
    while i < n
        invariant
            i <= n <= 14,
            date_ok(d),
            d.year <= 9998,
            cur == spec_add_days(d, i as nat),
            date_ok(cur),
            cur.year == d.year || (cur.year == d.year + 1 && cur.month == 1 && cur.day <= i),
        decreases n - i,
    {
        proof {
            lemma_next_day_ok(cur);
        }
        let ml = month_len(cur.year, cur.month);
        let c = if cur.day < ml {
            Date { year: cur.year, month: cur.month, day: cur.day + 1 }
        } else if cur.month < 12 {
            Date { year: cur.year, month: cur.month + 1, day: 1 }
        } else {
            Date { year: cur.year + 1, month: 1, day: 1 }
        };
        proof {
            assert(c == spec_next_day(cur));
            assert(spec_add_days(d, (i + 1) as nat) == spec_next_day(spec_add_days(d, i as nat)));
        }
        cur = c;
        i += 1;
    }
    cur
}

/// Days since Monday for the week that holds `d`: 0 is a Monday, 6 a Sunday.
/// Stated through Zeller's congruence.
pub open spec fn spec_weekday(d: Date) -> int {
    let m: int = if d.month <= 2 {
        d.month + 12
    } else {
        d.month as int
    };
    let y: int = if d.month <= 2 {
        d.year - 1
    } else {
        d.year as int
    };
    let k = y % 100;
    let j = y / 100;
    let h = (d.day + (13 * (m + 1)) / 5 + k + k / 4 + j / 4 + 5 * j) % 7;
    (h + 5) % 7
}

pub fn weekday(d: &Date) -> (r: u32)
    requires
        date_ok(*d),
    ensures
        r == spec_weekday(*d),
        r < 7,
{
    let m: u32 = if d.month <= 2 {
        d.month + 12
    } else {
        d.month
    };
    let y: u32 = if d.month <= 2 {
        d.year - 1
    } else {
        d.year
    };
    let k = y % 100;
    let j = y / 100;
    let h = (d.day + (13 * (m + 1)) / 5 + k + k / 4 + j / 4 + 5 * j) % 7;
    (h + 5) % 7
}

/// The Monday of the week that holds `d`.
pub open spec fn spec_monday_of(d: Date) -> Date {
    spec_sub_days(d, spec_weekday(d) as nat)
}

pub fn monday_of(d: &Date) -> (r: Date)
    requires
        date_ok(*d),
        d.year >= 1001,
    ensures
        r == spec_monday_of(*d),
        date_ok(r),
        r.year >= d.year - 1,
{
    let w = weekday(d);
    sub_days(*d, w)
}

/// The three-letter English abbreviation of a month.
pub open spec fn spec_month_abbrev(m: int) -> Seq<char> {
    if m == 1 {
        "Jan"@
    } else if m == 2 {
        "Feb"@
    } else if m == 3 {
        "Mar"@
    } else if m == 4 {
        "Apr"@
    } else if m == 5 {
        "May"@
    } else if m == 6 {
        "Jun"@
    } else if m == 7 {
        "Jul"@
    } else if m == 8 {
        "Aug"@
    } else if m == 9 {
        "Sep"@
    } else if m == 10 {
        "Oct"@
    } else if m == 11 {
        "Nov"@
    } else {
        "Dec"@
    }
}

/// `DD-Mon-YYYY`, with a zero-padded day and a four-digit year.
pub open spec fn spec_format_date(d: Date) -> Seq<u8> {
    spec_pad_digits(d.day as nat, 2) + seq![45u8] + bytes_of(spec_month_abbrev(d.month as int))
        + seq![45u8] + spec_pad_digits(d.year as nat, 4)
}

/// Appends `DD-Mon-YYYY` for `d` to `out`.
pub fn append_date(out: &mut Vec<u8>, d: &Date)
    requires
        date_ok(*d),
    ensures
        final(out)@ == old(out)@ + spec_format_date(*d),
{
    push_pad_digits(d.day as u64, 2, out);
    out.push(45);
    proof {
        reveal_strlit("Jan");
        reveal_strlit("Feb");
        reveal_strlit("Mar");
        reveal_strlit("Apr");
        reveal_strlit("May");
        reveal_strlit("Jun");
        reveal_strlit("Jul");
        reveal_strlit("Aug");
        reveal_strlit("Sep");
        reveal_strlit("Oct");
        reveal_strlit("Nov");
        reveal_strlit("Dec");
    }
    if d.month == 1 {
        append_lit(out, "Jan");
    } else if d.month == 2 {
        append_lit(out, "Feb");
    } else if d.month == 3 {
        append_lit(out, "Mar");
    } else if d.month == 4 {
        append_lit(out, "Apr");
    } else if d.month == 5 {
        append_lit(out, "May");
    } else if d.month == 6 {
        append_lit(out, "Jun");
    } else if d.month == 7 {
        append_lit(out, "Jul");
    } else if d.month == 8 {
        append_lit(out, "Aug");
    } else if d.month == 9 {
        append_lit(out, "Sep");
    } else if d.month == 10 {
        append_lit(out, "Oct");
    } else if d.month == 11 {
        append_lit(out, "Nov");
    } else {
        append_lit(out, "Dec");
    }
    out.push(45);
    push_pad_digits(d.year as u64, 4, out);
    proof {
        assert(out@ =~= old(out)@ + spec_format_date(*d));
    }
}

/// The date as a fresh `DD-Mon-YYYY` byte string.
pub fn format_date(d: &Date) -> (r: Vec<u8>)
    requires
        date_ok(*d),
    ensures
        r@ == spec_format_date(*d),
{
    let mut out: Vec<u8> = Vec::new();
    append_date(&mut out, d);
    proof {
        assert(out@ =~= spec_format_date(*d));
    }
    out
}

/// The month whose abbreviation stands at `i` in `s`, or 0 when none does.
pub open spec fn spec_month_at(s: Seq<u8>, i: int) -> int {
    if spec_lit_at(s, i, "Jan"@) {
        1
    } else if spec_lit_at(s, i, "Feb"@) {
        2
    } else if spec_lit_at(s, i, "Mar"@) {
        3
    } else if spec_lit_at(s, i, "Apr"@) {
        4
    } else if spec_lit_at(s, i, "May"@) {
        5
    } else if spec_lit_at(s, i, "Jun"@) {
        6
    } else if spec_lit_at(s, i, "Jul"@) {
        7
    } else if spec_lit_at(s, i, "Aug"@) {
        8
    } else if spec_lit_at(s, i, "Sep"@) {
        9
    } else if spec_lit_at(s, i, "Oct"@) {
        10
    } else if spec_lit_at(s, i, "Nov"@) {
        11
    } else if spec_lit_at(s, i, "Dec"@) {
        12
    } else {
        0
    }
}

fn month_at(s: &[u8], i: usize) -> (r: u32)
    ensures
        r == spec_month_at(s@, i as int),
{
    proof {
        reveal_strlit("Jan");
        reveal_strlit("Feb");
        reveal_strlit("Mar");
        reveal_strlit("Apr");
        reveal_strlit("May");
        reveal_strlit("Jun");
        reveal_strlit("Jul");
        reveal_strlit("Aug");
        reveal_strlit("Sep");
        reveal_strlit("Oct");
        reveal_strlit("Nov");
        reveal_strlit("Dec");
    }
    if lit_at(s, i, "Jan") {
        1
    } else if lit_at(s, i, "Feb") {
        2
    } else if lit_at(s, i, "Mar") {
        3
    } else if lit_at(s, i, "Apr") {
        4
    } else if lit_at(s, i, "May") {
        5
    } else if lit_at(s, i, "Jun") {
        6
    } else if lit_at(s, i, "Jul") {
        7
    } else if lit_at(s, i, "Aug") {
        8
    } else if lit_at(s, i, "Sep") {
        9
    } else if lit_at(s, i, "Oct") {
        10
    } else if lit_at(s, i, "Nov") {
        11
    } else if lit_at(s, i, "Dec") {
        12
    } else {
        0
    }
}

/// The date a `DD-Mon-YYYY` byte string denotes, if it is well formed.
pub open spec fn spec_parse_date(s: Seq<u8>) -> Option<Date> {
    if s.len() == 11 && is_digit(s[0]) && is_digit(s[1]) && s[2] == 45 && spec_month_at(s, 3) != 0
        && s[6] == 45 && is_digit(s[7]) && is_digit(s[8]) && is_digit(s[9]) && is_digit(s[10]) {
        let d = Date {
            year: digits_val(s.subrange(7, 11)) as u32,
            month: spec_month_at(s, 3) as u32,
            day: digits_val(s.subrange(0, 2)) as u32,
        };
        if date_ok(d) {
            Some(d)
        } else {
            None
        }
    } else {
        None
    }
}

/// Reads a `DD-Mon-YYYY` byte string.
pub fn parse_date(s: &[u8]) -> (r: Option<Date>)
    ensures
        r == spec_parse_date(s@),
        r is Some ==> date_ok(r.unwrap()),
{
    if s.len() != 11 {
        return None;
    }
    let d0 = s[0];
    let d1 = s[1];
    if d0 < 48 || d0 > 57 || d1 < 48 || d1 > 57 || s[2] != 45 {
        return None;
    }
    let m = month_at(s, 3);
    if m == 0 || s[6] != 45 {
        return None;
    }
    let y0 = s[7];
    let y1 = s[8];
    let y2 = s[9];
    let y3 = s[10];
    if y0 < 48 || y0 > 57 || y1 < 48 || y1 > 57 || y2 < 48 || y2 > 57 || y3 < 48 || y3 > 57 {
        return None;
    }
    let day64: u64 = digits_value(s, 0, 2);
    let year64: u64 = digits_value(s, 7, 11);
    proof {
        assert(crate::num::pow10(2) == 100 && crate::num::pow10(4) == 10000) by {
            reveal_with_fuel(crate::num::pow10, 5);
        }
    }
    let day32: u32 = day64 as u32;
    let year32: u32 = year64 as u32;
    let cand = Date { year: year32, month: m, day: day32 };
    if cand.year < 1000 {
        return None;
    }
    let ml = month_len(cand.year, cand.month);
    if cand.day < 1 || cand.day > ml {
        return None;
    }
    Some(cand)
}


/// No byte of `DD-Mon-YYYY` is an underscore, so a date survives intact
/// inside an underscore-separated record.
pub proof fn lemma_format_date_no_underscore(d: Date)
    requires
        date_ok(d),
    ensures
        forall|i: int|
            0 <= i < spec_format_date(d).len() ==> (#[trigger] spec_format_date(d)[i]) != 95,
{
    reveal_strlit("Jan");
    reveal_strlit("Feb");
    reveal_strlit("Mar");
    reveal_strlit("Apr");
    reveal_strlit("May");
    reveal_strlit("Jun");
    reveal_strlit("Jul");
    reveal_strlit("Aug");
    reveal_strlit("Sep");
    reveal_strlit("Oct");
    reveal_strlit("Nov");
    reveal_strlit("Dec");
    assert(crate::num::pow10(2) == 100 && crate::num::pow10(4) == 10000) by {
        reveal_with_fuel(crate::num::pow10, 5);
    }
    lemma_pad_digits_roundtrip(d.day as nat, 2);
    lemma_pad_digits_roundtrip(d.year as nat, 4);
    let s = spec_format_date(d);
    let ab = bytes_of(spec_month_abbrev(d.month as int));
    assert forall|i: int| 0 <= i < s.len() implies (#[trigger] s[i]) != 95 by {
        if 3 <= i < 6 {
            assert(s[i] == ab[i - 3]);
        }
    }
}

/// Rendering a date and reading the text back is the identity.
pub proof fn lemma_format_parse_date(d: Date)
    requires
        date_ok(d),
    ensures
        spec_parse_date(spec_format_date(d)) == Some(d),
{
    reveal_strlit("Jan");
    reveal_strlit("Feb");
    reveal_strlit("Mar");
    reveal_strlit("Apr");
    reveal_strlit("May");
    reveal_strlit("Jun");
    reveal_strlit("Jul");
    reveal_strlit("Aug");
    reveal_strlit("Sep");
    reveal_strlit("Oct");
    reveal_strlit("Nov");
    reveal_strlit("Dec");
    assert(crate::num::pow10(2) == 100 && crate::num::pow10(4) == 10000) by {
        reveal_with_fuel(crate::num::pow10, 5);
    }
    lemma_pad_digits_roundtrip(d.day as nat, 2);
    lemma_pad_digits_roundtrip(d.year as nat, 4);
    let s = spec_format_date(d);
    let ab = bytes_of(spec_month_abbrev(d.month as int));
    assert(ab.len() == 3);
    assert(s.len() == 11);
    assert(s[2] == 45 && s[6] == 45);
    assert(is_digit(s[0]) && is_digit(s[1]) && is_digit(s[7]) && is_digit(s[8]) && is_digit(s[9])
        && is_digit(s[10]));
    assert(s.subrange(3, 6) =~= ab);
    assert(spec_lit_at(s, 3, spec_month_abbrev(d.month as int)));
    assert(bytes_of("Jan"@)[0] == 74 && bytes_of("Jan"@)[1] == 97 && bytes_of("Jan"@)[2] == 110);
    assert(bytes_of("Feb"@)[0] == 70 && bytes_of("Feb"@)[1] == 101 && bytes_of("Feb"@)[2] == 98);
    assert(bytes_of("Mar"@)[0] == 77 && bytes_of("Mar"@)[1] == 97 && bytes_of("Mar"@)[2] == 114);
    assert(bytes_of("Apr"@)[0] == 65 && bytes_of("Apr"@)[1] == 112 && bytes_of("Apr"@)[2] == 114);
    assert(bytes_of("May"@)[0] == 77 && bytes_of("May"@)[1] == 97 && bytes_of("May"@)[2] == 121);
    assert(bytes_of("Jun"@)[0] == 74 && bytes_of("Jun"@)[1] == 117 && bytes_of("Jun"@)[2] == 110);
    assert(bytes_of("Jul"@)[0] == 74 && bytes_of("Jul"@)[1] == 117 && bytes_of("Jul"@)[2] == 108);
    assert(bytes_of("Aug"@)[0] == 65 && bytes_of("Aug"@)[1] == 117 && bytes_of("Aug"@)[2] == 103);
    assert(bytes_of("Sep"@)[0] == 83 && bytes_of("Sep"@)[1] == 101 && bytes_of("Sep"@)[2] == 112);
    assert(bytes_of("Oct"@)[0] == 79 && bytes_of("Oct"@)[1] == 99 && bytes_of("Oct"@)[2] == 116);
    assert(bytes_of("Nov"@)[0] == 78 && bytes_of("Nov"@)[1] == 111 && bytes_of("Nov"@)[2] == 118);
    assert(bytes_of("Dec"@)[0] == 68 && bytes_of("Dec"@)[1] == 101 && bytes_of("Dec"@)[2] == 99);
    if d.month == 1 {
        assert(ab == bytes_of("Jan"@));
        assert(spec_month_at(s, 3) == 1);
    } else if d.month == 2 {
        assert(ab == bytes_of("Feb"@));
        assert(spec_month_at(s, 3) == 2);
    } else if d.month == 3 {
        assert(ab == bytes_of("Mar"@));
        assert(spec_month_at(s, 3) == 3);
    } else if d.month == 4 {
        assert(ab == bytes_of("Apr"@));
        assert(spec_month_at(s, 3) == 4);
    } else if d.month == 5 {
        assert(ab == bytes_of("May"@));
        assert(spec_month_at(s, 3) == 5);
    } else if d.month == 6 {
        assert(ab == bytes_of("Jun"@));
        assert(spec_month_at(s, 3) == 6);
    } else if d.month == 7 {
        assert(ab == bytes_of("Jul"@));
        assert(spec_month_at(s, 3) == 7);
    } else if d.month == 8 {
        assert(ab == bytes_of("Aug"@));
        assert(spec_month_at(s, 3) == 8);
    } else if d.month == 9 {
        assert(ab == bytes_of("Sep"@));
        assert(spec_month_at(s, 3) == 9);
    } else if d.month == 10 {
        assert(ab == bytes_of("Oct"@));
        assert(spec_month_at(s, 3) == 10);
    } else if d.month == 11 {
        assert(ab == bytes_of("Nov"@));
        assert(spec_month_at(s, 3) == 11);
    } else if d.month == 12 {
        assert(ab == bytes_of("Dec"@));
        assert(spec_month_at(s, 3) == 12);
    }
    assert(spec_month_at(s, 3) == d.month);
    assert(s.subrange(0, 2) =~= spec_pad_digits(d.day as nat, 2));
    assert(s.subrange(7, 11) =~= spec_pad_digits(d.year as nat, 4));
    assert(digits_val(s.subrange(0, 2)) == d.day);
    assert(digits_val(s.subrange(7, 11)) == d.year);
}


/// Stepping a date forward never moves it earlier in the calendar.
pub proof fn lemma_add_days_ge(d: Date, n: nat)
    requires
        date_ok(d),
        d.year <= 9998,
        n <= 14,
    ensures
        date_ok(spec_add_days(d, n)),
        !date_lt(spec_add_days(d, n), d),
        spec_add_days(d, n).year <= d.year + 1,
        spec_add_days(d, n).year == d.year + 1 ==> spec_add_days(d, n).month == 1
            && spec_add_days(d, n).day <= n,
    decreases n,
{
    if n > 0 {
        lemma_add_days_ge(d, (n - 1) as nat);
        let p = spec_add_days(d, (n - 1) as nat);
        lemma_next_day_ok(p);
        let q = spec_next_day(p);
        assert(!date_lt(q, p));
        assert(!date_lt(q, d));
    }
}

} // verus!
