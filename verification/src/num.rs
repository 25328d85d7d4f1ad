//! Fixed-point decimal arithmetic and digit strings.
//!
//! Every amount of money in the library is an `i64` number of millionths of a
//! currency unit ("micros").  This module gives the spec-level meaning of
//! decimal digit strings, the executable routines that render and read them,
//! and the two rounding divisions the discount engine uses.

use vstd::prelude::*;

verus! {

/// Largest magnitude, in micros, that a stored money field may carry.
pub const MONEY_CAP: i64 = 1_000_000_000_000_000_000;

/// Largest value that a stored customer counter may carry.
pub const COUNT_CAP: u64 = 1_000_000_000_000_000;

/// Largest amount, in micros, that a transaction request may carry
/// (nine integer digits at most).
pub const AMOUNT_CAP: u64 = 1_000_000_000_000_000;

pub open spec fn is_digit(b: u8) -> bool {
    48 <= b <= 57
}

pub open spec fn digit_val(b: u8) -> int {
    b - 48
}

pub open spec fn all_digits(s: Seq<u8>) -> bool {
    forall|i: int| 0 <= i < s.len() ==> is_digit(#[trigger] s[i])
}

/// Ten to the `n`.
pub open spec fn pow10(n: nat) -> int
    decreases n,
{
    if n == 0 {
        1
    } else {
        10 * pow10((n - 1) as nat)
    }
}

/// The decimal rendering of `n`, without leading zeros.
pub open spec fn spec_digits(n: nat) -> Seq<u8>
    decreases n,
{
    if n < 10 {
        seq![(48 + n) as u8]
    } else {
        spec_digits(n / 10).push((48 + n % 10) as u8)
    }
}

/// The value of a digit string, most significant digit first.
pub open spec fn digits_val(s: Seq<u8>) -> int
    decreases s.len(),
{
    if s.len() == 0 {
        0
    } else {
        digits_val(s.drop_last()) * 10 + digit_val(s.last())
    }
}

pub proof fn lemma_digits_val_bound(s: Seq<u8>)
    requires
        all_digits(s),
    ensures
        0 <= digits_val(s) < pow10(s.len()),
    decreases s.len(),
{
    if s.len() == 0 {
    } else {
        assert(all_digits(s.drop_last()));
        lemma_digits_val_bound(s.drop_last());
    }
}

/// Rendering a number and reading it back is the identity.
pub proof fn lemma_digits_roundtrip(n: nat)
    ensures
        spec_digits(n).len() >= 1,
        all_digits(spec_digits(n)),
        digits_val(spec_digits(n)) == n,
    decreases n,
{
    if n < 10 {
        let s = spec_digits(n);
        assert(s == seq![(48 + n) as u8]);
        assert(s.drop_last() =~= Seq::<u8>::empty());
        assert(digits_val(s) == digits_val(s.drop_last()) * 10 + digit_val(s.last()));
        assert(digits_val(s) == n);
    } else {
        lemma_digits_roundtrip(n / 10);
        let d = spec_digits(n / 10);
        let whole = d.push((48 + n % 10) as u8);
        assert(whole.drop_last() == d);
        assert(digits_val(whole) == digits_val(d) * 10 + (n % 10));
        assert(n / 10 * 10 + n % 10 == n) by (nonlinear_arith);
    }
}

/// A number below ten to the `k` needs at most `k` digits.
pub proof fn lemma_digits_len_bound(n: nat, k: nat)
    requires
        n < pow10(k),
        k >= 1,
    ensures
        spec_digits(n).len() <= k,
    decreases n,
{
    if n < 10 {
    } else {
        if k == 1 {
            assert(pow10(1) == 10 * pow10(0));
            assert(false);
        }
        assert(pow10(k) == 10 * pow10((k - 1) as nat));
        assert(n / 10 < pow10((k - 1) as nat)) by (nonlinear_arith)
            requires
                n < pow10(k),
                pow10(k) == 10 * pow10((k - 1) as nat),
                n >= 0,
        ;
        lemma_digits_len_bound(n / 10, (k - 1) as nat);
    }
}

/// The decimal rendering of `n` zero-padded on the left to exactly `w` digits;
/// digits beyond the width are dropped.
pub open spec fn spec_pad_digits(n: nat, w: nat) -> Seq<u8>
    decreases w,
{
    if w == 0 {
        Seq::empty()
    } else {
        spec_pad_digits(n / 10, (w - 1) as nat).push((48 + n % 10) as u8)
    }
}

pub proof fn lemma_pad_digits_roundtrip(n: nat, w: nat)
    requires
        n < pow10(w),
    ensures
        spec_pad_digits(n, w).len() == w,
        all_digits(spec_pad_digits(n, w)),
        digits_val(spec_pad_digits(n, w)) == n,
    decreases w,
{
    if w == 0 {
    } else {
        assert(n / 10 < pow10((w - 1) as nat)) by (nonlinear_arith)
            requires n < pow10(w), pow10(w) == 10 * pow10((w - 1) as nat), n >= 0;
        lemma_pad_digits_roundtrip(n / 10, (w - 1) as nat);
        let d = spec_pad_digits(n / 10, (w - 1) as nat);
        let whole = d.push((48 + n % 10) as u8);
        assert(whole.drop_last() == d);
        assert(n / 10 * 10 + n % 10 == n) by (nonlinear_arith);
    }
}

/// Truncating division, rounding toward zero, as `/` does on machine integers.
pub open spec fn div_trunc(a: int, b: int) -> int
    recommends
        b > 0,
{
    if a >= 0 {
        a / b
    } else {
        -((-a) / b)
    }
}

/// Division rounded to the nearest integer, ties away from zero.
pub open spec fn div_round(a: int, b: int) -> int
    recommends
        b > 0,
{
    if a >= 0 {
        (2 * a + b) / (2 * b)
    } else {
        -((2 * (-a) + b) / (2 * b))
    }
}

/// Appends the decimal rendering of `n` to `out`.
pub fn push_digits(n: u128, out: &mut Vec<u8>)
    ensures
        final(out)@ == old(out)@ + spec_digits(n as nat),
    decreases n,
{
    if n < 10 {
        out.push(48 + n as u8);
        assert(final(out)@ == old(out)@ + spec_digits(n as nat));
    } else {
        push_digits(n / 10, out);
        out.push(48 + (n % 10) as u8);
        assert(final(out)@ == old(out)@ + spec_digits(n as nat));
    }
}

/// Appends the decimal rendering of `n`, zero-padded to `w` digits.
pub fn push_pad_digits(n: u64, w: usize, out: &mut Vec<u8>)
    ensures
        final(out)@ == old(out)@ + spec_pad_digits(n as nat, w as nat),
    decreases w,
{
    if w == 0 {
        assert(old(out)@ + spec_pad_digits(n as nat, 0) == old(out)@);
    } else {
        push_pad_digits(n / 10, w - 1, out);
        out.push(48 + (n % 10) as u8);
        assert(final(out)@ == old(out)@ + spec_pad_digits(n as nat, w as nat));
    }
}

/// Index just past the run of ASCII digits in `s` that starts at `from`.
pub fn scan_digits(s: &[u8], from: usize) -> (j: usize)
    requires
        from <= s@.len(),
    ensures
        from <= j <= s@.len(),
        forall|k: int| from <= k < j ==> is_digit(#[trigger] s@[k]),
        j < s@.len() ==> !is_digit(s@[j as int]),
{
    let mut j: usize = from;
    loop
        invariant
            from <= j <= s@.len(),
            forall|k: int| from <= k < j ==> is_digit(#[trigger] s@[k]),
        decreases s@.len() - j,
    {
        if j >= s.len() {
            return j;
        }
        let c = s[j];
        if c < 48 || c > 57 {
            return j;
        }
        j += 1;
    }
}

/// Reads the value of the digit string `s[from..to]`.
pub fn digits_value(s: &[u8], from: usize, to: usize) -> (v: u64)
    requires
        from <= to <= s@.len(),
        to - from <= 18,
        forall|k: int| from <= k < to ==> is_digit(#[trigger] s@[k]),
    ensures
        v == digits_val(s@.subrange(from as int, to as int)),
        v < pow10((to - from) as nat),
{
    proof {
        lemma_pow10_18();
        lemma_pow10_monotone(0, 18);
    }
    let mut v: u64 = 0;
    let mut i: usize = from;
    while i < to
        invariant
            from <= i <= to <= s@.len(),
            to - from <= 18,
            forall|k: int| from <= k < to ==> is_digit(#[trigger] s@[k]),
            v == digits_val(s@.subrange(from as int, i as int)),
            v < pow10((i - from) as nat),
            pow10((i - from) as nat) <= pow10(18),
            pow10(18) == 1_000_000_000_000_000_000,
        decreases to - i,
    {
        let c = s[i];
        proof {
            let pre = s@.subrange(from as int, i as int);
            let nxt = s@.subrange(from as int, i + 1 as int);
            assert(nxt.drop_last() =~= pre);
            assert(nxt.last() == s@[i as int]);
            lemma_pow10_monotone((i + 1 - from) as nat, 18);
        }
        v = v * 10 + (c - 48) as u64;
        i += 1;
    }
    v
}

pub proof fn lemma_pow10_pos(n: nat)
    ensures
        pow10(n) >= 1,
    decreases n,
{
    if n > 0 {
        lemma_pow10_pos((n - 1) as nat);
    }
}

pub proof fn lemma_pow10_monotone(a: nat, b: nat)
    requires
        a <= b,
    ensures
        1 <= pow10(a) <= pow10(b),
    decreases b,
{
    lemma_pow10_pos(a);
    if a < b {
        lemma_pow10_monotone(a, (b - 1) as nat);
        lemma_pow10_pos((b - 1) as nat);
    }
}

pub proof fn lemma_pow10_18()
    ensures
        pow10(18) == 1_000_000_000_000_000_000,
{
    assert(pow10(18) == 1_000_000_000_000_000_000) by {
        reveal_with_fuel(pow10, 19);
    }
}

/// Truncating division of a signed amount by a positive divisor.
pub fn div_trunc_i64(a: i64, b: u64) -> (r: i64)
    requires
        b > 0,
        -MONEY_CAP <= a <= MONEY_CAP,
    ensures
        r == div_trunc(a as int, b as int),
        -MONEY_CAP <= r <= MONEY_CAP,
        a >= 0 ==> 0 <= r <= a,
        a < 0 ==> a <= r <= 0,
{
    if a >= 0 {
        let q: u64 = (a as u64) / b;
        proof {
            assert(a as int / b as int <= a as int) by (nonlinear_arith)
                requires a >= 0, b >= 1;
            assert(a as int / b as int >= 0) by (nonlinear_arith)
                requires a >= 0, b >= 1;
        }
        q as i64
    } else {
        let m: u64 = (-(a as i128)) as u64;
        let q: u64 = m / b;
        proof {
            assert(m as int / b as int <= m as int) by (nonlinear_arith)
                requires m >= 0, b >= 1;
            assert(m as int / b as int >= 0) by (nonlinear_arith)
                requires m >= 0, b >= 1;
        }
        -(q as i64)
    }
}

/// Nearest-integer division of a signed amount by a positive divisor,
/// ties away from zero.  Used to reduce micros to coarser units.
pub fn div_round_i128(a: i128, b: u128) -> (r: i128)
    requires
        0 < b <= 10_000_000_000_000_000,
        -10_000_000_000_000_000_000_000_000 <= a <= 10_000_000_000_000_000_000_000_000,
    ensures
        r == div_round(a as int, b as int),
        -21_000_000_000_000_000_000_000_000 <= r <= 21_000_000_000_000_000_000_000_000,
{
    if a >= 0 {
        let n: u128 = 2 * (a as u128) + b;
        let q: u128 = n / (2 * b);
        proof {
            assert(n as int / (2 * b) as int <= n as int) by (nonlinear_arith)
                requires n >= 0, b >= 1;
            assert(n as int / (2 * b) as int >= 0) by (nonlinear_arith)
                requires n >= 0, b >= 1;
        }
        q as i128
    } else {
        let m: u128 = (-a) as u128;
        let n: u128 = 2 * m + b;
        let q: u128 = n / (2 * b);
        proof {
            assert(n as int / (2 * b) as int <= n as int) by (nonlinear_arith)
                requires n >= 0, b >= 1;
            assert(n as int / (2 * b) as int >= 0) by (nonlinear_arith)
                requires n >= 0, b >= 1;
        }
        -(q as i128)
    }
}

} // verus!
