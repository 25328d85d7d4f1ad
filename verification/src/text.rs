//! Bridging ASCII string literals and the byte sequences the library works on.

use vstd::prelude::*;
use vstd::string::is_ascii;
use vstd::string::is_ascii_spec_bytes;
use vstd::string::StringSliceAdditionalSpecFns;

verus! {

/// The bytes of an ASCII character sequence.
pub open spec fn bytes_of(s: Seq<char>) -> Seq<u8> {
    Seq::new(s.len(), |i: int| s[i] as u8)
}

/// `s` carries the bytes of the ASCII literal `cs` at position `i`.
pub open spec fn spec_lit_at(s: Seq<u8>, i: int, cs: Seq<char>) -> bool {
    0 <= i && i + cs.len() <= s.len() && s.subrange(i, i + cs.len()) == bytes_of(cs)
}

/// Appends the bytes of the ASCII string `s` to `out`.
pub fn append_lit(out: &mut Vec<u8>, s: &str)
    requires
        is_ascii(s),
    ensures
        final(out)@ == old(out)@ + bytes_of(s@),
{
    proof {
        is_ascii_spec_bytes(s);
    }
    let b = s.as_bytes();
    let mut i: usize = 0;
    while i < b.len()
        invariant
            i <= b@.len(),
            b@ == s.spec_bytes(),
            b@.len() == s@.len(),
            out@ == old(out)@ + b@.take(i as int),
        decreases b@.len() - i,
    {
        out.push(b[i]);
        proof {
            assert(b@.take(i + 1) =~= b@.take(i as int).push(b@[i as int]));
        }
        i += 1;
    }
    proof {
        assert(b@.take(b@.len() as int) =~= b@);
        assert(b@ =~= bytes_of(s@));
    }
}

/// Appends the contents of the byte slice `b` to `out`.
pub fn append_bytes(out: &mut Vec<u8>, b: &[u8])
    ensures
        final(out)@ == old(out)@ + b@,
{
    let mut i: usize = 0;
    while i < b.len()
        invariant
            i <= b@.len(),
            out@ == old(out)@ + b@.take(i as int),
        decreases b@.len() - i,
    {
        out.push(b[i]);
        proof {
            assert(b@.take(i + 1) =~= b@.take(i as int).push(b@[i as int]));
        }
        i += 1;
    }
    proof {
        assert(b@.take(b@.len() as int) =~= b@);
    }
}

/// Tests whether the bytes of the ASCII string `lit` stand in `s` at `i`.
pub fn lit_at(s: &[u8], i: usize, lit: &str) -> (r: bool)
    requires
        is_ascii(lit),
    ensures
        r == spec_lit_at(s@, i as int, lit@),
{
    proof {
        is_ascii_spec_bytes(lit);
        assert(bytes_of(lit@) =~= lit.spec_bytes());
    }
    let b = lit.as_bytes();
    let n: usize = s.len();
    if i > n || b.len() > n - i {
        return false;
    }
    let mut j: usize = 0;
    while j < b.len()
        invariant
            j <= b@.len(),
            i + b@.len() <= n,
            n == s@.len(),
            b@ == bytes_of(lit@),
            b@.len() == lit@.len(),
            forall|k: int| 0 <= k < j ==> s@[i + k] == b@[k],
        decreases b@.len() - j,
    {
        let k: usize = i + j;
        if s[k] != b[j] {
            proof {
                assert(s@.subrange(i as int, i + b@.len() as int)[j as int] == s@[i + j]);
            }
            return false;
        }
        j += 1;
    }
    proof {
        assert(s@.subrange(i as int, i + b@.len()) =~= bytes_of(lit@));
    }
    true
}

/// A fresh vector with the slice's bytes.
pub fn copy_bytes(b: &[u8]) -> (r: Vec<u8>)
    ensures
        r@ == b@,
{
    vstd::slice::slice_to_vec(b)
}

/// Two byte vectors with the same view.
pub fn eq_bytes(a: &[u8], b: &[u8]) -> (r: bool)
    ensures
        r == (a@ == b@),
{
    if a.len() != b.len() {
        proof {
            assert(a@.len() != b@.len());
        }
        return false;
    }
    let mut j: usize = 0;
    while j < a.len()
        invariant
            j <= a@.len(),
            a@.len() == b@.len(),
            forall|k: int| 0 <= k < j ==> a@[k] == b@[k],
        decreases a@.len() - j,
    {
        if a[j] != b[j] {
            return false;
        }
        j += 1;
    }
    proof {
        assert(a@ =~= b@);
    }
    true
}

} // verus!
