//! Byte-level text matching for dataset names.
//!
//! Channel classification and companion-dataset resolution test dataset
//! names for fixed fragments and suffixes.  The tests are stated and
//! verified over the UTF-8 bytes of the names.

use vstd::prelude::*;

verus! {

use vstd::string::StringSliceAdditionalSpecFns;

/// The UTF-8 bytes of a character sequence.
pub open spec fn bytes_of(s: Seq<char>) -> Seq<u8> {
    vstd::utf8::encode_utf8(s)
}

/// Whether `p` occurs as a contiguous run inside `s`.
pub open spec fn has_fragment(s: Seq<u8>, p: Seq<u8>) -> bool {
    exists|i: int| 0 <= i && i + p.len() <= s.len() && #[trigger] s.subrange(i, i + p.len()) == p
}

/// Whether `s` is exactly `base` followed by `suffix`.
pub open spec fn is_with_suffix(s: Seq<u8>, base: Seq<u8>, suffix: Seq<u8>) -> bool {
    s == base + suffix
}

/// Whether the bytes of `pat` occur contiguously in the bytes of `s`.
pub fn contains_fragment(s: &str, pat: &str) -> (r: bool)
    ensures
        r == has_fragment(s.spec_bytes(), pat.spec_bytes()),
{
    let sb = s.as_bytes();
    let pb = pat.as_bytes();
    let n = sb.len();
    let m = pb.len();
    if m == 0 {
        proof {
            assert(sb@.subrange(0, 0) =~= pb@);
            assert(0 <= 0int && 0int + pb@.len() <= sb@.len() && sb@.subrange(
                0,
                0int + pb@.len(),
            ) == pb@);
        }
        return true;
    }
    if m > n {
        proof {
            assert(!has_fragment(sb@, pb@));
        }
        return false;
    }
    let mut i: usize = 0;
    while i <= n - m
        invariant
            1 <= m <= n,
            n == sb@.len(),
            m == pb@.len(),
            sb@ == s.spec_bytes(),
            pb@ == pat.spec_bytes(),
            i <= n - m + 1,
            forall|q: int| 0 <= q < i ==> #[trigger] sb@.subrange(q, q + m) != pb@,
        decreases n - m + 1 - i,
    {
        let mut j: usize = 0;
        let mut matches: bool = true;
        while j < m
            invariant
                i + m <= n,
                n == sb@.len(),
                m == pb@.len(),
                j <= m,
                matches ==> forall|q: int| 0 <= q < j ==> sb@[i + q] == pb@[q],
                !matches ==> sb@.subrange(i as int, i + m) != pb@,
            decreases m - j,
        {
            if sb[i + j] != pb[j] {
                proof {
                    assert(sb@.subrange(i as int, i + m)[j as int] == sb@[i + j]);
                }
                matches = false;
                j = m;
            } else {
                j += 1;
            }
        }
        if matches {
            proof {
                assert(sb@.subrange(i as int, i + m) =~= pb@);
                assert(0 <= i as int && i as int + pb@.len() <= sb@.len() && sb@.subrange(
                    i as int,
                    i as int + pb@.len(),
                ) == pb@);
            }
            return true;
        }
        i += 1;
    }
    proof {
        assert forall|q: int| 0 <= q && q + pb@.len() <= sb@.len() implies #[trigger] sb@.subrange(
            q,
            q + pb@.len(),
        ) != pb@ by {
            assert(q < i);
        }
    }
    false
}

/// Whether the bytes of `a` equal the bytes of `b`.
pub fn str_eq_bytes(a: &str, b: &str) -> (r: bool)
    ensures
        r == (a.spec_bytes() == b.spec_bytes()),
{
    let ab = a.as_bytes();
    let bb = b.as_bytes();
    let n = ab.len();
    if n != bb.len() {
        return false;
    }
    let mut i: usize = 0;
    while i < n
        invariant
            n == ab@.len(),
            n == bb@.len(),
            ab@ == a.spec_bytes(),
            bb@ == b.spec_bytes(),
            i <= n,
            forall|q: int| 0 <= q < i ==> ab@[q] == bb@[q],
        decreases n - i,
    {
        if ab[i] != bb[i] {
            return false;
        }
        i += 1;
    }
    proof {
        assert(ab@ =~= bb@);
    }
    true
}

/// Whether the bytes of `s` are exactly the bytes of `base` followed by
/// the bytes of `suffix`.
pub fn equals_with_suffix(s: &str, base: &str, suffix: &str) -> (r: bool)
    ensures
        r == is_with_suffix(s.spec_bytes(), base.spec_bytes(), suffix.spec_bytes()),
{
    let sb = s.as_bytes();
    let bb = base.as_bytes();
    let fb = suffix.as_bytes();
    let n = sb.len();
    let k = bb.len();
    let m = fb.len();
    if k > n || m != n - k {
        proof {
            assert(sb@.len() != bb@.len() + fb@.len());
            assert(sb@ != bb@ + fb@);
        }
        return false;
    }
    let mut i: usize = 0;
    while i < k
        invariant
            n == k + m,
            n == sb@.len(),
            k == bb@.len(),
            m == fb@.len(),
            sb@ == s.spec_bytes(),
            bb@ == base.spec_bytes(),
            fb@ == suffix.spec_bytes(),
            i <= k,
            forall|q: int| 0 <= q < i ==> sb@[q] == bb@[q],
        decreases k - i,
    {
        if sb[i] != bb[i] {
            proof {
                assert((bb@ + fb@)[i as int] == bb@[i as int]);
            }
            return false;
        }
        i += 1;
    }
    let mut j: usize = 0;
    while j < m
        invariant
            n == k + m,
            n == sb@.len(),
            k == bb@.len(),
            m == fb@.len(),
            sb@ == s.spec_bytes(),
            bb@ == base.spec_bytes(),
            fb@ == suffix.spec_bytes(),
            j <= m,
            forall|q: int| 0 <= q < k ==> sb@[q] == bb@[q],
            forall|q: int| 0 <= q < j ==> sb@[k + q] == fb@[q],
        decreases m - j,
    {
        if sb[k + j] != fb[j] {
            proof {
                assert((bb@ + fb@)[k + j] == fb@[j as int]);
            }
            return false;
        }
        j += 1;
    }
    proof {
        assert(sb@ =~= bb@ + fb@);
    }
    true
}

} // verus!
