//! Small byte-level helpers shared by the parser modules.

use vstd::prelude::*;

verus! {

/// ASCII lowercasing of a single byte.
pub open spec fn spec_lower(b: u8) -> u8 {
    if 65 <= b && b <= 90 {
        (b + 32) as u8
    } else {
        b
    }
}

#[verifier::when_used_as_spec(spec_lower)]
pub fn lower(b: u8) -> (r: u8)
    ensures
        r == spec_lower(b),
{
    if 65 <= b && b <= 90 {
        b + 32
    } else {
        b
    }
}

/// ASCII lowercasing of a byte sequence.
pub open spec fn lower_seq(v: Seq<u8>) -> Seq<u8> {
    v.map_values(|b: u8| spec_lower(b))
}

/// Case-insensitive ASCII equality of byte sequences.
pub open spec fn eq_ignore_case(a: Seq<u8>, b: Seq<u8>) -> bool {
    lower_seq(a) == lower_seq(b)
}

/// Compares two byte slices for equality, ignoring ASCII case.
pub fn eq_ignore_ascii_case(a: &[u8], b: &[u8]) -> (r: bool)
    ensures
        r == eq_ignore_case(a@, b@),
{
    if a.len() != b.len() {
        assert(lower_seq(a@).len() != lower_seq(b@).len());
        return false;
    }
    let n = a.len();
    let mut i: usize = 0;
    while i < n
        invariant
            n == a@.len() && n == b@.len(),
            i <= n,
            forall|j: int| 0 <= j < i ==> spec_lower(a@[j]) == spec_lower(b@[j]),
        decreases n - i,
    {
        if lower(a[i]) != lower(b[i]) {
            assert(lower_seq(a@)[i as int] != lower_seq(b@)[i as int]);
            return false;
        }
        i += 1;
    }
    assert(lower_seq(a@) =~= lower_seq(b@));
    true
}

/// Copies the byte range `[a, b)` of a slice into a fresh vector.
pub fn copy_range(s: &[u8], a: usize, b: usize) -> (r: Vec<u8>)
    requires
        a <= b <= s@.len(),
    ensures
        r@ == s@.subrange(a as int, b as int),
{
    let mut v: Vec<u8> = Vec::new();
    let mut i: usize = a;
    while i < b
        invariant
            a <= i <= b <= s@.len(),
            v@ == s@.subrange(a as int, i as int),
        decreases b - i,
    {
        v.push(s[i]);
        assert(v@ =~= s@.subrange(a as int, i + 1));
        i += 1;
    }
    v
}

/// Tests whether the bytes of `pat` occur in `s` at position `pos`, entirely
/// before `end`.
pub fn match_at(s: &[u8], pos: usize, end: usize, pat: &[u8]) -> (r: bool)
    requires
        pos <= end <= s@.len(),
    ensures
        r == (pos + pat@.len() <= end && s@.subrange(
            pos as int,
            pos + pat@.len(),
        ) == pat@),
{
    if end - pos < pat.len() {
        assert(pos + pat@.len() > end);
        return false;
    }
    let n = pat.len();
    let mut i: usize = 0;
    while i < n
        invariant
            pos + n <= end <= s@.len(),
            n == pat@.len(),
            i <= n,
            forall|j: int| 0 <= j < i ==> s@[pos + j] == pat@[j],
        decreases n - i,
    {
        if s[pos + i] != pat[i] {
            assert(s@.subrange(pos as int, pos + pat@.len())[i as int] != pat@[i as int]);
            return false;
        }
        i += 1;
    }
    assert(s@.subrange(pos as int, pos + pat@.len()) =~= pat@);
    true
}

/// Compares two byte slices for equality.
pub fn bytes_eq(a: &[u8], b: &[u8]) -> (r: bool)
    ensures
        r == (a@ == b@),
{
    if a.len() != b.len() {
        return false;
    }
    let n = a.len();
    let mut i: usize = 0;
    while i < n
        invariant
            n == a@.len() && n == b@.len(),
            i <= n,
            forall|j: int| 0 <= j < i ==> a@[j] == b@[j],
        decreases n - i,
    {
        if a[i] != b[i] {
            return false;
        }
        i += 1;
    }
    assert(a@ =~= b@);
    true
}

/// Lowercases a byte vector's ASCII letters into a fresh vector.
pub fn to_lower_vec(v: &[u8]) -> (r: Vec<u8>)
    ensures
        r@ == lower_seq(v@),
{
    let n = v.len();
    let mut out: Vec<u8> = Vec::new();
    let mut i: usize = 0;
    while i < n
        invariant
            n == v@.len(),
            i <= n,
            out@.len() == i,
            forall|j: int| 0 <= j < i ==> out@[j] == spec_lower(v@[j]),
        decreases n - i,
    {
        out.push(lower(v[i]));
        i += 1;
    }
    assert(out@ =~= lower_seq(v@));
    out
}

/// Whether `pat` (given lowercase) occurs at `pos` in `s` up to ASCII case.
pub open spec fn match_ci(s: Seq<u8>, pos: int, end: int, pat: Seq<u8>) -> bool {
    0 <= pos && pos + pat.len() <= end && end <= s.len() && eq_ignore_case(
        s.subrange(pos, pos + pat.len()),
        pat,
    )
}

/// Tests `match_ci` for an executable pattern.
pub fn match_ci_at(s: &[u8], pos: usize, end: usize, pat: &[u8]) -> (r: bool)
    requires
        pos <= end <= s@.len(),
    ensures
        r == match_ci(s@, pos as int, end as int, pat@),
{
    if end - pos < pat.len() {
        assert(pos + pat@.len() > end);
        return false;
    }
    let n = pat.len();
    let mut i: usize = 0;
    while i < n
        invariant
            pos + n <= end <= s@.len(),
            n == pat@.len(),
            i <= n,
            forall|j: int| 0 <= j < i ==> spec_lower(s@[pos + j]) == spec_lower(pat@[j]),
        decreases n - i,
    {
        if lower(s[pos + i]) != lower(pat[i]) {
            assert(lower_seq(s@.subrange(pos as int, pos + pat@.len()))[i as int] != lower_seq(
                pat@,
            )[i as int]);
            return false;
        }
        i += 1;
    }
    assert(lower_seq(s@.subrange(pos as int, pos + pat@.len())) =~= lower_seq(pat@));
    true
}

} // verus!
