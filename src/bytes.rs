//! Byte classes and byte-pattern search over command text.

use vstd::prelude::*;

verus! {

pub const BACKSLASH: u8 = 92;

pub const SLASH: u8 = 47;

pub const COLON: u8 = 58;

pub const SINGLE_QUOTE: u8 = 39;

pub const DOUBLE_QUOTE: u8 = 34;

pub open spec fn spec_is_letter(b: u8) -> bool {
    (65 <= b && b <= 90) || (97 <= b && b <= 122)
}

pub open spec fn spec_is_digit(b: u8) -> bool {
    48 <= b && b <= 57
}

pub open spec fn spec_is_alnum(b: u8) -> bool {
    spec_is_letter(b) || spec_is_digit(b)
}

/// Bytes that may form a path component: alphanumerics and `- _ . ~ + @ #`.
pub open spec fn spec_is_path_char(b: u8) -> bool {
    spec_is_alnum(b) || b == 45 || b == 95 || b == 46 || b == 126 || b == 43 || b == 64 || b == 35
}

/// An ASCII letter.
pub fn is_letter(b: u8) -> (r: bool)
    ensures
        r == spec_is_letter(b),
{
    (65 <= b && b <= 90) || (97 <= b && b <= 122)
}

/// An ASCII letter or digit.
pub fn is_alnum(b: u8) -> (r: bool)
    ensures
        r == spec_is_alnum(b),
{
    is_letter(b) || (48 <= b && b <= 57)
}

/// A byte that may stand inside a path component.
pub fn is_path_char(b: u8) -> (r: bool)
    ensures
        r == spec_is_path_char(b),
{
    is_alnum(b) || b == 45 || b == 95 || b == 46 || b == 126 || b == 43 || b == 64 || b == 35
}

/// `pat` stands in `s` at offset `i`.
pub open spec fn occurs_at(s: Seq<u8>, pat: Seq<u8>, i: int) -> bool {
    0 <= i && i + pat.len() <= s.len() && s.subrange(i, i + pat.len()) == pat
}

pub open spec fn contains(s: Seq<u8>, pat: Seq<u8>) -> bool {
    exists|i: int| occurs_at(s, pat, i)
}

/// Whether `pat` stands in `s` at offset `i`.
pub fn matches_at(s: &[u8], pat: &[u8], i: usize) -> (r: bool)
    ensures
        r == occurs_at(s@, pat@, i as int),
{
    if i > s.len() || pat.len() > s.len() - i {
        return false;
    }
    let mut k: usize = 0;
    while k < pat.len()
        invariant
            i + pat@.len() <= s@.len(),
            s@.len() <= usize::MAX,
            k <= pat@.len(),
            forall|m: int| 0 <= m < k ==> s@[i + m] == pat@[m],
        decreases pat@.len() - k,
    {
        if s[i + k] != pat[k] {
            assert(s@.subrange(i as int, i + pat@.len())[k as int] != pat@[k as int]);
            return false;
        }
        k += 1;
    }
    assert(s@.subrange(i as int, i + pat@.len()) =~= pat@);
    true
}

/// The first offset at which `pat` stands in `s`.
pub fn find_bytes(s: &[u8], pat: &[u8]) -> (r: Option<usize>)
    ensures
        match r {
            Some(i) => occurs_at(s@, pat@, i as int) && forall|j: int|
                0 <= j < i ==> !occurs_at(s@, pat@, j),
            None => !contains(s@, pat@),
        },
{
    let mut i: usize = 0;
    while i < s.len()
        invariant
            i <= s@.len(),
            forall|j: int| 0 <= j < i ==> !occurs_at(s@, pat@, j),
        decreases s@.len() - i,
    {
        if matches_at(s, pat, i) {
            return Some(i);
        }
        i += 1;
    }
    if matches_at(s, pat, i) {
        return Some(i);
    }
    assert forall|j: int| !occurs_at(s@, pat@, j) by {
        if 0 <= j && j <= i {
        }
    }
    None
}

} // verus!
