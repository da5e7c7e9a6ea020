//! The drive-path matcher: finds `<letter>:\` anchors and the extent of the
//! path that follows each of them.

use crate::bytes::{is_alnum, is_letter, is_path_char, spec_is_alnum, spec_is_letter, spec_is_path_char, BACKSLASH, COLON};
use vstd::prelude::*;

verus! {

/// A drive path starts at offset `i`: a letter, a colon and a backslash, with
/// no letter or digit just before the letter.
pub open spec fn anchor_at(s: Seq<u8>, i: int) -> bool {
    &&& 0 <= i
    &&& i + 2 < s.len()
    &&& spec_is_letter(s[i])
    &&& s[i + 1] == COLON
    &&& s[i + 2] == BACKSLASH
    &&& (i == 0 || !spec_is_alnum(s[i - 1]))
}

pub open spec fn has_anchor(s: Seq<u8>) -> bool {
    exists|i: int| anchor_at(s, i)
}

/// Bytes that extend a drive path: separators and path characters.
pub open spec fn is_body_byte(b: u8) -> bool {
    b == BACKSLASH || spec_is_path_char(b)
}

/// Offset `p` lies in the body of a drive path, that is after its colon and
/// before its end.
pub open spec fn in_body(s: Seq<u8>, p: int) -> bool
    decreases p,
{
    if p < 2 || p >= s.len() {
        false
    } else {
        is_body_byte(s[p]) && (anchor_at(s, p - 2) || in_body(s, p - 1))
    }
}

/// The first offset at or after `j` that does not extend a drive path: a
/// byte that is neither a separator nor a path character, or the letter of
/// the next drive path, so that paths never overlap.
pub open spec fn body_end(s: Seq<u8>, j: int) -> int
    decreases s.len() - j,
{
    if j < 0 || j >= s.len() || !is_body_byte(s[j]) || anchor_at(s, j) {
        j
    } else {
        body_end(s, j + 1)
    }
}

/// The first offset at or after `j` that is not a backslash.
pub open spec fn run_end(s: Seq<u8>, j: int) -> int
    decreases s.len() - j,
{
    if j < 0 || j >= s.len() || s[j] != BACKSLASH {
        j
    } else {
        run_end(s, j + 1)
    }
}

pub proof fn lemma_body_end(s: Seq<u8>, j: int)
    requires
        0 <= j <= s.len(),
    ensures
        j <= body_end(s, j) <= s.len(),
        forall|k: int| j <= k < body_end(s, j) ==> !anchor_at(s, k),
    decreases s.len() - j,
{
    if j < s.len() && is_body_byte(s[j]) && !anchor_at(s, j) {
        lemma_body_end(s, j + 1);
    }
}

/// A drive path whose anchor starts at `start` and which ends before `end`.
#[derive(Clone, Copy, Debug, PartialEq, Eq, Structural)]
pub struct DrivePath {
    pub start: usize,
    pub end: usize,
}

pub open spec fn is_drive_path(s: Seq<u8>, d: DrivePath) -> bool {
    anchor_at(s, d.start as int) && d.end == body_end(s, d.start + 2)
}

/// Whether a drive path starts at offset `i`.
pub fn is_anchor(s: &[u8], i: usize) -> (r: bool)
    ensures
        r == anchor_at(s@, i as int),
{
    if i >= s.len() || s.len() - i <= 2 {
        return false;
    }
    is_letter(s[i]) && s[i + 1] == COLON && s[i + 2] == BACKSLASH && (i == 0 || !is_alnum(s[i - 1]))
}

/// The first offset at or after `j` that does not extend a drive path.
pub fn path_end(s: &[u8], j: usize) -> (r: usize)
    requires
        j <= s@.len(),
    ensures
        r == body_end(s@, j as int),
{
    let mut k = j;
    while k < s.len() && (s[k] == BACKSLASH || is_path_char(s[k])) && !is_anchor(s, k)
        invariant
            j <= k <= s@.len(),
            body_end(s@, k as int) == body_end(s@, j as int),
        decreases s@.len() - k,
    {
        k += 1;
    }
    k
}

/// The first offset at or after `j` that is not a backslash.
pub fn separator_end(s: &[u8], j: usize) -> (r: usize)
    requires
        j <= s@.len(),
    ensures
        r == run_end(s@, j as int),
{
    let mut k = j;
    while k < s.len() && s[k] == BACKSLASH
        invariant
            j <= k <= s@.len(),
            run_end(s@, k as int) == run_end(s@, j as int),
        decreases s@.len() - k,
    {
        k += 1;
    }
    k
}

/// The first drive path that starts at or after `from`.
pub fn next_drive_path(s: &[u8], from: usize) -> (r: Option<DrivePath>)
    ensures
        match r {
            Some(d) => {
                &&& is_drive_path(s@, d)
                &&& from <= d.start
                &&& forall|i: int| from <= i < d.start ==> !anchor_at(s@, i)
            },
            None => forall|i: int| from <= i ==> !anchor_at(s@, i),
        },
{
    let mut i = from;
    while i < s.len()
        invariant
            from <= i,
            forall|k: int| from <= k < i ==> !anchor_at(s@, k),
        decreases s@.len() - i,
    {
        if is_anchor(s, i) {
            let end = path_end(s, i + 2);
            return Some(DrivePath { start: i, end });
        }
        i += 1;
    }
    None
}

/// Every drive path of the command, left to right; none overlaps the next.
pub fn drive_paths(command: &[u8]) -> (r: Vec<DrivePath>)
    ensures
        forall|k: int| 0 <= k < r@.len() ==> is_drive_path(command@, #[trigger] r@[k]),
        forall|k: int, m: int| 0 <= k < m < r@.len() ==> r@[k].end <= r@[m].start,
        forall|i: int|
            anchor_at(command@, i) ==> exists|k: int| 0 <= k < r@.len() && (#[trigger] r@[k]).start == i,
{
    let mut r: Vec<DrivePath> = Vec::new();
    let mut from: usize = 0;
    while from < command.len()
        invariant
            from <= command@.len(),
            forall|k: int| 0 <= k < r@.len() ==> is_drive_path(command@, #[trigger] r@[k]),
            forall|k: int| 0 <= k < r@.len() ==> (#[trigger] r@[k]).end <= from,
            forall|k: int, m: int| 0 <= k < m < r@.len() ==> r@[k].end <= r@[m].start,
            forall|i: int|
                0 <= i < from && anchor_at(command@, i) ==> exists|k: int|
                    0 <= k < r@.len() && (#[trigger] r@[k]).start == i,
        decreases command@.len() - from,
    {
        match next_drive_path(command, from) {
            None => {
                from = command.len();
            },
            Some(d) => {
                proof {
                    lemma_body_end(command@, d.start + 2);
                }
                let ghost old_r = r@;
                r.push(d);
                assert forall|i: int|
                    0 <= i < d.end && anchor_at(command@, i) implies exists|k: int|
                    0 <= k < r@.len() && (#[trigger] r@[k]).start == i by {
                    if i < from {
                        let k = choose|k: int| 0 <= k < old_r.len() && (#[trigger] old_r[k]).start == i;
                        assert(r@[k] == old_r[k]);
                    } else if i == d.start {
                        assert(r@[old_r.len() as int].start == i);
                    } else {
                        assert(i >= d.start + 2);
                    }
                }
                from = d.end;
            },
        }
    }
    r
}

/// A backslash run of a drive path starts at offset `p`.
pub open spec fn run_starts_at(s: Seq<u8>, d: DrivePath, p: int) -> bool {
    d.start + 2 <= p < d.end && s[p] == BACKSLASH && s[p - 1] != BACKSLASH
}

/// Where each backslash run of a drive path starts, left to right.
pub fn separator_runs(command: &[u8], path: DrivePath) -> (r: Vec<usize>)
    requires
        is_drive_path(command@, path),
    ensures
        forall|k: int| 0 <= k < r@.len() ==> run_starts_at(command@, path, #[trigger] r@[k] as int),
        forall|k: int, m: int| 0 <= k < m < r@.len() ==> r@[k] < r@[m],
        forall|p: int|
            run_starts_at(command@, path, p) ==> exists|k: int| 0 <= k < r@.len() && #[trigger] r@[k] == p,
{
    proof {
        lemma_body_end(command@, path.start + 2);
    }
    let mut r: Vec<usize> = Vec::new();
    let mut p = path.start + 2;
    while p < path.end
        invariant
            is_drive_path(command@, path),
            path.start + 2 <= p,
            path.end <= command@.len(),
            forall|k: int| 0 <= k < r@.len() ==> run_starts_at(command@, path, #[trigger] r@[k] as int),
            forall|k: int| 0 <= k < r@.len() ==> #[trigger] r@[k] < p,
            forall|k: int, m: int| 0 <= k < m < r@.len() ==> r@[k] < r@[m],
            forall|q: int|
                path.start + 2 <= q < p && run_starts_at(command@, path, q) ==> exists|k: int|
                    0 <= k < r@.len() && #[trigger] r@[k] == q,
        decreases path.end - p,
    {
        let ghost old_r = r@;
        if command[p] == BACKSLASH && command[p - 1] != BACKSLASH {
            r.push(p);
            assert(r@[r@.len() - 1] == p);
            assert forall|q: int|
                path.start + 2 <= q < p && run_starts_at(command@, path, q) implies exists|k: int|
                0 <= k < r@.len() && #[trigger] r@[k] == q by {
                let k = choose|k: int| 0 <= k < old_r.len() && #[trigger] old_r[k] == q;
                assert(r@[k] == old_r[k]);
            }
        }
        p += 1;
    }
    r
}

} // verus!
