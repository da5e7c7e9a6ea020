//! Detection of hedging language that suggests shortcuts or deferred work.

use crate::bytes::{contains, find_bytes};
use std::collections::HashSet;
use vstd::prelude::*;
use vstd::string::{StringExecFns, StringSliceAdditionalSpecFns};
use vstd::utf8::encode_utf8;

verus! {

/// Names what `str::to_lowercase` returns for a string.
pub uninterp spec fn lower_of(s: Seq<char>) -> Seq<char>;

/// Names the strings that a set of strings holds, by their characters.
pub uninterp spec fn held(h: HashSet<String>) -> Set<Seq<char>>;

/// Relies on `str::to_lowercase`: the result depends on the characters alone.
#[verifier::external_body]
fn lowercase(s: &str) -> (r: String)
    ensures
        r@ == lower_of(s@),
{
    s.to_lowercase()
}

/// Relies on `HashSet::contains`: whether the set holds a string equal to `k`.
#[verifier::external_body]
fn set_has(h: &HashSet<String>, k: &str) -> (r: bool)
    ensures
        r == held(*h).contains(k@),
{
    h.contains(k)
}

/// Relies on `HashSet::insert`: afterwards the set holds `k` as well.
#[verifier::external_body]
fn set_add(h: &mut HashSet<String>, k: String)
    ensures
        held(*final(h)) == held(*old(h)).insert(k@),
{
    h.insert(k);
}

/// Relies on `HashSet::new`: a new set holds nothing.
#[verifier::external_body]
fn new_set() -> (r: HashSet<String>)
    ensures
        held(r) == Set::<Seq<char>>::empty(),
{
    HashSet::new()
}

/// A set of needles seen so far that holds none yet.
pub fn empty_seen() -> (r: HashSet<String>)
    ensures
        held(r) == Set::<Seq<char>>::empty(),
{
    new_set()
}

/// The phrase between double quotes.
fn quoted(p: &str) -> (r: String)
    ensures
        r@ == seq!['"'] + p@ + seq!['"'],
{
    let mut r = String::from_str("\"");
    r.append(p);
    r.append("\"");
    proof {
        reveal_strlit("\"");
    }
    assert(r@ =~= seq!['"'] + p@ + seq!['"']);
    r
}

/// The marker followed by ` comment`.
fn comment_label(m: &str) -> (r: String)
    ensures
        r@ == m@ + " comment"@,
{
    let mut r = String::from_str(m);
    r.append(" comment");
    r
}

/// Number of hedging phrases, matched without regard to case.
pub const PHRASE_COUNT: usize = 28;

/// Number of needles: the hedging phrases, then the code markers, matched as written.
pub const NEEDLE_COUNT: usize = 32;

/// The hedging phrases followed by the code markers.
pub open spec fn needles() -> Seq<Seq<char>> {
    seq![
        "for now"@,
        "revisit later"@,
        "revisit this"@,
        "come back to this"@,
        "should be replaced"@,
        "should be updated"@,
        "should be revisited"@,
        "will need to be"@,
        "good enough"@,
        "acceptable solution"@,
        "simple enough"@,
        "simple approach"@,
        "basic implementation"@,
        "simplified version"@,
        "quick and dirty"@,
        "not ideal"@,
        "first version"@,
        "initial version"@,
        "placeholder"@,
        "hardcoded"@,
        "hard-coded"@,
        "workaround"@,
        "temporary fix"@,
        "temporary solution"@,
        "temporary"@,
        "pre-existing"@,
        "isn't related to"@,
        "aren't related to"@,
        "TODO"@,
        "FIXME"@,
        "HACK"@,
        "XXX"@
    ]
}

pub fn needle(k: usize) -> (r: &'static str)
    requires
        k < NEEDLE_COUNT,
    ensures
        r@ == needles()[k as int],
{
    match k {
        0 => "for now",
        1 => "revisit later",
        2 => "revisit this",
        3 => "come back to this",
        4 => "should be replaced",
        5 => "should be updated",
        6 => "should be revisited",
        7 => "will need to be",
        8 => "good enough",
        9 => "acceptable solution",
        10 => "simple enough",
        11 => "simple approach",
        12 => "basic implementation",
        13 => "simplified version",
        14 => "quick and dirty",
        15 => "not ideal",
        16 => "first version",
        17 => "initial version",
        18 => "placeholder",
        19 => "hardcoded",
        20 => "hard-coded",
        21 => "workaround",
        22 => "temporary fix",
        23 => "temporary solution",
        24 => "temporary",
        25 => "pre-existing",
        26 => "isn't related to",
        27 => "aren't related to",
        28 => "TODO",
        29 => "FIXME",
        30 => "HACK",
        _ => "XXX",
    }
}

/// Needle `k` stands in the text: in `lower`, its lowercase form, for a
/// phrase, and as written for a code marker.
pub open spec fn needle_found(text: Seq<char>, lower: Seq<char>, k: int) -> bool {
    if k < PHRASE_COUNT {
        contains(encode_utf8(lower), encode_utf8(needles()[k]))
    } else {
        contains(encode_utf8(text), encode_utf8(needles()[k]))
    }
}

/// How a finding of needle `k` is reported.
pub open spec fn finding_label(k: int) -> Seq<char> {
    if k < PHRASE_COUNT {
        seq!['"'] + needles()[k] + seq!['"']
    } else {
        needles()[k] + " comment"@
    }
}

/// The findings and the set of needles seen after checking the first `k`
/// needles: each needle found and not yet seen adds its label once.
pub open spec fn scan_fold(
    text: Seq<char>,
    lower: Seq<char>,
    findings: Seq<Seq<char>>,
    seen: Set<Seq<char>>,
    k: int,
) -> (Seq<Seq<char>>, Set<Seq<char>>)
    decreases k,
{
    if k <= 0 {
        (findings, seen)
    } else {
        let (f, s) = scan_fold(text, lower, findings, seen, k - 1);
        if !s.contains(needles()[k - 1]) && needle_found(text, lower, k - 1) {
            (f.push(finding_label(k - 1)), s.insert(needles()[k - 1]))
        } else {
            (f, s)
        }
    }
}

fn str_contains(hay: &str, pat: &str) -> (r: bool)
    ensures
        r == contains(hay.spec_bytes(), pat.spec_bytes()),
{
    find_bytes(hay.as_bytes(), pat.as_bytes()).is_some()
}

/// Scans text for hedging phrases in `lower`, the text's lowercase form, and
/// for code markers in the text as written, appending each new finding once;
/// `seen` carries what was already reported across calls.
pub fn scan_lowered(text: &str, lower: &str, findings: &mut Vec<String>, seen: &mut HashSet<String>)
    ensures
        (final(findings).deep_view(), held(*final(seen))) == scan_fold(
            text@,
            lower@,
            old(findings).deep_view(),
            held(*old(seen)),
            NEEDLE_COUNT as int,
        ),
{
    let mut k: usize = 0;
    while k < NEEDLE_COUNT
        invariant
            k <= NEEDLE_COUNT,
            (findings.deep_view(), held(*seen)) == scan_fold(
                text@,
                lower@,
                old(findings).deep_view(),
                held(*old(seen)),
                k as int,
            ),
        decreases NEEDLE_COUNT - k,
    {
        let pat = needle(k);
        let hay = if k < PHRASE_COUNT {
            lower
        } else {
            text
        };
        if !set_has(seen, pat) && str_contains(hay, pat) {
            let label = if k < PHRASE_COUNT {
                quoted(pat)
            } else {
                comment_label(pat)
            };
            let ghost before = findings.deep_view();
            findings.push(label);
            assert(findings.deep_view() =~= before.push(finding_label(k as int)));
            set_add(seen, pat.to_owned());
        }
        k += 1;
    }
}

/// Scans text for hedging phrases (ignoring case) and code markers (matching
/// case), appending each new finding once; `seen` carries what was already
/// reported across calls.
pub fn scan_text(text: &str, findings: &mut Vec<String>, seen: &mut HashSet<String>)
    ensures
        (final(findings).deep_view(), held(*final(seen))) == scan_fold(
            text@,
            lower_of(text@),
            old(findings).deep_view(),
            held(*old(seen)),
            NEEDLE_COUNT as int,
        ),
{
    let lower = lowercase(text);
    scan_lowered(text, lower.as_str(), findings, seen);
}

} // verus!
