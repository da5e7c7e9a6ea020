//! The path normalizer: rewrites hazardous drive paths and device paths into
//! forms that survive every layer of escaping.

use crate::bytes::{
    is_path_char, matches_at, occurs_at, spec_is_alnum, spec_is_letter, BACKSLASH, COLON, DOUBLE_QUOTE,
    SINGLE_QUOTE, SLASH,
};
use crate::bytes::{contains, spec_is_digit};
use crate::classify::{
    device_path, device_path_bytes, drive_in_dq_region, eval_marker, eval_marker_position,
    has_eval_marker, quote_collision, quote_collision_at, spec_classify,
};
use crate::path::{anchor_at, has_anchor, in_body, is_anchor, is_body_byte};
use vstd::prelude::*;

verus! {

/// The quoted device literals: `'/dev/stdin'`, `"/dev/stdin"`, then the same
/// for stdout and for stderr.
pub open spec fn device_literal(k: int) -> Seq<u8> {
    let q = if k % 2 == 0 {
        SINGLE_QUOTE
    } else {
        DOUBLE_QUOTE
    };
    seq![q] + device_path(k / 2) + seq![q]
}

/// The file descriptor that replaces device literal `k`: `0`, `1` or `2`.
pub open spec fn descriptor_digit(k: int) -> u8 {
    (48 + k / 2) as u8
}

/// The first device literal, from `k` on, that stands at offset `i`.
pub open spec fn literal_from(s: Seq<u8>, i: int, k: int) -> Option<int>
    decreases 6 - k,
{
    if k < 0 || k >= 6 {
        None
    } else if occurs_at(s, device_literal(k), i) {
        Some(k)
    } else {
        literal_from(s, i, k + 1)
    }
}

pub open spec fn has_device_literal(s: Seq<u8>) -> bool {
    exists|i: int, k: int| 0 <= k < 6 && occurs_at(s, device_literal(k), i)
}

/// The length of device literal `k`.
pub open spec fn literal_len(k: int) -> int {
    if k < 2 {
        12
    } else {
        13
    }
}

pub proof fn lemma_literal_len(k: int)
    ensures
        0 <= k < 6 ==> device_literal(k).len() == literal_len(k),
{
}

/// `s` from offset `i` on, with each device literal replaced by its descriptor,
/// left to right.
pub open spec fn alias_from(s: Seq<u8>, i: int) -> Seq<u8>
    // a literal is at most 13 bytes long, so no jump lands more than 13 past the end
    decreases s.len() + 13 - i,
{
    if i < 0 || i >= s.len() {
        seq![]
    } else {
        match literal_from(s, i, 0) {
            Some(k) => seq![descriptor_digit(k)] + alias_from(s, i + literal_len(k)),
            None => seq![s[i]] + alias_from(s, i + 1),
        }
    }
}

/// What the byte at offset `p` becomes: the first backslash of each separator
/// run in a drive path becomes `/`, the others vanish, every other byte stays.
pub open spec fn piece(s: Seq<u8>, p: int) -> Seq<u8> {
    if in_body(s, p) && s[p] == BACKSLASH {
        if s[p - 1] == BACKSLASH {
            seq![]
        } else {
            seq![SLASH]
        }
    } else {
        seq![s[p]]
    }
}

/// The rewrite of the first `n` bytes of `s`.
pub open spec fn rewrite_prefix(s: Seq<u8>, n: int) -> Seq<u8>
    decreases n,
{
    if n <= 0 {
        seq![]
    } else {
        rewrite_prefix(s, n - 1) + piece(s, n - 1)
    }
}

pub open spec fn slash_rewrite(s: Seq<u8>) -> Seq<u8> {
    rewrite_prefix(s, s.len() as int)
}

/// The last byte that the rewrite of the first `n` bytes ends with: the last
/// source byte itself, or `/` for a separator inside a drive path.
pub proof fn lemma_rewrite_last(s: Seq<u8>, n: int)
    requires
        1 <= n <= s.len(),
    ensures
        rewrite_prefix(s, n).len() >= 1,
        rewrite_prefix(s, n).last() == if s[n - 1] != BACKSLASH {
            s[n - 1]
        } else if in_body(s, n - 1) {
            SLASH
        } else {
            BACKSLASH
        },
    decreases n,
{
    if n > 1 {
        lemma_rewrite_last(s, n - 1);
    }
}

/// No drive path starts anywhere in the rewrite of a prefix.
proof fn lemma_rewrite_prefix_no_anchor(s: Seq<u8>, n: int)
    requires
        0 <= n <= s.len(),
    ensures
        !has_anchor(rewrite_prefix(s, n)),
    decreases n,
{
    if n > 0 {
        lemma_rewrite_prefix_no_anchor(s, n - 1);
        let o = rewrite_prefix(s, n);
        let prev = rewrite_prefix(s, n - 1);
        assert forall|q: int| !anchor_at(o, q) by {
            if anchor_at(o, q) {
                if q + 2 < prev.len() {
                    assert(anchor_at(prev, q));
                } else {
                    // the separator of the anchor is the byte that source offset n - 1 gave
                    assert(piece(s, n - 1).len() == 1);
                    assert(o[q + 2] == piece(s, n - 1)[0]);
                    assert(s[n - 1] == BACKSLASH && !in_body(s, n - 1));
                    lemma_rewrite_last(s, n - 1);
                    assert(s[n - 2] == COLON);
                    assert(rewrite_prefix(s, n - 2).len() == q + 1);
                    lemma_rewrite_last(s, n - 2);
                    assert(spec_is_letter(s[n - 3]));
                    assert(rewrite_prefix(s, n - 3).len() == q);
                    if q > 0 {
                        lemma_rewrite_last(s, n - 3);
                        assert(!spec_is_alnum(s[n - 4]));
                    } else {
                        if n - 3 > 0 {
                            lemma_rewrite_last(s, n - 3);
                        }
                    }
                    assert(anchor_at(s, n - 3));
                }
            }
        }
    }
}

/// The separator rewrite leaves no drive path behind.
pub proof fn lemma_slash_rewrite_no_anchor(s: Seq<u8>)
    ensures
        !has_anchor(slash_rewrite(s)),
{
    lemma_rewrite_prefix_no_anchor(s, s.len() as int);
}

proof fn lemma_rewrite_prefix_extends(s: Seq<u8>, m: int, n: int)
    requires
        0 <= m <= n,
    ensures
        rewrite_prefix(s, m).len() <= rewrite_prefix(s, n).len(),
        rewrite_prefix(s, n).subrange(0, rewrite_prefix(s, m).len() as int) == rewrite_prefix(s, m),
    decreases n - m,
{
    if m < n {
        lemma_rewrite_prefix_extends(s, m, n - 1);
        assert(rewrite_prefix(s, n).subrange(0, rewrite_prefix(s, m).len() as int)
            =~= rewrite_prefix(s, n - 1).subrange(0, rewrite_prefix(s, m).len() as int));
    } else {
        assert(rewrite_prefix(s, n).subrange(0, rewrite_prefix(s, n).len() as int)
            =~= rewrite_prefix(s, n));
    }
}

/// Each byte of the rewrite comes from one source offset whose piece is that byte.
proof fn lemma_rewrite_source(s: Seq<u8>, n: int, q: int)
    requires
        0 <= n <= s.len(),
        0 <= q < rewrite_prefix(s, n).len(),
    ensures
        exists|p: int|
            0 <= p < n && rewrite_prefix(s, p).len() == q && (#[trigger] piece(s, p)).len() == 1,
    decreases n,
{
    if q < rewrite_prefix(s, n - 1).len() {
        lemma_rewrite_source(s, n - 1, q);
    } else {
        assert(rewrite_prefix(s, n - 1).len() == q && piece(s, n - 1).len() == 1);
    }
}

/// A byte that keeps its value in the rewrite is followed by the next source byte.
proof fn lemma_rewrite_next(s: Seq<u8>, p: int)
    requires
        0 <= p,
        p + 1 < s.len(),
        !(in_body(s, p) && s[p] == BACKSLASH),
    ensures
        piece(s, p + 1).len() == 1,
{
}

/// Offset `x` is outside every drive path when a byte that cannot extend one
/// stands at or before it with no colon in between.
proof fn lemma_not_in_body(s: Seq<u8>, m: int, x: int)
    requires
        0 <= m <= x < s.len(),
        !is_body_byte(s[m]),
        forall|y: int| m <= y < x ==> s[y] != COLON,
    ensures
        !in_body(s, x),
    decreases x - m,
{
    if x > m {
        lemma_not_in_body(s, m, x - 1);
    }
}

/// Every `/` of `w` follows, with no colon in between, a byte that cannot
/// extend a drive path.
pub open spec fn slashes_shielded(w: Seq<u8>) -> bool {
    forall|i: int|
        0 <= i < w.len() && #[trigger] w[i] == SLASH ==> exists|m: int|
            0 <= m < i && !is_body_byte(w[m]) && forall|y: int| m <= y < i ==> w[y] != COLON
}

proof fn lemma_rewrite_window(s: Seq<u8>, w: Seq<u8>, q: int, p: int, j: int)
    requires
        slashes_shielded(w),
        occurs_at(slash_rewrite(s), w, q),
        0 <= p,
        0 <= j < w.len(),
        p + j < s.len(),
        rewrite_prefix(s, p + j).len() == q + j,
        piece(s, p + j).len() == 1,
        forall|y: int| 0 <= y < j ==> s[p + y] == w[y],
    ensures
        occurs_at(s, w, p),
    decreases w.len() - j,
{
    let out = slash_rewrite(s);
    lemma_rewrite_prefix_extends(s, p + j + 1, s.len() as int);
    assert(out[q + j] == w[j]);
    assert(rewrite_prefix(s, p + j + 1)[q + j] == piece(s, p + j)[0]);
    if in_body(s, p + j) && s[p + j] == BACKSLASH {
        assert(w[j] == SLASH);
        let m = choose|m: int|
            0 <= m < j && !is_body_byte(w[m]) && forall|y: int| m <= y < j ==> w[y] != COLON;
        assert forall|y: int| p + m <= y < p + j implies s[y] != COLON by {
            assert(s[p + (y - p)] == w[y - p]);
        }
        assert(s[p + m] == w[m]);
        lemma_not_in_body(s, p + m, p + j);
    }
    assert(s[p + j] == w[j]);
    if j + 1 < w.len() {
        if p + j + 1 == s.len() {
            assert(out.len() == q + j + 1);
        }
        lemma_rewrite_next(s, p + j);
        lemma_rewrite_window(s, w, q, p, j + 1);
    } else {
        assert(s.subrange(p, p + w.len()) =~= w);
    }
}

/// A byte string whose slashes are shielded stands in the rewrite only where
/// it stood in the source.
pub proof fn lemma_rewrite_reflects(s: Seq<u8>, w: Seq<u8>, q: int)
    requires
        slashes_shielded(w),
        w.len() > 0,
        occurs_at(slash_rewrite(s), w, q),
    ensures
        exists|p: int| occurs_at(s, w, p),
{
    lemma_rewrite_source(s, s.len() as int, q);
    let p = choose|p: int|
        0 <= p < s.len() && rewrite_prefix(s, p).len() == q && (#[trigger] piece(s, p)).len() == 1;
    lemma_rewrite_window(s, w, q, p, 0);
}

proof fn lemma_literal_shape(k: int)
    requires
        0 <= k < 6,
    ensures
        slashes_shielded(device_literal(k)),
        forall|j: int|
            0 <= j < device_literal(k).len() ==> !spec_is_digit(#[trigger] device_literal(k)[j]),
        device_literal(k).len() == literal_len(k),
        !spec_is_digit(device_literal(k)[0]),
{
    let w = device_literal(k);
    assert forall|i: int| 0 <= i < w.len() && #[trigger] w[i] == SLASH implies exists|m: int|
        0 <= m < i && !is_body_byte(w[m]) && forall|y: int| m <= y < i ==> w[y] != COLON by {
        assert(i == 1 || i == 5);
        assert(!is_body_byte(w[0]));
        assert forall|y: int| 0 <= y < i implies w[y] != COLON by {}
    }
}

proof fn lemma_marker_shape(k: int)
    requires
        0 <= k < 4,
    ensures
        slashes_shielded(eval_marker(k)),
        eval_marker(k).len() > 0,
{
    let w = eval_marker(k);
    assert forall|i: int| 0 <= i < w.len() implies #[trigger] w[i] != SLASH by {}
}

/// A stretch of the replaced text with no digit was copied unchanged.
proof fn lemma_alias_copies(s: Seq<u8>, i: int, w: Seq<u8>)
    requires
        0 <= i <= s.len(),
        w.len() <= alias_from(s, i).len(),
        alias_from(s, i).subrange(0, w.len() as int) == w,
        forall|j: int| 0 <= j < w.len() ==> !spec_is_digit(#[trigger] w[j]),
    ensures
        i + w.len() <= s.len(),
        s.subrange(i, i + w.len()) == w,
    decreases w.len(),
{
    if w.len() == 0 {
        assert(s.subrange(i, i) =~= w);
    } else {
        assert(alias_from(s, i)[0] == w[0]);
        assert(i < s.len());
        if let Some(k) = literal_from(s, i, 0) {
            lemma_literal_from_some(s, i, 0);
            assert(spec_is_digit(descriptor_digit(k)));
        } else {
            assert(alias_from(s, i) == seq![s[i]] + alias_from(s, i + 1));
            assert(s[i] == w[0]);
            let rest = w.subrange(1, w.len() as int);
            assert(alias_from(s, i + 1).subrange(0, rest.len() as int) =~= rest);
            lemma_alias_copies(s, i + 1, rest);
            assert forall|j: int| 0 <= j < w.len() implies s.subrange(i, i + w.len())[j] == w[j] by {
                if j > 0 {
                    assert(s.subrange(i + 1, i + 1 + rest.len())[j - 1] == rest[j - 1]);
                }
            }
            assert(s.subrange(i, i + w.len()) =~= w);
        }
    }
}

/// The replaced text holds no device literal.
proof fn lemma_alias_no_literal(s: Seq<u8>, i: int)
    requires
        0 <= i,
    ensures
        forall|q: int, k: int|
            0 <= k < 6 ==> !#[trigger] occurs_at(alias_from(s, i), device_literal(k), q),
    decreases s.len() + 13 - i,
{
    if i < s.len() {
        let next = match literal_from(s, i, 0) {
            Some(k) => i + literal_len(k),
            None => i + 1,
        };
        lemma_alias_no_literal(s, next);
        let out = alias_from(s, i);
        assert(out == seq![out[0]] + alias_from(s, next));
        assert forall|q: int, k: int| 0 <= k < 6 implies !#[trigger] occurs_at(
            out,
            device_literal(k),
            q,
        ) by {
            let w = device_literal(k);
            lemma_literal_shape(k);
            if occurs_at(out, w, q) {
                if q == 0 {
                    lemma_alias_copies(s, i, w);
                    if literal_from(s, i, 0) is None {
                        lemma_literal_from_none(s, i, 0);
                        assert(occurs_at(s, w, i));
                    } else {
                        lemma_literal_from_some(s, i, 0);
                        assert(out[0] == w[0]);
                    }
                } else {
                    assert(alias_from(s, next).subrange(q - 1, q - 1 + w.len()) =~= out.subrange(
                        q,
                        q + w.len(),
                    ));
                    assert(occurs_at(alias_from(s, next), w, q - 1));
                }
            }
        }
    }
}

/// Normalizing twice changes nothing the second time: a normalized command
/// needs no fix.
pub proof fn lemma_normalize_idempotent(s: Seq<u8>)
    ensures
        spec_fixes(spec_normalized(s)).len() == 0,
{
    let t = after_alias(s);
    let u = slash_rewrite(t);
    lemma_slash_rewrite_no_anchor(t);
    if has_device_literal(u) {
        let (q, k) = choose|q: int, k: int| 0 <= k < 6 && occurs_at(u, device_literal(k), q);
        lemma_literal_shape(k);
        lemma_rewrite_reflects(t, device_literal(k), q);
        let p = choose|p: int| occurs_at(t, device_literal(k), p);
        if alias_applies(s) {
            lemma_alias_no_literal(s, 0);
            assert(occurs_at(alias_from(s, 0), device_literal(k), p));
        } else {
            assert(has_device_literal(s));
            if has_eval_marker(u) {
                let m = choose|m: int| 0 <= m < 4 && contains(u, eval_marker(m));
                let r = choose|r: int| occurs_at(u, eval_marker(m), r);
                lemma_marker_shape(m);
                lemma_rewrite_reflects(t, eval_marker(m), r);
                assert(contains(s, eval_marker(m)));
            }
        }
    }
    assert(!alias_applies(u));
    assert(spec_fixes(u) =~= Seq::<FixKind>::empty());
}

/// Whether an offset lies in a drive path depends only on the bytes up to it.
proof fn lemma_in_body_prefix(a: Seq<u8>, b: Seq<u8>, p: int)
    requires
        0 <= p < a.len(),
        p < b.len(),
        forall|k: int| 0 <= k <= p ==> a[k] == b[k],
    ensures
        in_body(a, p) == in_body(b, p),
    decreases p,
{
    if p >= 2 {
        lemma_in_body_prefix(a, b, p - 1);
    }
}

proof fn lemma_rewrite_prefix_agree(a: Seq<u8>, b: Seq<u8>, m: int)
    requires
        0 <= m <= a.len(),
        m <= b.len(),
        forall|k: int| 0 <= k < m ==> a[k] == b[k],
    ensures
        rewrite_prefix(a, m) == rewrite_prefix(b, m),
    decreases m,
{
    if m > 0 {
        lemma_rewrite_prefix_agree(a, b, m - 1);
        lemma_in_body_prefix(a, b, m - 1);
    }
}

/// A run of `n` backslashes standing in place of one.
pub open spec fn widened(x: Seq<u8>, n: nat, y: Seq<u8>) -> Seq<u8> {
    x + Seq::new(n, |k: int| BACKSLASH) + y
}

proof fn lemma_run_in_body(x: Seq<u8>, n: nat, y: Seq<u8>, i: int)
    requires
        n >= 1,
        0 <= i < n,
        in_body(x + seq![BACKSLASH] + y, x.len() as int),
    ensures
        in_body(widened(x, n, y), x.len() + i),
        i >= 1 ==> rewrite_prefix(widened(x, n, y), x.len() + i + 1) == rewrite_prefix(
            widened(x, n, y),
            x.len() + 1 as int,
        ),
    decreases i,
{
    let a = widened(x, n, y);
    let b = x + seq![BACKSLASH] + y;
    if i == 0 {
        lemma_in_body_prefix(a, b, x.len() as int);
    } else {
        lemma_run_in_body(x, n, y, i - 1);
    }
}

proof fn lemma_run_shift(x: Seq<u8>, n: nat, y: Seq<u8>, j: int)
    requires
        n >= 2,
        0 <= j <= y.len(),
        in_body(x + seq![BACKSLASH] + y, x.len() as int),
    ensures
        in_body(widened(x, n, y), x.len() + n - 1 + j) == in_body(
            x + seq![BACKSLASH] + y,
            x.len() + j,
        ),
    decreases j,
{
    let a = widened(x, n, y);
    let b = x + seq![BACKSLASH] + y;
    let c = x.len() as int;
    if j == 0 {
        lemma_run_in_body(x, n, y, n - 1);
        lemma_in_body_prefix(a, b, c);
    } else {
        lemma_run_shift(x, n, y, j - 1);
        if j >= 3 {
            assert(a[c + n - 4 + j] == b[c + j - 3]);
            assert(a[c + n - 3 + j] == b[c + j - 2]);
            assert(a[c + n - 2 + j] == b[c + j - 1]);
        }
        assert(anchor_at(a, c + n - 3 + j) == anchor_at(b, c + j - 2));
    }
}

proof fn lemma_run_rewrite(x: Seq<u8>, n: nat, y: Seq<u8>, j: int)
    requires
        n >= 2,
        0 <= j <= y.len(),
        in_body(x + seq![BACKSLASH] + y, x.len() as int),
    ensures
        rewrite_prefix(widened(x, n, y), x.len() + n + j) == rewrite_prefix(
            x + seq![BACKSLASH] + y,
            x.len() + 1 + j,
        ),
    decreases j,
{
    let a = widened(x, n, y);
    let b = x + seq![BACKSLASH] + y;
    let c = x.len() as int;
    if j == 0 {
        lemma_run_in_body(x, n, y, n - 1);
        lemma_rewrite_prefix_agree(a, b, c + 1);
    } else {
        lemma_run_rewrite(x, n, y, j - 1);
        lemma_run_shift(x, n, y, j);
        assert(a[c + n + j - 1] == b[c + j]);
        assert(a[c + n + j - 2] == b[c + j - 1]);
        assert(piece(a, c + n + j - 1) == piece(b, c + j));
    }
}

/// Inside a drive path, a separator written as one backslash or as a run of
/// any length (two or four, after layers of escaping) rewrites to the same
/// output, in which the separator is a single `/`.
pub proof fn lemma_run_collapse(x: Seq<u8>, n: nat, y: Seq<u8>)
    requires
        n >= 1,
        in_body(x + seq![BACKSLASH] + y, x.len() as int),
        x.last() != BACKSLASH,
    ensures
        slash_rewrite(widened(x, n, y)) == slash_rewrite(x + seq![BACKSLASH] + y),
        slash_rewrite(x + seq![BACKSLASH] + y)[rewrite_prefix(x + seq![BACKSLASH] + y, x.len() as int).len() as int] == SLASH,
{
    let b = x + seq![BACKSLASH] + y;
    if n == 1 {
        assert(widened(x, n, y) =~= b);
    } else {
        lemma_run_rewrite(x, n, y, y.len() as int);
    }
    lemma_rewrite_prefix_extends(b, x.len() + 1 as int, b.len() as int);
    assert(b[x.len() - 1] == x.last());
    assert(piece(b, x.len() as int) == seq![SLASH]);
    assert(rewrite_prefix(b, x.len() + 1 as int)[rewrite_prefix(b, x.len() as int).len() as int] == SLASH);
}

proof fn lemma_region_has_anchor(s: Seq<u8>, i: int)
    requires
        drive_in_dq_region(s, i),
    ensures
        has_anchor(s),
    decreases i,
{
    if !anchor_at(s, i - 1) {
        lemma_region_has_anchor(s, i - 1);
    }
}

/// A command with no drive path and no device path is left alone by both
/// strategies: the normalizer changes nothing and the classifier finds nothing.
pub proof fn lemma_no_op(s: Seq<u8>)
    requires
        !has_anchor(s),
        forall|k: int| 0 <= k < 3 ==> !contains(s, #[trigger] device_path(k)),
    ensures
        spec_fixes(s).len() == 0,
        spec_classify(s) is None,
{
    if has_device_literal(s) {
        let (i, k) = choose|i: int, k: int| 0 <= k < 6 && occurs_at(s, device_literal(k), i);
        lemma_literal_len(k);
        let w = device_literal(k);
        let d = device_path(k / 2);
        assert forall|j: int| 0 <= j < d.len() implies s.subrange(i + 1, i + 1 + d.len())[j] == d[j] by {
            assert(w[j + 1] == d[j]);
            assert(s.subrange(i, i + w.len())[j + 1] == w[j + 1]);
        }
        assert(s.subrange(i + 1, i + 1 + d.len()) =~= d);
        assert(occurs_at(s, device_path(k / 2), i + 1));
    }
    if quote_collision(s) {
        let j = choose|j: int| quote_collision_at(s, j);
        lemma_region_has_anchor(s, j);
    }
    assert(spec_fixes(s) =~= Seq::<FixKind>::empty());
}

#[derive(Clone, Copy, Debug, PartialEq, Eq, Structural)]
pub enum FixKind {
    /// A quoted device path became a file descriptor.
    DeviceAlias,
    /// Drive-path separators became forward slashes.
    ForwardSlashes,
}

pub const DEVICE_ALIAS_NOTE: &'static str = "replaced /dev/stdin, /dev/stdout or /dev/stderr in an inline node script with the file descriptor 0, 1 or 2";

pub const FORWARD_SLASHES_NOTE: &'static str = "converted backslashes in Windows drive paths to forward slashes";

impl FixKind {
    /// What the fix did, for the note shown with the rewritten command.
    pub fn description(&self) -> (r: &'static str)
        ensures
            r@ == match self {
                FixKind::DeviceAlias => DEVICE_ALIAS_NOTE@,
                FixKind::ForwardSlashes => FORWARD_SLASHES_NOTE@,
            },
    {
        match self {
            FixKind::DeviceAlias => DEVICE_ALIAS_NOTE,
            FixKind::ForwardSlashes => FORWARD_SLASHES_NOTE,
        }
    }
}

pub enum FixOutcome {
    NoChange,
    Changed { new_command: Vec<u8>, applied_fixes: Vec<FixKind> },
}

pub open spec fn alias_applies(s: Seq<u8>) -> bool {
    has_eval_marker(s) && has_device_literal(s)
}

pub open spec fn after_alias(s: Seq<u8>) -> Seq<u8> {
    if alias_applies(s) {
        alias_from(s, 0)
    } else {
        s
    }
}

/// The fixes that apply to a command, in the order they are applied.
pub open spec fn spec_fixes(s: Seq<u8>) -> Seq<FixKind> {
    (if alias_applies(s) {
        seq![FixKind::DeviceAlias]
    } else {
        seq![]
    }) + (if has_anchor(after_alias(s)) {
        seq![FixKind::ForwardSlashes]
    } else {
        seq![]
    })
}

/// The command with every fix applied.
pub open spec fn spec_normalized(s: Seq<u8>) -> Seq<u8> {
    slash_rewrite(after_alias(s))
}

fn device_literal_bytes(k: usize) -> (r: Vec<u8>)
    requires
        k < 6,
    ensures
        r@ == device_literal(k as int),
{
    let q = if k % 2 == 0 {
        SINGLE_QUOTE
    } else {
        DOUBLE_QUOTE
    };
    let path = device_path_bytes(k / 2);
    let mut r: Vec<u8> = Vec::new();
    r.push(q);
    let mut j: usize = 0;
    while j < path.len()
        invariant
            j <= path@.len(),
            r@ =~= seq![q] + path@.subrange(0, j as int),
        decreases path@.len() - j,
    {
        r.push(path[j]);
        j += 1;
    }
    r.push(q);
    assert(path@.subrange(0, path@.len() as int) =~= path@);
    r
}

/// The first device literal that stands at offset `i`.
fn literal_at(s: &[u8], i: usize) -> (r: Option<usize>)
    ensures
        match r {
            Some(k) => literal_from(s@, i as int, 0) == Some(k as int),
            None => literal_from(s@, i as int, 0) is None,
        },
{
    let mut k: usize = 0;
    while k < 6
        invariant
            k <= 6,
            literal_from(s@, i as int, 0) == literal_from(s@, i as int, k as int),
        decreases 6 - k,
    {
        let lit = device_literal_bytes(k);
        if matches_at(s, lit.as_slice(), i) {
            return Some(k);
        }
        k += 1;
    }
    None
}

pub proof fn lemma_literal_from_none(s: Seq<u8>, i: int, k: int)
    requires
        0 <= k,
        literal_from(s, i, k) is None,
    ensures
        forall|m: int| k <= m < 6 ==> !occurs_at(s, #[trigger] device_literal(m), i),
    decreases 6 - k,
{
    if k < 6 {
        lemma_literal_from_none(s, i, k + 1);
    }
}

pub proof fn lemma_literal_from_some(s: Seq<u8>, i: int, k: int)
    requires
        0 <= k,
        literal_from(s, i, k) is Some,
    ensures
        0 <= literal_from(s, i, k)->0 < 6,
        occurs_at(s, device_literal(literal_from(s, i, k)->0), i),
    decreases 6 - k,
{
    if k < 6 && !occurs_at(s, device_literal(k), i) {
        lemma_literal_from_some(s, i, k + 1);
    }
}

/// Replaces each quoted device literal with its descriptor, and says whether
/// the command held one.
fn replace_device_literals(s: &[u8]) -> (r: (Vec<u8>, bool))
    ensures
        r.0@ == alias_from(s@, 0),
        r.1 == has_device_literal(s@),
{
    let mut out: Vec<u8> = Vec::new();
    let mut found = false;
    let mut i: usize = 0;
    while i < s.len()
        invariant
            out@ + alias_from(s@, i as int) == alias_from(s@, 0),
            found ==> has_device_literal(s@),
            !found ==> i <= s@.len(),
            !found ==> forall|j: int, k: int|
                0 <= j < i && 0 <= k < 6 ==> !#[trigger] occurs_at(s@, device_literal(k), j),
        decreases s@.len() - i,
    {
        match literal_at(s, i) {
            Some(k) => {
                proof {
                    lemma_literal_from_some(s@, i as int, 0);
                    lemma_literal_len(k as int);
                    assert(alias_from(s@, i as int) == seq![descriptor_digit(k as int)] + alias_from(
                        s@,
                        i + device_literal(k as int).len(),
                    ));
                }
                out.push(48 + (k / 2) as u8);
                found = true;
                let len: usize = if k < 2 {
                    12
                } else {
                    13
                };
                assert(len == device_literal(k as int).len());
                assert(out@ + alias_from(s@, i + len) =~= alias_from(s@, 0));
                i = i + len;
            },
            None => {
                proof {
                    lemma_literal_from_none(s@, i as int, 0);
                }
                out.push(s[i]);
                assert(out@ + alias_from(s@, i + 1) =~= alias_from(s@, 0));
                i += 1;
            },
        }
    }
    proof {
        if !found {
            assert forall|j: int, k: int| 0 <= k < 6 implies !#[trigger] occurs_at(
                s@,
                device_literal(k),
                j,
            ) by {
                if j >= i {
                    lemma_literal_len(k);
                }
            }
        }
    }
    assert(out@ =~= alias_from(s@, 0));
    (out, found)
}

/// Rewrites the separators of every drive path, and says whether there was one.
fn rewrite_separators(s: &[u8]) -> (r: (Vec<u8>, bool))
    ensures
        r.0@ == slash_rewrite(s@),
        r.1 == has_anchor(s@),
{
    let mut out: Vec<u8> = Vec::new();
    let mut inside = false;
    let mut found = false;
    let mut p: usize = 0;
    while p < s.len()
        invariant
            p <= s@.len(),
            out@ == rewrite_prefix(s@, p as int),
            p > 0 ==> inside == in_body(s@, p - 1),
            p == 0 ==> !inside,
            found <==> exists|a: int| 0 <= a < p && anchor_at(s@, a),
        decreases s@.len() - p,
    {
        let b = s[p];
        let here = (b == BACKSLASH || is_path_char(b)) && ((p >= 2 && is_anchor(s, p - 2)) || inside);
        assert(here == in_body(s@, p as int));
        if here && b == BACKSLASH {
            if s[p - 1] != BACKSLASH {
                out.push(SLASH);
            }
        } else {
            out.push(b);
        }
        if is_anchor(s, p) {
            found = true;
        }
        inside = here;
        p += 1;
        assert(out@ =~= rewrite_prefix(s@, p as int));
    }
    proof {
        if has_anchor(s@) {
            let a = choose|a: int| anchor_at(s@, a);
            assert(0 <= a < p);
        }
    }
    (out, found)
}

/// Repairs the drive paths and device paths of a command, or reports that it
/// needs no repair.
pub fn normalize(command: &[u8]) -> (r: FixOutcome)
    ensures
        match r {
            FixOutcome::NoChange => spec_fixes(command@).len() == 0,
            FixOutcome::Changed { new_command, applied_fixes } => {
                &&& spec_fixes(command@).len() > 0
                &&& applied_fixes@ == spec_fixes(command@)
                &&& new_command@ == spec_normalized(command@)
            },
        },
{
    let marker = eval_marker_position(command).is_some();
    let (aliased, found) = replace_device_literals(command);
    let alias = marker && found;
    let (new_command, anchored) = if alias {
        rewrite_separators(aliased.as_slice())
    } else {
        rewrite_separators(command)
    };
    let mut applied_fixes: Vec<FixKind> = Vec::new();
    if alias {
        applied_fixes.push(FixKind::DeviceAlias);
    }
    if anchored {
        applied_fixes.push(FixKind::ForwardSlashes);
    }
    assert(applied_fixes@ =~= spec_fixes(command@));
    if applied_fixes.len() == 0 {
        FixOutcome::NoChange
    } else {
        FixOutcome::Changed { new_command, applied_fixes }
    }
}

} // verus!
