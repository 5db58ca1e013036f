//! Scores that decide how far two byte strings count as similar.

use crate::walk::{best_after, best_before, best_cut, divide_at_is_best, similar_len_is_best};
use vstd::prelude::*;

verus! {

/// The bytes in the order in which a scan meets them.
pub open spec fn facing(xs: Seq<u8>, backward: bool) -> Seq<u8> {
    if backward {
        xs.reverse()
    } else {
        xs
    }
}

/// How many of the first `n` positions hold the same byte in `xs` and `ys`.
pub open spec fn agreements(xs: Seq<u8>, ys: Seq<u8>, n: int) -> int
    decreases n,
{
    if n <= 0 {
        0
    } else {
        agreements(xs, ys, n - 1) + if xs[n - 1] == ys[n - 1] {
            1int
        } else {
            0
        }
    }
}

/// Agreeing minus differing positions among the first `n`.
pub open spec fn similarity(xs: Seq<u8>, ys: Seq<u8>, n: int) -> int {
    agreements(xs, ys, n) - (n - agreements(xs, ys, n))
}

/// The shortest length, up to `n`, at which the similarity is greatest.
pub open spec fn similar_len(xs: Seq<u8>, ys: Seq<u8>, n: int) -> int
    decreases n,
{
    if n <= 0 {
        0
    } else {
        let best = similar_len(xs, ys, n - 1);
        if similarity(xs, ys, n) > similarity(xs, ys, best) {
            n
        } else {
            best
        }
    }
}

/// How much better `ys` than `zs` agrees with `xs` on the first `n` positions.
pub open spec fn preference(xs: Seq<u8>, ys: Seq<u8>, zs: Seq<u8>, n: int) -> int {
    agreements(xs, ys, n) - agreements(xs, zs, n)
}

/// The shortest length, up to `n`, at which the preference for `ys` is greatest.
pub open spec fn divide_at(xs: Seq<u8>, ys: Seq<u8>, zs: Seq<u8>, n: int) -> int
    decreases n,
{
    if n <= 0 {
        0
    } else {
        let best = divide_at(xs, ys, zs, n - 1);
        if preference(xs, ys, zs, n) > preference(xs, ys, zs, best) {
            n
        } else {
            best
        }
    }
}

/// The smaller of two lengths.
pub open spec fn shorter(a: int, b: int) -> int {
    if a <= b {
        a
    } else {
        b
    }
}

/// No length up to `n` is more similar than `similar_len`, and every shorter one is less so.
pub proof fn similar_len_is_first_maximum(xs: Seq<u8>, ys: Seq<u8>, n: int)
    requires
        0 <= n,
    ensures
        0 <= similar_len(xs, ys, n) <= n,
        forall|k: int|
            0 <= k <= n ==> #[trigger] similarity(xs, ys, k) <= similarity(
                xs,
                ys,
                similar_len(xs, ys, n),
            ),
        forall|k: int|
            0 <= k < similar_len(xs, ys, n) ==> #[trigger] similarity(xs, ys, k) < similarity(
                xs,
                ys,
                similar_len(xs, ys, n),
            ),
    decreases n,
{
    if n > 0 {
        similar_len_is_first_maximum(xs, ys, n - 1);
    }
}

/// No length up to `n` prefers `ys` more than `divide_at`, and every shorter one does less.
pub proof fn divide_at_is_first_maximum(xs: Seq<u8>, ys: Seq<u8>, zs: Seq<u8>, n: int)
    requires
        0 <= n,
    ensures
        0 <= divide_at(xs, ys, zs, n) <= n,
        forall|k: int|
            0 <= k <= n ==> #[trigger] preference(xs, ys, zs, k) <= preference(
                xs,
                ys,
                zs,
                divide_at(xs, ys, zs, n),
            ),
        forall|k: int|
            0 <= k < divide_at(xs, ys, zs, n) ==> #[trigger] preference(xs, ys, zs, k)
                < preference(xs, ys, zs, divide_at(xs, ys, zs, n)),
    decreases n,
{
    if n > 0 {
        divide_at_is_first_maximum(xs, ys, zs, n - 1);
    }
}

/// Scans for the data length of the max similarity, from the front of both strings or,
/// `backward`, from the end of both.
pub fn scan_similar(xs: &[u8], ys: &[u8], backward: bool) -> (len: usize)
    ensures
        len == similar_len(
            facing(xs@, backward),
            facing(ys@, backward),
            shorter(xs@.len() as int, ys@.len() as int),
        ),
        !backward ==> best_after(ys@, 0, xs@, 0, xs@.len() as int, len as int),
        backward ==> best_before(
            ys@,
            ys@.len() as int,
            xs@,
            xs@.len() as int,
            xs@.len() as int,
            len as int,
        ),
{
    let count: usize = if xs.len() <= ys.len() {
        xs.len()
    } else {
        ys.len()
    };
    let ghost fx = facing(xs@, backward);
    let ghost fy = facing(ys@, backward);
    let mut i: usize = 0;
    let mut matched: usize = 0;
    let mut max_score: i128 = 0;
    let mut n: usize = 0;
    while n < count
        invariant
            0 <= n <= count,
            count <= xs@.len(),
            count <= ys@.len(),
            fx == facing(xs@, backward),
            fy == facing(ys@, backward),
            matched == agreements(fx, fy, n as int),
            matched <= n,
            i == similar_len(fx, fy, n as int),
            i <= n,
            max_score == similarity(fx, fy, i as int),
        decreases count - n,
    {
        let eq = if backward {
            xs[xs.len() - 1 - n] == ys[ys.len() - 1 - n]
        } else {
            xs[n] == ys[n]
        };
        n = n + 1;
        if eq {
            matched = matched + 1;
        }
        let dismatched: usize = n - matched;
        let score: i128 = matched as i128 - dismatched as i128;
        if score > max_score {
            i = n;
            max_score = score;
        }
    }
    proof {
        similar_len_is_best(xs@, ys@);
    }
    i
}

/// Scans for the dividing point of the overlapping.
pub fn scan_divide(xs: &[u8], ys: &[u8], zs: &[u8]) -> (len: usize)
    ensures
        len == divide_at(
            xs@,
            ys@,
            zs@,
            shorter(shorter(xs@.len() as int, ys@.len() as int), zs@.len() as int),
        ),
        forall|n: int|
            n <= xs@.len() && n <= ys@.len() && n <= zs@.len() && (n == xs@.len() || n == ys@.len()
                || n == zs@.len()) ==> #[trigger] best_cut(
                ys@,
                0,
                zs@,
                0,
                xs@,
                0,
                n,
                len as int,
            ),
{
    let mut count: usize = if xs.len() <= ys.len() {
        xs.len()
    } else {
        ys.len()
    };
    if zs.len() < count {
        count = zs.len();
    }
    let mut i: usize = 0;
    let mut y_matched: usize = 0;
    let mut z_matched: usize = 0;
    let mut max_score: i128 = 0;
    let mut n: usize = 0;
    while n < count
        invariant
            0 <= n <= count,
            count <= xs@.len(),
            count <= ys@.len(),
            count <= zs@.len(),
            y_matched == agreements(xs@, ys@, n as int),
            z_matched == agreements(xs@, zs@, n as int),
            y_matched <= n,
            z_matched <= n,
            i == divide_at(xs@, ys@, zs@, n as int),
            i <= n,
            max_score == preference(xs@, ys@, zs@, i as int),
        decreases count - n,
    {
        let y_eq = xs[n] == ys[n];
        let z_eq = xs[n] == zs[n];
        n = n + 1;
        if y_eq {
            y_matched = y_matched + 1;
        }
        if z_eq {
            z_matched = z_matched + 1;
        }
        let score: i128 = y_matched as i128 - z_matched as i128;
        if score > max_score {
            i = n;
            max_score = score;
        }
    }
    proof {
        divide_at_is_best(xs@, ys@, zs@, count as int);
    }
    i
}

} // verus!
