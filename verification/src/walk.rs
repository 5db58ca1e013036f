//! What a walk through the matches is, told by counting equal bytes.

use crate::control::Control;
use crate::index::extent;
use crate::model::{
    bisect, controls_from, followed, follows, match_at, next_match, next_match_is_in_range, rest,
    shrink, shrink_is_in_range, skip_len, step, step_moves_on, step_to, verdict, Anchor, Task,
    Verdict,
};
use crate::similar::{
    agreements, divide_at, divide_at_is_first_maximum, preference, shorter, similar_len,
    similar_len_is_first_maximum, similarity,
};
use vstd::prelude::*;

verus! {

/// How many of the `n` bytes at `q` in `t` are the bytes at `p` and behind in `s`. What lies
/// outside of `s` is no byte's equal.
pub open spec fn alike(s: Seq<u8>, p: int, t: Seq<u8>, q: int, n: int) -> int {
    if n <= 0 {
        0
    } else {
        Seq::new(n as nat, |k: int| k).filter(
            |k: int| 0 <= p + k < s.len() && s[p + k] == t[q + k],
        ).len() as int
    }
}

/// The same for the `n` bytes that end at `q` in `t` and at `p` in `s`.
pub open spec fn alike_before(s: Seq<u8>, p: int, t: Seq<u8>, q: int, n: int) -> int {
    alike(s, p - n, t, q - n, n)
}

/// Of the bytes that follow `p` in `s` and `q` in `t`, at most `g` of them, `x` is the least
/// number with the most equal over differing ones.
pub open spec fn best_after(s: Seq<u8>, p: int, t: Seq<u8>, q: int, g: int, x: int) -> bool {
    &&& 0 <= x <= g
    &&& p + x <= s.len()
    &&& forall|k: int|
        0 <= k <= g && p + k <= s.len() ==> {
            &&& 2 * (#[trigger] alike(s, p, t, q, k)) - k <= 2 * alike(s, p, t, q, x) - x
            &&& k < x ==> 2 * alike(s, p, t, q, k) - k < 2 * alike(s, p, t, q, x) - x
        }
}

/// Of the bytes that precede `p` in `s` and `q` in `t`, at most `g` of them, `y` is the least
/// number with the most equal over differing ones.
pub open spec fn best_before(s: Seq<u8>, p: int, t: Seq<u8>, q: int, g: int, y: int) -> bool {
    &&& 0 <= y <= g
    &&& y <= p
    &&& forall|k: int|
        0 <= k <= g && k <= p ==> {
            &&& 2 * (#[trigger] alike_before(s, p, t, q, k)) - k <= 2 * alike_before(s, p, t, q, y)
                - y
            &&& k < y ==> 2 * alike_before(s, p, t, q, k) - k < 2 * alike_before(s, p, t, q, y) - y
        }
}

/// Of `n` bytes at `q` in `t`, `d` is the least number for which the bytes at `p` in `ys` agree
/// most often where those at `r` in `zs` do not.
pub open spec fn best_cut(
    ys: Seq<u8>,
    p: int,
    zs: Seq<u8>,
    r: int,
    t: Seq<u8>,
    q: int,
    n: int,
    d: int,
) -> bool {
    &&& 0 <= d <= n
    &&& forall|k: int|
        0 <= k <= n ==> {
            &&& #[trigger] alike(ys, p, t, q, k) - alike(zs, r, t, q, k) <= alike(ys, p, t, q, d)
                - alike(zs, r, t, q, d)
            &&& k < d ==> alike(ys, p, t, q, k) - alike(zs, r, t, q, k) < alike(ys, p, t, q, d)
                - alike(zs, r, t, q, d)
        }
}

/// One more byte counts if it is equal.
pub proof fn alike_counts_last(s: Seq<u8>, p: int, t: Seq<u8>, q: int, n: int)
    requires
        n > 0,
    ensures
        alike(s, p, t, q, n) == alike(s, p, t, q, n - 1) + if 0 <= p + (n - 1) < s.len() && s[p + (n
            - 1)] == t[q + (n - 1)] {
            1int
        } else {
            0
        },
{
    reveal(Seq::filter);
    let ks = Seq::new(n as nat, |k: int| k);
    assert(ks.drop_last() =~= Seq::new((n - 1) as nat, |k: int| k));
    assert(ks.last() == n - 1);
}

/// A byte at the front counts if it is equal.
pub proof fn alike_counts_first(s: Seq<u8>, p: int, t: Seq<u8>, q: int, n: int)
    requires
        n > 0,
    ensures
        alike(s, p, t, q, n) == alike(s, p + 1, t, q + 1, n - 1) + if 0 <= p < s.len() && s[p]
            == t[q] {
            1int
        } else {
            0
        },
    decreases n,
{
    alike_counts_last(s, p, t, q, n);
    if n > 1 {
        alike_counts_last(s, p + 1, t, q + 1, n - 1);
        alike_counts_first(s, p, t, q, n - 1);
    }
}

/// Agreeing positions of two strings are their equal bytes.
pub proof fn agreements_are_alike(xs: Seq<u8>, ys: Seq<u8>, n: int)
    requires
        0 <= n <= xs.len(),
        n <= ys.len(),
    ensures
        agreements(xs, ys, n) == alike(ys, 0, xs, 0, n),
    decreases n,
{
    if n > 0 {
        alike_counts_last(ys, 0, xs, 0, n);
        agreements_are_alike(xs, ys, n - 1);
    }
}

/// The same from the ends of both strings.
pub proof fn reversed_agreements_are_alike(xs: Seq<u8>, ys: Seq<u8>, n: int)
    requires
        0 <= n <= xs.len(),
        n <= ys.len(),
    ensures
        agreements(xs.reverse(), ys.reverse(), n) == alike_before(
            ys,
            ys.len() as int,
            xs,
            xs.len() as int,
            n,
        ),
    decreases n,
{
    if n > 0 {
        alike_counts_first(ys, ys.len() - n, xs, xs.len() - n, n);
        reversed_agreements_are_alike(xs, ys, n - 1);
    }
}

/// Equal bytes of parts are equal bytes of the wholes.
pub proof fn alike_in_whole(
    s: Seq<u8>,
    p: int,
    s1: Seq<u8>,
    p1: int,
    t: Seq<u8>,
    q: int,
    t1: Seq<u8>,
    q1: int,
    n: int,
)
    requires
        0 <= p1,
        p1 + n <= s1.len(),
        0 <= p,
        p + n <= s.len(),
        forall|k: int| p1 <= k < p1 + n ==> #[trigger] s1[k] == s[k + (p - p1)],
        forall|k: int| q1 <= k < q1 + n ==> #[trigger] t1[k] == t[k + (q - q1)],
    ensures
        alike(s1, p1, t1, q1, n) == alike(s, p, t, q, n),
    decreases n,
{
    if n > 0 {
        alike_counts_last(s, p, t, q, n);
        alike_counts_last(s1, p1, t1, q1, n);
        alike_in_whole(s, p, s1, p1, t, q, t1, q1, n - 1);
    }
}

/// The most similar length is the least number of bytes with the most equal over differing ones.
pub proof fn similar_len_is_best(xs: Seq<u8>, ys: Seq<u8>)
    ensures
        ({
            let n = shorter(xs.len() as int, ys.len() as int);
            &&& best_after(ys, 0, xs, 0, xs.len() as int, similar_len(xs, ys, n))
            &&& best_before(
                ys,
                ys.len() as int,
                xs,
                xs.len() as int,
                xs.len() as int,
                similar_len(xs.reverse(), ys.reverse(), n),
            )
        }),
{
    let n = shorter(xs.len() as int, ys.len() as int);
    let (rx, ry) = (xs.reverse(), ys.reverse());
    let x = similar_len(xs, ys, n);
    let y = similar_len(rx, ry, n);
    similar_len_is_first_maximum(xs, ys, n);
    similar_len_is_first_maximum(rx, ry, n);
    agreements_are_alike(xs, ys, x);
    reversed_agreements_are_alike(xs, ys, y);
    assert forall|k: int| 0 <= k <= n implies {
        &&& 2 * (#[trigger] alike(ys, 0, xs, 0, k)) - k <= 2 * alike(ys, 0, xs, 0, x) - x
        &&& k < x ==> 2 * alike(ys, 0, xs, 0, k) - k < 2 * alike(ys, 0, xs, 0, x) - x
    } by {
        agreements_are_alike(xs, ys, k);
        assert(similarity(xs, ys, k) <= similarity(xs, ys, x));
    }
    let (p, q) = (ys.len() as int, xs.len() as int);
    assert forall|k: int| 0 <= k <= n implies {
        &&& 2 * (#[trigger] alike_before(ys, p, xs, q, k)) - k <= 2 * alike_before(ys, p, xs, q, y)
            - y
        &&& k < y ==> 2 * alike_before(ys, p, xs, q, k) - k < 2 * alike_before(ys, p, xs, q, y) - y
    } by {
        reversed_agreements_are_alike(xs, ys, k);
        assert(similarity(rx, ry, k) <= similarity(rx, ry, y));
    }
}

/// The dividing point is the least number of bytes for which `ys` agrees most often where `zs`
/// does not.
pub proof fn divide_at_is_best(xs: Seq<u8>, ys: Seq<u8>, zs: Seq<u8>, n: int)
    requires
        0 <= n <= xs.len(),
        n <= ys.len(),
        n <= zs.len(),
    ensures
        best_cut(ys, 0, zs, 0, xs, 0, n, divide_at(xs, ys, zs, n)),
{
    let d = divide_at(xs, ys, zs, n);
    divide_at_is_first_maximum(xs, ys, zs, n);
    agreements_are_alike(xs, ys, d);
    agreements_are_alike(xs, zs, d);
    assert forall|k: int| 0 <= k <= n implies {
        &&& #[trigger] alike(ys, 0, xs, 0, k) - alike(zs, 0, xs, 0, k) <= alike(ys, 0, xs, 0, d)
            - alike(zs, 0, xs, 0, d)
        &&& k < d ==> alike(ys, 0, xs, 0, k) - alike(zs, 0, xs, 0, k) < alike(ys, 0, xs, 0, d)
            - alike(zs, 0, xs, 0, d)
    } by {
        agreements_are_alike(xs, ys, k);
        agreements_are_alike(xs, zs, k);
        assert(preference(xs, ys, zs, k) <= preference(xs, ys, zs, d));
    }
}

/// The gap between the anchor and a match at `i` and `j` is used from both ends. `x` bytes are
/// most like what follows the anchor, `y` bytes are most like what precedes the match. Both are
/// used in full where there is room. Where they overlap the whole gap is used, and cut at the
/// first point up to which the anchor's side is the more alike.
pub open spec fn used_from_both_ends(
    task: Task,
    a: Anchor,
    i: int,
    j: int,
    x: int,
    y: int,
    after: int,
    b: int,
) -> bool {
    let (s, t) = (task.s, task.t);
    let (p, q) = (a.i + a.n, a.j + a.n);
    let g = j - q;
    &&& best_after(s, p, t, q, g, x)
    &&& best_before(s, i, t, j, g, y)
    &&& if x + y <= g {
        after == x && b == y
    } else {
        &&& after + b == g
        &&& best_cut(s, p + (g - y), s, i - y, t, j - y, x + y - g, after - (g - y))
    }
}

/// `after` and `b` bytes of the gap between the anchor and a match at `i` and `j` are similar to
/// what follows the anchor and to what precedes the match.
pub open spec fn gap_is_shrunk(
    task: Task,
    a: Anchor,
    i: int,
    j: int,
    after: int,
    b: int,
) -> bool {
    exists|x: int, y: int| used_from_both_ends(task, a, i, j, x, y, after, b)
}

/// Shrinking uses a gap from both ends.
pub proof fn shrink_uses_both_ends(task: Task, a: Anchor, i: int, j: int)
    requires
        a.valid(task),
        a.j + a.n <= j <= task.t.len(),
        0 <= i <= task.s.len(),
    ensures
        gap_is_shrunk(task, a, i, j, shrink(task, a, i, j).0, shrink(task, a, i, j).1),
{
    let (s, t) = (task.s, task.t);
    let (p, q) = (a.i + a.n, a.j + a.n);
    let g = j - q;
    let gap = t.subrange(q, j);
    let suffix = s.skip(p);
    let prefix = s.take(i);
    let x = similar_len(gap, suffix, shorter(g, suffix.len() as int));
    let y = similar_len(gap.reverse(), prefix.reverse(), shorter(g, prefix.len() as int));
    similar_len_is_best(gap, suffix);
    similar_len_is_best(gap, prefix);
    alike_in_whole(s, p, suffix, 0, t, q, gap, 0, x);
    assert forall|k: int| 0 <= k <= g && p + k <= s.len() implies {
        &&& 2 * (#[trigger] alike(s, p, t, q, k)) - k <= 2 * alike(s, p, t, q, x) - x
        &&& k < x ==> 2 * alike(s, p, t, q, k) - k < 2 * alike(s, p, t, q, x) - x
    } by {
        alike_in_whole(s, p, suffix, 0, t, q, gap, 0, k);
    }
    alike_in_whole(s, i - y, prefix, i - y, t, j - y, gap, g - y, y);
    assert forall|k: int| 0 <= k <= g && k <= i implies {
        &&& 2 * (#[trigger] alike_before(s, i, t, j, k)) - k <= 2 * alike_before(s, i, t, j, y) - y
        &&& k < y ==> 2 * alike_before(s, i, t, j, k) - k < 2 * alike_before(s, i, t, j, y) - y
    } by {
        alike_in_whole(s, i - k, prefix, i - k, t, j - k, gap, g - k, k);
        assert(alike_before(prefix, i, gap, g, k) == alike_before(s, i, t, j, k));
    }
    if x + y > g {
        let n = x + y - g;
        let xs = gap.subrange(g - y, x);
        let ys = suffix.subrange(g - y, x);
        let zs = prefix.subrange(i - y, i - y + n);
        let d = divide_at(xs, ys, zs, n);
        divide_at_is_best(xs, ys, zs, n);
        alike_in_whole(s, p + (g - y), ys, 0, t, j - y, xs, 0, d);
        alike_in_whole(s, i - y, zs, 0, t, j - y, xs, 0, d);
        assert forall|k: int| 0 <= k <= n implies {
            &&& #[trigger] alike(s, p + (g - y), t, j - y, k) - alike(s, i - y, t, j - y, k)
                <= alike(s, p + (g - y), t, j - y, d) - alike(s, i - y, t, j - y, d)
            &&& k < d ==> alike(s, p + (g - y), t, j - y, k) - alike(s, i - y, t, j - y, k) < alike(
                s,
                p + (g - y),
                t,
                j - y,
                d,
            ) - alike(s, i - y, t, j - y, d)
        } by {
            alike_in_whole(s, p + (g - y), ys, 0, t, j - y, xs, 0, k);
            alike_in_whole(s, i - y, zs, 0, t, j - y, xs, 0, k);
            assert(alike(ys, 0, xs, 0, k) - alike(zs, 0, xs, 0, k) <= alike(ys, 0, xs, 0, d)
                - alike(zs, 0, xs, 0, d));
        }
    }
    let (after, b) = shrink(task, a, i, j);
    assert(used_from_both_ends(task, a, i, j, x, y, after, b));
}

/// The longest match for the target from `j + z` on ends where the match of `n` bytes at `i` and
/// `j` ends.
pub open spec fn ends_alike(task: Task, i: int, j: int, n: int, z: int) -> bool {
    let (iz, nz) = extent(task.s, task.t.skip(j + z));
    iz + nz == i + n && z + nz == n
}

/// A search from the anchor has no use for the longest match at `j`, and goes on at `next`: at the
/// next byte if nothing matches, behind the match if that is small or all predicted by the anchor,
/// and inside the match if too few bytes differ from what the anchor predicts. In a long match it
/// goes on where the longest match no longer ends as this one does.
pub open spec fn passes_on(task: Task, a: Anchor, j: int, next: int) -> bool {
    let (i, n) = extent(task.s, task.t.skip(j));
    let m = alike(task.s, a.i + (j - a.j), task.t, j, n);
    &&& j + task.small < task.t.len()
    &&& if n == 0 {
        next == j + 1
    } else if n <= task.small || n == m {
        next == j + n
    } else {
        &&& n - m <= task.dismat
        &&& j < next <= j + n
        &&& n <= task.longsuf ==> next == j + 1
        &&& n > task.longsuf ==> ends_alike(task, i, j, n, next - j - 1)
        &&& n > task.longsuf && next < j + n ==> !ends_alike(task, i, j, n, next - j)
    }
}

/// The longest match at `j` is worth leaving the anchor for: it is not small, and enough bytes
/// differ from what the anchor predicts.
pub open spec fn is_worthwhile(task: Task, a: Anchor, j: int) -> bool {
    let (i, n) = extent(task.s, task.t.skip(j));
    &&& j + task.small < task.t.len()
    &&& n > task.small
    &&& n - alike(task.s, a.i + (j - a.j), task.t, j, n) > task.dismat
}

/// A search from the anchor visits the positions of `trace`, the first of them `j`, passes on from
/// each to the next, and ends at the last: with a worthwhile match there, or with the ends of both
/// files if what is left of the target is too short for one.
pub open spec fn found_along(
    task: Task,
    a: Anchor,
    j: int,
    found: (int, int, int),
    trace: Seq<int>,
) -> bool {
    &&& trace.len() > 0
    &&& trace[0] == j
    &&& forall|q: int|
        #![trigger trace[q]]
        0 <= q < trace.len() - 1 ==> passes_on(task, a, trace[q], trace[q + 1])
    &&& if trace.last() + task.small >= task.t.len() {
        found == (task.s.len() as int, task.t.len() as int, 0int)
    } else {
        let (i, n) = extent(task.s, task.t.skip(trace.last()));
        &&& is_worthwhile(task, a, trace.last())
        &&& found == (i, trace.last(), n)
    }
}

/// A search from the anchor, begun at `j`, finds this.
pub open spec fn is_found(task: Task, a: Anchor, j: int, found: (int, int, int)) -> bool {
    exists|trace: Seq<int>| found_along(task, a, j, found, trace)
}

/// Counting what continues the anchor's match is counting equal bytes.
pub proof fn followed_are_alike(task: Task, a: Anchor, from: int, to: int)
    requires
        0 <= a.i,
        a.j <= from,
    ensures
        followed(task, a, from, to) == alike(
            task.s,
            a.i + (from - a.j),
            task.t,
            from,
            to - from,
        ),
    decreases to - from,
{
    if from < to {
        alike_counts_last(task.s, a.i + (from - a.j), task.t, from, to - from);
        followed_are_alike(task, a, from, to - 1);
        let p = a.i + (from - a.j);
        assert(p + (to - from - 1) == a.i + (to - 1 - a.j));
        assert(follows(task, a, to - 1) <==> 0 <= p + (to - from - 1) < task.s.len() && task.s[p + (
        to - from - 1)] == task.t[from + (to - from - 1)]);
    }
}

/// A bisection ends between a place where the longest match ends alike and one where it does not,
/// if its bounds are such.
pub proof fn bisect_finds_turn(task: Task, i: int, j: int, n: int, x: int, y: int)
    requires
        x <= y,
        x > 0 ==> ends_alike(task, i, j, n, x - 1),
        y < n ==> !ends_alike(task, i, j, n, y),
    ensures
        ({
            let z = bisect(task, i, j, n, x, y);
            &&& x <= z <= y
            &&& z > 0 ==> ends_alike(task, i, j, n, z - 1)
            &&& z < n ==> !ends_alike(task, i, j, n, z)
        }),
    decreases y - x,
{
    if x < y {
        let z = x + (y - x) / 2;
        if ends_alike(task, i, j, n, z) {
            bisect_finds_turn(task, i, j, n, z + 1, y);
        } else {
            bisect_finds_turn(task, i, j, n, x, z);
        }
    }
}

/// The next match is what a search finds that leaves out nothing worthwhile: it only passes on
/// from positions without a worthwhile match, never further than it may, and gives up only at the
/// end of the target.
pub proof fn next_match_is_found(task: Task, a: Anchor, j: int)
    requires
        0 <= a.i,
        0 <= a.j <= j <= task.t.len(),
    ensures
        is_found(task, a, j, next_match(task, a, j)),
    decreases task.t.len() - j,
{
    let found = next_match(task, a, j);
    if j + task.small >= task.t.len() {
        assert(found_along(task, a, j, found, seq![j]));
    } else {
        let (i, n) = match_at(task, j);
        let m = followed(task, a, j, j + n);
        followed_are_alike(task, a, j, j + n);
        let v = verdict(n, m, task.small, task.dismat);
        if v == Verdict::Taken {
            assert(found_along(task, a, j, found, seq![j]));
        } else {
            let next = match v {
                Verdict::Nothing => j + 1,
                Verdict::Dull => j + n,
                _ => j + skip_len(task, i, j, n),
            };
            if v == Verdict::Similar && n > task.longsuf {
                bisect_finds_turn(task, i, j, n, 0, n);
                assert(ends_alike(task, i, j, n, 0));
            }
            assert(passes_on(task, a, j, next));
            next_match_is_found(task, a, next);
            let rest = choose|trace: Seq<int>| found_along(task, a, next, found, trace);
            let trace = seq![j] + rest;
            assert forall|q: int|
                #![trigger trace[q]]
                0 <= q < trace.len() - 1 implies passes_on(task, a, trace[q], trace[q + 1]) by {
                if q > 0 {
                    assert(trace[q] == rest[q - 1]);
                    assert(trace[q + 1] == rest[q]);
                }
            }
            assert(trace.last() == rest.last());
            assert(found_along(task, a, j, found, trace));
        }
    }
}

/// The record uses the bytes before, in and behind the anchor's match and the similar bytes that
/// follow it (`after` of them) for delta data, the rest of the gap for extra data, and then moves,
/// forward or backward, to the similar bytes before the next match.
pub open spec fn spans_gap(task: Task, a: Anchor, c: Control, next: Anchor, after: int) -> bool {
    &&& gap_is_shrunk(task, a, next.i, next.j, after, next.b)
    &&& c.add == a.b + a.n + after
    &&& c.copy == (next.j - next.b) - (a.j + a.n + after)
    &&& c.seek == (next.i - next.b) - (a.i + a.n + after)
}

/// The record leads from one anchor to the next.
pub open spec fn leads_to(task: Task, a: Anchor, c: Control, next: Anchor) -> bool {
    exists|after: int| spans_gap(task, a, c, next, after)
}

/// The next anchor is the match that a search from the anchor finds, and the record leads there.
pub open spec fn is_step(task: Task, a: Anchor, c: Control, next: Anchor) -> bool {
    &&& is_found(task, a, a.j + a.n, (next.i, next.j, next.n))
    &&& leads_to(task, a, c, next)
}

/// At `path[q]` something is left to write, and `ctrls[q]` leads one step on.
pub open spec fn walks_on(task: Task, ctrls: Seq<Control>, path: Seq<Anchor>, q: int) -> bool {
    &&& path[q].j < task.t.len() || path[q].b > 0
    &&& is_step(task, path[q], ctrls[q], path[q + 1])
}

/// The records lead along the anchors of `path`, from the first one to the end of the target, one
/// step each.
pub open spec fn walks_along(
    task: Task,
    a: Anchor,
    ctrls: Seq<Control>,
    path: Seq<Anchor>,
) -> bool {
    &&& path.len() == ctrls.len() + 1
    &&& path[0] == a
    &&& path.last().j == task.t.len()
    &&& path.last().b == 0
    &&& forall|q: int| 0 <= q < ctrls.len() ==> #[trigger] walks_on(task, ctrls, path, q)
}

/// The records lead from the anchor through all matches to the end of the target.
pub open spec fn is_walk(task: Task, a: Anchor, ctrls: Seq<Control>) -> bool {
    exists|path: Seq<Anchor>| walks_along(task, a, ctrls, path)
}

/// The records lead from the beginning of both files through all matches to the end of the
/// target, and the last one back to the beginning of the source.
pub open spec fn is_round_trip(task: Task, ctrls: Seq<Control>) -> bool {
    &&& ctrls.len() > 0
    &&& ctrls.last().add == 0
    &&& ctrls.last().copy == 0
    &&& ctrls.last().seek == -(task.s.len() as int)
    &&& is_walk(task, Anchor { i: 0, j: 0, n: 0, b: 0 }, ctrls.drop_last())
}

/// Settling on a match makes it the next anchor, wherever it lies in the source, and the record
/// leads there.
pub proof fn step_to_leads_there(task: Task, a: Anchor, i: int, j: int, n: int)
    requires
        task.valid(),
        a.valid(task),
        a.j + a.n <= j,
        0 <= i,
        0 <= n,
        i + n <= task.s.len(),
        j + n <= task.t.len(),
    ensures
        ({
            let (c, next) = step_to(task, a, i, j, n);
            &&& leads_to(task, a, c, next)
            &&& (next.i, next.j, next.n) == (i, j, n)
        }),
{
    let (c, next) = step_to(task, a, i, j, n);
    let after = shrink(task, a, i, j).0;
    shrink_uses_both_ends(task, a, i, j);
    shrink_is_in_range(task, a, i, j);
    assert(spans_gap(task, a, c, next, after));
}

/// A step leads to the match that the search finds.
pub proof fn step_leads_to_found(task: Task, a: Anchor)
    requires
        task.valid(),
        a.valid(task),
    ensures
        is_step(task, a, step(task, a).0, step(task, a).1),
{
    let (i, j, n) = next_match(task, a, a.j + a.n);
    next_match_is_found(task, a, a.j + a.n);
    next_match_is_in_range(task, a, a.j + a.n);
    step_to_leads_there(task, a, i, j, n);
}

/// The control records behind an anchor lead through all matches to the end of the target.
pub proof fn controls_from_walk(task: Task, a: Anchor)
    requires
        task.valid(),
        a.valid(task),
    ensures
        is_walk(task, a, controls_from(task, a)),
    decreases
            rest(task, a),
            if a.j == task.t.len() {
                0int
            } else {
                1
            },
            a.b,
{
    let ctrls = controls_from(task, a);
    if a.finished(task) {
        assert(walks_along(task, a, ctrls, seq![a]));
    } else {
        let (c, next) = step(task, a);
        let tail = controls_from(task, next);
        step_moves_on(task, a);
        step_leads_to_found(task, a);
        controls_from_walk(task, next);
        step_before_walk(task, a, c, next, tail);
    }
}

/// A step before a walk makes a walk.
proof fn step_before_walk(task: Task, a: Anchor, c: Control, next: Anchor, tail: Seq<Control>)
    requires
        a.j < task.t.len() || a.b > 0,
        is_step(task, a, c, next),
        is_walk(task, next, tail),
    ensures
        is_walk(task, a, seq![c] + tail),
{
    let ctrls = seq![c] + tail;
    let behind = choose|path: Seq<Anchor>| walks_along(task, next, tail, path);
    let path = seq![a] + behind;
    assert forall|q: int| 0 <= q < ctrls.len() implies #[trigger] walks_on(
        task,
        ctrls,
        path,
        q,
    ) by {
        if q > 0 {
            assert(walks_on(task, tail, behind, q - 1));
            assert(ctrls[q] == tail[q - 1]);
            assert(path[q] == behind[q - 1]);
            assert(path[q + 1] == behind[q]);
        }
    }
    assert(path.last() == behind.last());
    assert(walks_along(task, a, ctrls, path));
}

/// Behind the first anchor of a walk there is no small match: an anchor is longer than the
/// threshold, or the end of both files.
pub proof fn walk_takes_no_small_match(
    task: Task,
    a: Anchor,
    ctrls: Seq<Control>,
    path: Seq<Anchor>,
    q: int,
)
    requires
        walks_along(task, a, ctrls, path),
        0 < q < path.len(),
    ensures
        path[q].n > task.small || (path[q].n == 0 && path[q].i == task.s.len() && path[q].j
            == task.t.len()),
{
    let last = path[q - 1];
    let found = (path[q].i, path[q].j, path[q].n);
    assert(walks_on(task, ctrls, path, q - 1));
    let j = last.j + last.n;
    assert(is_found(task, last, j, found));
}

/// Where a worthwhile match stands right behind the anchor, the first record of a walk leads
/// there, and wastes nothing of the target on the way.
pub proof fn walk_takes_first_match(task: Task, a: Anchor, ctrls: Seq<Control>)
    requires
        a.valid(task),
        is_walk(task, a, ctrls),
        is_worthwhile(task, a, a.j + a.n),
    ensures
        ctrls.len() > 0,
        ctrls[0].add == a.b + a.n,
        ctrls[0].copy == 0,
        a.i + a.n + ctrls[0].seek == extent(task.s, task.t.skip(a.j + a.n)).0,
{
    let path = choose|path: Seq<Anchor>| walks_along(task, a, ctrls, path);
    let j = a.j + a.n;
    assert(a.j < task.t.len());
    let next = path[1];
    let found = (next.i, next.j, next.n);
    assert(ctrls.len() > 0);
    assert(walks_on(task, ctrls, path, 0));
    let trace = choose|trace: Seq<int>| found_along(task, a, j, found, trace);
    assert(trace.len() == 1) by {
        if trace.len() > 1 {
            assert(passes_on(task, a, trace[0], trace[1]));
        }
    }
    let after = choose|after: int| spans_gap(task, a, ctrls[0], next, after);
    let (x, y) = choose|x: int, y: int|
        used_from_both_ends(task, a, next.i, next.j, x, y, after, next.b);
    assert(x == 0 && y == 0);
}

} // verus!
