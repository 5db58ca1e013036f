//! What the search for matches computes.

use crate::control::Control;
use crate::index::{extent, MAX_LENGTH};
use crate::patch::{fits, fits_join, moves_add_up, source_move, target_move};
use crate::similar::{
    divide_at, divide_at_is_first_maximum, shorter, similar_len, similar_len_is_first_maximum,
};
use vstd::prelude::*;

verus! {

/// What a search is about: the source `s`, the target `t`, and the three thresholds.
pub struct Task {
    pub s: Seq<u8>,
    pub t: Seq<u8>,
    pub small: nat,
    pub dismat: nat,
    pub longsuf: nat,
}

impl Task {
    /// The source can be indexed, and the target held in memory.
    pub open spec fn valid(self) -> bool {
        &&& self.s.len() <= MAX_LENGTH
        &&& self.t.len() <= usize::MAX
    }
}

/// The match that the search last settled on: `n` bytes at `i` in the source and at `j` in the
/// target, with `b` similar bytes before them.
pub struct Anchor {
    pub i: int,
    pub j: int,
    pub n: int,
    pub b: int,
}

impl Anchor {
    /// The anchor that every search starts from.
    pub open spec fn start() -> Anchor {
        Anchor { i: 0, j: 0, n: 0, b: 0 }
    }

    /// The match and its similar bytes lie in the source and in the target.
    pub open spec fn valid(self, task: Task) -> bool {
        &&& 0 <= self.b <= self.i
        &&& self.b <= self.j
        &&& 0 <= self.n
        &&& self.i + self.n <= task.s.len()
        &&& self.j + self.n <= task.t.len()
    }

    /// The match is exact: both files hold the same bytes there.
    pub open spec fn exact(self, task: Task) -> bool {
        task.s.subrange(self.i, self.i + self.n) == task.t.subrange(self.j, self.j + self.n)
    }

    /// The target is used up and nothing is left to write.
    pub open spec fn finished(self, task: Task) -> bool {
        self.j == task.t.len() && self.b == 0
    }
}

/// The longest match in the source for the target from `j` on: its place and its length.
pub open spec fn match_at(task: Task, j: int) -> (int, int) {
    extent(task.s, task.t.skip(j))
}

/// The target byte at `x` continues the anchor's match without a gap.
pub open spec fn follows(task: Task, a: Anchor, x: int) -> bool {
    &&& a.i + (x - a.j) < task.s.len()
    &&& task.s[a.i + (x - a.j)] == task.t[x]
}

/// How many target bytes in `from..to` continue the anchor's match.
pub open spec fn followed(task: Task, a: Anchor, from: int, to: int) -> int
    decreases to - from,
{
    if to <= from {
        0
    } else {
        followed(task, a, from, to - 1) + if follows(task, a, to - 1) {
            1int
        } else {
            0
        }
    }
}

/// What to do about a match.
#[derive(Clone, Copy, PartialEq, Eq, Structural, Debug)]
pub enum Verdict {
    /// Nothing matches: move on by one byte.
    Nothing,
    /// The match is small, or no better than what the anchor predicts: move on behind it.
    Dull,
    /// Too few bytes differ from what the anchor predicts: move on inside it.
    Similar,
    /// Leave the anchor for the match.
    Taken,
}

/// The verdict on a match of `n` bytes, where `m` bytes continue the anchor's match.
pub open spec fn verdict(n: int, m: int, small: nat, dismat: nat) -> Verdict {
    if n <= 0 {
        Verdict::Nothing
    } else if m == n || n <= small {
        Verdict::Dull
    } else if n <= m + dismat {
        Verdict::Similar
    } else {
        Verdict::Taken
    }
}

/// Bisects `x..y` for a place in the match of length `n` at `i` and `j` behind which the
/// longest match no longer ends where that match ends.
pub open spec fn bisect(task: Task, i: int, j: int, n: int, x: int, y: int) -> int
    decreases y - x,
{
    if x >= y {
        x
    } else {
        let z = x + (y - x) / 2;
        let (iz, nz) = match_at(task, j + z);
        if i + n == iz + nz && n == z + nz {
            bisect(task, i, j, n, z + 1, y)
        } else {
            bisect(task, i, j, n, x, z)
        }
    }
}

/// How far to move on from a match that is too similar to what the anchor predicts.
pub open spec fn skip_len(task: Task, i: int, j: int, n: int) -> int {
    if n <= task.longsuf {
        1
    } else {
        let x = bisect(task, i, j, n, 0, n);
        if x > 1 {
            x
        } else {
            1
        }
    }
}

/// The next match worth leaving the anchor for, at `j` or later: place in the source, place in
/// the target, length. Where none is left, the ends of both files stand for an empty match.
pub open spec fn next_match(task: Task, a: Anchor, j: int) -> (int, int, int)
    decreases
            if j < task.t.len() {
                task.t.len() - j
            } else {
                0
            },
{
    if j + task.small >= task.t.len() {
        (task.s.len() as int, task.t.len() as int, 0)
    } else {
        let (i, n) = match_at(task, j);
        match verdict(n, followed(task, a, j, j + n), task.small, task.dismat) {
            Verdict::Nothing => next_match(task, a, j + 1),
            Verdict::Dull => next_match(task, a, j + n),
            Verdict::Similar => next_match(task, a, j + skip_len(task, i, j, n)),
            Verdict::Taken => (i, j, n),
        }
    }
}

/// How many bytes of the gap between the anchor and the match at `i` and `j` are similar to
/// what continues the anchor, and to what precedes the match.
pub open spec fn shrink(task: Task, a: Anchor, i: int, j: int) -> (int, int) {
    let gap = task.t.subrange(a.j + a.n, j);
    let suffix = task.s.skip(a.i + a.n);
    let prefix = task.s.take(i);
    let after = similar_len(gap, suffix, shorter(gap.len() as int, suffix.len() as int));
    let before = similar_len(
        gap.reverse(),
        prefix.reverse(),
        shorter(gap.len() as int, prefix.len() as int),
    );
    if after + before <= gap.len() {
        (after, before)
    } else {
        // Bytes claimed from both sides go to the side that they are more similar to.
        let n = after + before - gap.len();
        let d = divide_at(
            gap.subrange(gap.len() - before, after),
            suffix.subrange(gap.len() - before, after),
            prefix.subrange(prefix.len() - before, prefix.len() - before + n),
            n,
        );
        (after - (n - d), before - d)
    }
}

/// The control record that leads from the anchor to a match of `n` bytes at `i` and `j`, and the
/// anchor that this match makes.
pub open spec fn step_to(task: Task, a: Anchor, i: int, j: int, n: int) -> (Control, Anchor) {
    let (after, b) = shrink(task, a, i, j);
    (
        Control {
            add: (a.b + a.n + after) as u64,
            copy: ((j - b) - (a.j + a.n + after)) as u64,
            seek: ((i - b) - (a.i + a.n + after)) as i64,
        },
        Anchor { i, j, n, b },
    )
}

/// The control record that leads from the anchor to the next match, and the next anchor.
pub open spec fn step(task: Task, a: Anchor) -> (Control, Anchor) {
    let (i, j, n) = next_match(task, a, a.j + a.n);
    step_to(task, a, i, j, n)
}

/// What is left of the target behind the anchor.
pub open spec fn rest(task: Task, a: Anchor) -> int {
    task.t.len() - (a.j + a.n)
}

/// The control records that lead from the anchor to the end of the target.
pub open spec fn controls_from(task: Task, a: Anchor) -> Seq<Control>
    decreases
            rest(task, a),
            if a.j == task.t.len() {
                0int
            } else {
                1
            },
            a.b,
    when task.valid() && a.valid(task)
{
    if a.finished(task) {
        seq![]
    } else {
        proof {
            step_moves_on(task, a);
        }
        let (c, next) = step(task, a);
        seq![c] + controls_from(task, next)
    }
}

/// Where a search from the anchor ends: at the ends of both files, or where it is if nothing is
/// left to write.
pub open spec fn last_anchor(task: Task, a: Anchor) -> Anchor {
    if a.finished(task) {
        a
    } else {
        Anchor { i: task.s.len() as int, j: task.t.len() as int, n: 0, b: 0 }
    }
}

/// The control records that turn the task's source into its target.
pub open spec fn controls(task: Task) -> Seq<Control> {
    controls_from(task, Anchor::start())
}

/// A bisection stays between its bounds.
pub proof fn bisect_stays_between(task: Task, i: int, j: int, n: int, x: int, y: int)
    requires
        x <= y,
    ensures
        x <= bisect(task, i, j, n, x, y) <= y,
    decreases y - x,
{
    if x < y {
        let z = x + (y - x) / 2;
        bisect_stays_between(task, i, j, n, z + 1, y);
        bisect_stays_between(task, i, j, n, x, z);
    }
}

/// The next match lies in both files, not before `j`; only the end of the target is empty.
pub proof fn next_match_is_in_range(task: Task, a: Anchor, j: int)
    requires
        0 <= j <= task.t.len(),
    ensures
        ({
            let (i, j1, n) = next_match(task, a, j);
            &&& 0 <= i
            &&& 0 <= n
            &&& i + n <= task.s.len()
            &&& j <= j1
            &&& j1 + n <= task.t.len()
            &&& n > 0 || (i == task.s.len() && j1 == task.t.len())
        }),
    decreases task.t.len() - j,
{
    if j + task.small < task.t.len() {
        let (i, n) = match_at(task, j);
        match verdict(n, followed(task, a, j, j + n), task.small, task.dismat) {
            Verdict::Nothing => next_match_is_in_range(task, a, j + 1),
            Verdict::Dull => next_match_is_in_range(task, a, j + n),
            Verdict::Similar => {
                bisect_stays_between(task, i, j, n, 0, n);
                next_match_is_in_range(task, a, j + skip_len(task, i, j, n));
            },
            Verdict::Taken => {},
        }
    }
}

/// The anchor is only left for the longest match at its place, which is longer than the threshold
/// for small matches and differs in more bytes than the threshold for dismatches from what the
/// anchor predicts, and not for one too close to the end of the target. The other outcome is the
/// end of the target.
pub proof fn next_match_is_worthwhile(task: Task, a: Anchor, j: int)
    ensures
        ({
            let (i, j1, n) = next_match(task, a, j);
            ||| {
                &&& (i, n) == match_at(task, j1)
                &&& n > task.small
                &&& n > followed(task, a, j1, j1 + n) + task.dismat
                &&& j1 + task.small < task.t.len()
            }
            ||| n == 0 && i == task.s.len() && j1 == task.t.len()
        }),
    decreases
            if j < task.t.len() {
                task.t.len() - j
            } else {
                0
            },
{
    if j + task.small < task.t.len() {
        let (i, n) = match_at(task, j);
        match verdict(n, followed(task, a, j, j + n), task.small, task.dismat) {
            Verdict::Nothing => next_match_is_worthwhile(task, a, j + 1),
            Verdict::Dull => next_match_is_worthwhile(task, a, j + n),
            Verdict::Similar => {
                next_match_is_worthwhile(task, a, j + skip_len(task, i, j, n));
            },
            Verdict::Taken => {},
        }
    }
}

/// A match that is longer than the threshold for small matches, and differs in more bytes than
/// the threshold for dismatches from what the anchor predicts, is taken where the search meets
/// it. With the first threshold zero no match is too small.
pub proof fn worthwhile_match_is_taken(task: Task, a: Anchor, j: int)
    requires
        j + task.small < task.t.len(),
        match_at(task, j).1 > task.small,
        match_at(task, j).1 > followed(task, a, j, j + match_at(task, j).1) + task.dismat,
    ensures
        next_match(task, a, j) == (match_at(task, j).0, j, match_at(task, j).1),
{
    let n = match_at(task, j).1;
    followed_counts(task, a, j, j + n);
}

/// Counts are never negative and never exceed what is counted over.
pub proof fn followed_counts(task: Task, a: Anchor, from: int, to: int)
    ensures
        0 <= followed(task, a, from, to),
        from <= to ==> followed(task, a, from, to) <= to - from,
    decreases to - from,
{
    if from < to {
        followed_counts(task, a, from, to - 1);
    }
}

/// The similar bytes lie in both files and do not overlap.
pub proof fn shrink_is_in_range(task: Task, a: Anchor, i: int, j: int)
    requires
        a.valid(task),
        a.j + a.n <= j <= task.t.len(),
        0 <= i <= task.s.len(),
    ensures
        ({
            let (after, b) = shrink(task, a, i, j);
            &&& 0 <= after
            &&& 0 <= b <= i
            &&& after + b <= j - (a.j + a.n)
            &&& a.i + a.n + after <= task.s.len()
        }),
{
    let gap = task.t.subrange(a.j + a.n, j);
    let suffix = task.s.skip(a.i + a.n);
    let prefix = task.s.take(i);
    similar_len_is_first_maximum(gap, suffix, shorter(gap.len() as int, suffix.len() as int));
    similar_len_is_first_maximum(
        gap.reverse(),
        prefix.reverse(),
        shorter(gap.len() as int, prefix.len() as int),
    );
    let after = similar_len(gap, suffix, shorter(gap.len() as int, suffix.len() as int));
    let before = similar_len(
        gap.reverse(),
        prefix.reverse(),
        shorter(gap.len() as int, prefix.len() as int),
    );
    if after + before > gap.len() {
        let n = after + before - gap.len();
        divide_at_is_first_maximum(
            gap.subrange(gap.len() - before, after),
            suffix.subrange(gap.len() - before, after),
            prefix.subrange(prefix.len() - before, prefix.len() - before + n),
            n,
        );
    }
}

/// A step ends at a valid anchor, closer to the end of the target, and its record leads there
/// exactly.
pub proof fn step_moves_on(task: Task, a: Anchor)
    requires
        task.valid(),
        a.valid(task),
        !a.finished(task),
    ensures
        ({
            let (c, next) = step(task, a);
            &&& next.valid(task)
            &&& a.j + a.n <= next.j - next.b
            &&& rest(task, next) <= rest(task, a)
            &&& rest(task, next) < rest(task, a) || next.j == task.t.len()
            &&& rest(task, next) < rest(task, a) || a.j < task.t.len() || (next.b == 0 && a.b > 0)
            &&& next.j == task.t.len() ==> next.i == task.s.len()
            &&& c.add >= a.b + a.n
            &&& (a.i - a.b) + c.add <= task.s.len()
            &&& (a.j - a.b) + c.add + c.copy == next.j - next.b
            &&& (a.i - a.b) + c.add + c.seek == next.i - next.b
        }),
{
    let (i, j, n) = next_match(task, a, a.j + a.n);
    next_match_is_in_range(task, a, a.j + a.n);
    shrink_is_in_range(task, a, i, j);
}

/// The control records behind an anchor fit both files, and lead to the end of both.
pub proof fn controls_from_reach_the_end(task: Task, a: Anchor)
    requires
        task.valid(),
        a.valid(task),
    ensures
        ({
            let ctrls = controls_from(task, a);
            &&& fits(task.s.len() as int, task.t.len() as int, a.i - a.b, a.j - a.b, ctrls)
            &&& (a.j - a.b) + target_move(ctrls) == task.t.len()
            &&& a.finished(task) ==> source_move(ctrls) == 0
            &&& !a.finished(task) ==> (a.i - a.b) + source_move(ctrls) == task.s.len()
        }),
    decreases
            rest(task, a),
            if a.j == task.t.len() {
                0int
            } else {
                1
            },
            a.b,
{
    if !a.finished(task) {
        let (c, next) = step(task, a);
        let tail = controls_from(task, next);
        step_moves_on(task, a);
        controls_from_reach_the_end(task, next);
        let head = seq![c];
        assert(head.drop_last() =~= seq![]);
        moves_add_up(head, tail);
        let (slen, tlen) = (task.s.len() as int, task.t.len() as int);
        reveal_with_fuel(fits, 2);
        reveal_with_fuel(source_move, 2);
        reveal_with_fuel(target_move, 2);
        assert(fits(slen, tlen, a.i - a.b, a.j - a.b, head));
        fits_join(slen, tlen, a.i - a.b, a.j - a.b, head, tail);
    }
}

/// The control records of a search fit both files, produce the whole target, and leave the
/// source position at the end of the source (or where it was, for an empty target).
pub proof fn controls_reach_the_end(task: Task)
    requires
        task.valid(),
    ensures
        fits(task.s.len() as int, task.t.len() as int, 0, 0, controls(task)),
        target_move(controls(task)) == task.t.len(),
        source_move(controls(task)) == if task.t.len() == 0 {
            0
        } else {
            task.s.len() as int
        },
{
    controls_from_reach_the_end(task, Anchor::start());
}

} // verus!
