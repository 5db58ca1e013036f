//! The delta compression algorithm based on suffix array (a variant of bsdiff 4.x).

use crate::control::Control;
use crate::index::{indexed_text, longest_match, occurs, occurs_at, MAX_LENGTH};
use crate::model::{
    bisect, bisect_stays_between, controls_from, followed, followed_counts, follows, last_anchor,
    match_at, next_match, next_match_is_in_range, rest, shrink, shrink_is_in_range, skip_len, step,
    step_moves_on, step_to, verdict, Anchor, Task, Verdict,
};
use crate::similar::{
    divide_at_is_first_maximum, scan_divide, scan_similar, shorter, similar_len_is_first_maximum,
};
use crate::walk::{
    controls_from_walk, gap_is_shrunk, is_found, is_step, is_walk, leads_to, next_match_is_found,
    shrink_uses_both_ends, step_leads_to_found, step_to_leads_there,
};
use suffix_array::SuffixArray;
use vstd::prelude::*;

verus! {

/// A search for the matches of a target in an indexed source, and how far it has come.
pub struct SaDiff<'s, 't> {
    s: &'s [u8],
    t: &'t [u8],
    sa: &'s SuffixArray<'s>,
    small: usize,
    dismat: usize,
    longsuf: usize,
    i0: usize,
    j0: usize,
    n0: usize,
    b0: usize,
}

impl<'s, 't> SaDiff<'s, 't> {
    /// What is searched for.
    pub closed spec fn task(&self) -> Task {
        Task {
            s: self.s@,
            t: self.t@,
            small: self.small as nat,
            dismat: self.dismat as nat,
            longsuf: self.longsuf as nat,
        }
    }

    /// The match that the search last settled on.
    pub closed spec fn anchor(&self) -> Anchor {
        Anchor {
            i: self.i0 as int,
            j: self.j0 as int,
            n: self.n0 as int,
            b: self.b0 as int,
        }
    }

    /// The index is that of the source, and the anchor is an exact match in both files.
    pub closed spec fn valid(&self) -> bool {
        &&& indexed_text(*self.sa) == Some(self.s@)
        &&& self.task().valid()
        &&& self.anchor().valid(self.task())
        &&& self.anchor().exact(self.task())
    }

    /// At every point of a search its task is valid, and its anchor is an exact match that lies
    /// in both files.
    pub proof fn search_keeps_exact_match(&self)
        requires
            self.valid(),
        ensures
            self.task().valid(),
            self.anchor().valid(self.task()),
            self.anchor().exact(self.task()),
    {
    }

    /// Creates new search context.
    pub fn new(
        s: &'s [u8],
        t: &'t [u8],
        sa: &'s SuffixArray<'s>,
        small: usize,
        dismat: usize,
        longsuf: usize,
    ) -> (diff: Self)
        requires
            indexed_text(*sa) == Some(s@),
            s@.len() <= MAX_LENGTH,
        ensures
            diff.valid(),
            diff.task() == (Task {
                s: s@,
                t: t@,
                small: small as nat,
                dismat: dismat as nat,
                longsuf: longsuf as nat,
            }),
            diff.anchor() == Anchor::start(),
    {
        assert(t.len() <= usize::MAX);
        assert(s@.subrange(0, 0) =~= t@.subrange(0, 0));
        SaDiff { s, t, sa, small, dismat, longsuf, i0: 0, j0: 0, n0: 0, b0: 0 }
    }

    fn previous_state(&self) -> (st: (usize, usize, usize, usize))
        ensures
            (Anchor { i: st.0 as int, j: st.1 as int, n: st.2 as int, b: st.3 as int })
                == self.anchor(),
    {
        (self.i0, self.j0, self.n0, self.b0)
    }

    fn update_state(&mut self, i0: usize, j0: usize, n0: usize, b0: usize)
        ensures
            final(self).anchor() == (Anchor {
                i: i0 as int,
                j: j0 as int,
                n: n0 as int,
                b: b0 as int,
            }),
            final(self).task() == old(self).task(),
            old(self).valid() && final(self).anchor().valid(old(self).task())
                && final(self).anchor().exact(old(self).task()) ==> final(self).valid(),
    {
        self.i0 = i0;
        self.j0 = j0;
        self.n0 = n0;
        self.b0 = b0;
    }

    /// Tells whether the target byte at `x` continues the previous match.
    fn continues(&self, x: usize) -> (yes: bool)
        requires
            self.valid(),
            self.anchor().j <= x < self.task().t.len(),
        ensures
            yes == follows(self.task(), self.anchor(), x as int),
    {
        let i: usize = self.i0.saturating_add(x - self.j0);
        i < self.s.len() && self.s[i] == self.t[x]
    }

    /// The longest match for the target from `j` on.
    fn longest_match_at(&self, j: usize) -> (ext: (usize, usize))
        requires
            self.valid(),
            j <= self.task().t.len(),
        ensures
            (ext.0 as int, ext.1 as int) == match_at(self.task(), j as int),
            ext.0 + ext.1 <= self.task().s.len(),
            j + ext.1 <= self.task().t.len(),
            forall|l: int|
                0 <= l <= self.task().t.len() - j && #[trigger] occurs(
                    self.task().s,
                    self.task().t.skip(j as int).take(l),
                ) ==> l <= ext.1,
            occurs_at(
                self.task().s,
                self.task().t.skip(j as int).take(ext.1 as int),
                ext.0 as int,
            ),
    {
        let pat = &self.t[j..self.t.len()];
        assert(pat@ == self.t@.skip(j as int));
        longest_match(self.sa, pat)
    }

    /// How far to move on from a match that is too similar to what the anchor predicts:
    /// one byte, or for a long match the distance that a bisection finds.
    fn skip_similar(&self, i: usize, j: usize, n: usize) -> (skip: usize)
        requires
            self.valid(),
            0 < n,
            i + n <= self.task().s.len(),
            j + n <= self.task().t.len(),
        ensures
            skip == skip_len(self.task(), i as int, j as int, n as int),
            1 <= skip <= n,
    {
        if n <= self.longsuf {
            return 1;
        }
        let mut x: usize = 0;
        let mut y: usize = n;
        proof {
            bisect_stays_between(self.task(), i as int, j as int, n as int, 0, n as int);
        }
        while x < y
            invariant
                self.valid(),
                i + n <= self.task().s.len(),
                j + n <= self.task().t.len(),
                x <= y <= n,
                bisect(self.task(), i as int, j as int, n as int, x as int, y as int) == bisect(
                    self.task(),
                    i as int,
                    j as int,
                    n as int,
                    0,
                    n as int,
                ),
            decreases y - x,
        {
            let z: usize = x + (y - x) / 2;
            let (iz, nz) = self.longest_match_at(j + z);
            if i + n == iz + nz && j + n == j + z + nz {
                x = z + 1;
            } else {
                y = z;
            }
        }
        if x > 1 {
            x
        } else {
            1
        }
    }

    /// Searches for the next exact match (i, j, n), and leaves the search where it is.
    pub fn search_next(&mut self) -> (found: Option<(usize, usize, usize)>)
        requires
            old(self).valid(),
        ensures
            *final(self) == *old(self),
            found is None <==> old(self).anchor().finished(old(self).task()),
            found is None <==> old(self).anchor().j == old(self).task().t.len()
                && old(self).anchor().b == 0,
            found matches Some((i, j, n)) ==> (i as int, j as int, n as int) == next_match(
                old(self).task(),
                old(self).anchor(),
                old(self).anchor().j + old(self).anchor().n,
            ),
            found matches Some((i, j, n)) ==> is_found(
                old(self).task(),
                old(self).anchor(),
                old(self).anchor().j + old(self).anchor().n,
                (i as int, j as int, n as int),
            ),
            found matches Some((i, j, n)) ==> n > 0 ==> {
                let task = old(self).task();
                &&& j + task.small < task.t.len()
                &&& n > task.small
                &&& n > followed(task, old(self).anchor(), j as int, j + n) + task.dismat
                &&& occurs_at(task.s, task.t.skip(j as int).take(n as int), i as int)
                &&& forall|l: int|
                    0 <= l <= task.t.len() - j && #[trigger] occurs(
                        task.s,
                        task.t.skip(j as int).take(l),
                    ) ==> l <= n
            },
    {
        // EOF is already scanned.
        if self.j0 == self.t.len() && self.b0 == 0 {
            return None;
        }
        let ghost task = self.task();
        let ghost a = self.anchor();
        proof {
            next_match_is_found(task, a, a.j + a.n);
        }
        let mut j: usize = self.j0 + self.n0;
        let mut k: usize = j;
        let mut m: usize = 0;
        while j < self.t.len().saturating_sub(self.small)
            invariant
                self.valid(),
                task == self.task(),
                a == self.anchor(),
                a.j + a.n <= j <= task.t.len(),
                a.j + a.n <= k <= task.t.len(),
                m == followed(task, a, j as int, k as int),
                k < j ==> k + 1 == j && !follows(task, a, k as int),
                k > j ==> occurs(task.s, task.t.skip(j as int).take(k - j)),
                next_match(task, a, j as int) == next_match(task, a, a.j + a.n),
                is_found(task, a, a.j + a.n, next_match(task, a, a.j + a.n)),
            decreases task.t.len() - j,
        {
            // Finds out a possible exact match.
            let (i, n) = self.longest_match_at(j);
            assert(k <= j + n);
            let ghost k0 = k as int;
            let ghost m0 = m as int;
            proof {
                followed_counts(task, a, j as int, k0);
            }

            // Counts the matched bytes, and determine whether these bytes should be treated as
            // possible similar bytes, or simply as the next exact match.
            while k < j + n
                invariant
                    self.valid(),
                    task == self.task(),
                    a == self.anchor(),
                    a.j + a.n <= k0 <= k <= j + n,
                    j + n <= task.t.len(),
                    m <= k,
                    m == m0 + followed(task, a, k0, k as int),
                decreases j + n - k,
            {
                if self.continues(k) {
                    m = m + 1;
                }
                k = k + 1;
            }
            proof {
                assert(k == j + n);
                if k0 < j {
                    // The byte before `j` stands nowhere in the source.
                    followed_splits(task, a, k0, j as int, k as int);
                    assert(followed(task, a, k0, k0) == 0);
                } else {
                    followed_splits(task, a, j as int, k0, k as int);
                }
                assert(m == followed(task, a, j as int, k as int));
                if n == 0 {
                    followed_byte_occurs(task, a, j as int);
                }
            }
            let v = weigh(n, m, self.small, self.dismat);
            if v == Verdict::Nothing {
                // Match nothing.
                j = j + 1;
                m = 0;
            } else if v == Verdict::Dull {
                // Skip small matches and non-empty exact matches to speed up searching and
                // improve patch quality.
                j = j + n;
                m = 0;
            } else if v == Verdict::Similar {
                // Bytes with insufficient dismatches were treated as possible suffixing similar
                // data.
                //
                // The entire match is s[i0-b0..i0+n0+a0] ~= t[j0-b0..j0+n0+a0], where
                //     n0 is the exact match (s[i0..i0+n0] == t[j0..j0+n0]),
                //     b0 is the prefixing similar bytes,
                //     a0 is the suffixing similar bytes.
                let next: usize = j + self.skip_similar(i, j, n);
                let ghost j0 = j as int;
                let ghost m1 = m as int;
                proof {
                    followed_splits(task, a, j0, next as int, k as int);
                    followed_counts(task, a, next as int, k as int);
                    assert(occurs(task.s, task.t.skip(j0).take(n as int)));
                    occurs_in_part(task.s, task.t.skip(j0).take(n as int), next - j0);
                    assert(task.t.skip(j0).take(n as int).skip(next - j0) == task.t.skip(
                        next as int,
                    ).take(k - next));
                }
                while j < next
                    invariant
                        self.valid(),
                        task == self.task(),
                        a == self.anchor(),
                        a.j + a.n <= j0 <= j <= next <= task.t.len(),
                        m == m1 - followed(task, a, j0, j as int),
                        m <= m1,
                        m1 - followed(task, a, j0, next as int) >= 0,
                    decreases next - j,
                {
                    proof {
                        followed_splits(task, a, j0, j + 1, next as int);
                        followed_counts(task, a, j + 1, next as int);
                    }
                    if self.continues(j) {
                        m = m - 1;
                    }
                    j = j + 1;
                }
            } else {
                // The count of dismatches is sufficient.
                return Some((i, j, n));
            }
        }
        // EOF should be treated as the last exact match.
        Some((self.s.len(), self.t.len(), 0))
    }

    /// Shrinks the gap region between the previous and current exact match by determining
    /// similar bytes. Returns the lengths (a0, b) of similar bytes.
    pub fn shrink_gap(&self, i: usize, j: usize) -> (similar: (usize, usize))
        requires
            self.valid(),
            i <= self.task().s.len(),
            self.anchor().j + self.anchor().n <= j <= self.task().t.len(),
        ensures
            (similar.0 as int, similar.1 as int) == shrink(
                self.task(),
                self.anchor(),
                i as int,
                j as int,
            ),
            gap_is_shrunk(
                self.task(),
                self.anchor(),
                i as int,
                j as int,
                similar.0 as int,
                similar.1 as int,
            ),
    {
        proof {
            shrink_uses_both_ends(self.task(), self.anchor(), i as int, j as int);
        }
        let gap = &self.t[self.j0 + self.n0..j];
        let suffix = &self.s[self.i0 + self.n0..self.s.len()];
        let prefix = &self.s[0..i];
        assert(suffix@ == self.s@.skip(self.i0 + self.n0));
        assert(prefix@ == self.s@.take(i as int));

        let mut a0: usize = scan_similar(gap, suffix, false);
        let mut b: usize = scan_similar(gap, prefix, true);
        proof {
            similar_len_is_first_maximum(
                gap@,
                suffix@,
                shorter(gap@.len() as int, suffix@.len() as int),
            );
            similar_len_is_first_maximum(
                gap@.reverse(),
                prefix@.reverse(),
                shorter(gap@.len() as int, prefix@.len() as int),
            );
        }

        // Overlapped.
        if a0 > gap.len() - b {
            let n: usize = a0 - (gap.len() - b);
            let xs = &gap[gap.len() - b..a0];
            let ys = &suffix[gap.len() - b..a0];
            let zs = &prefix[prefix.len() - b..prefix.len() - b + n];

            let d: usize = scan_divide(xs, ys, zs);
            proof {
                divide_at_is_first_maximum(xs@, ys@, zs@, n as int);
            }
            a0 = a0 - (n - d);
            b = b - d;
        }
        (a0, b)
    }

    /// Settles on a match of `n` bytes at `i` and `j`, and returns the control record that leads
    /// there.
    pub fn advance(&mut self, i: usize, j: usize, n: usize) -> (ctl: Control)
        requires
            old(self).valid(),
            old(self).anchor().j + old(self).anchor().n <= j,
            i + n <= old(self).task().s.len(),
            j + n <= old(self).task().t.len(),
            old(self).task().s.subrange(i as int, i + n) == old(self).task().t.subrange(
                j as int,
                j + n,
            ),
        ensures
            final(self).valid(),
            final(self).task() == old(self).task(),
            (ctl, final(self).anchor()) == step_to(
                old(self).task(),
                old(self).anchor(),
                i as int,
                j as int,
                n as int,
            ),
            leads_to(old(self).task(), old(self).anchor(), ctl, final(self).anchor()),
            final(self).anchor().i == i,
            final(self).anchor().j == j,
            final(self).anchor().n == n,
    {
        let (i0, j0, n0, b0) = self.previous_state();
        proof {
            shrink_is_in_range(self.task(), self.anchor(), i as int, j as int);
            step_to_leads_there(self.task(), self.anchor(), i as int, j as int, n as int);
        }
        let (a0, b) = self.shrink_gap(i, j);

        // source:
        //     ...(   b0   ,   n0   ,   a0   )...(   b   ,...
        //        ^ spos   ^ i0                ^         ^ i
        //                                     | distance can be negative
        // target:
        //     ...(   b0   ,   n0   ,   a0   ;   copy   )(   b   ,...
        //        ^ tpos   ^ j0              ^ tpos+add          ^ j
        let add: u64 = (b0 + n0 + a0) as u64;
        let copy: u64 = ((j - b) - (j0 + n0 + a0)) as u64;
        let seek: i64 = (i - b) as i64 - (i0 + n0 + a0) as i64;

        self.update_state(i, j, n, b);
        Control { add, copy, seek }
    }

    /// The control record that leads to the next match, or `None` at the end of the target.
    pub fn next(&mut self) -> (ctl: Option<Control>)
        requires
            old(self).valid(),
        ensures
            final(self).valid(),
            final(self).task() == old(self).task(),
            ctl is None <==> old(self).anchor().finished(old(self).task()),
            ctl is None <==> old(self).anchor().j == old(self).task().t.len()
                && old(self).anchor().b == 0,
            ctl is None ==> *final(self) == *old(self),
            ctl matches Some(c) ==> (c, final(self).anchor()) == step(
                old(self).task(),
                old(self).anchor(),
            ),
            ctl matches Some(c) ==> is_step(
                old(self).task(),
                old(self).anchor(),
                c,
                final(self).anchor(),
            ),
    {
        if let Some((i, j, n)) = self.search_next() {
            proof {
                let task = self.task();
                let a = self.anchor();
                next_match_is_in_range(task, a, a.j + a.n);
                step_leads_to_found(task, a);
                assert(task.t.skip(j as int).take(n as int) =~= task.t.subrange(j as int, j + n));
                assert(n == 0 ==> task.s.subrange(i as int, i + n) =~= task.t.subrange(
                    j as int,
                    j + n,
                ));
            }
            Some(self.advance(i, j, n))
        } else {
            None
        }
    }

    /// Runs the search to the end of the target and collects its control records.
    pub fn collect(&mut self) -> (ctrls: Vec<Control>)
        requires
            old(self).valid(),
        ensures
            ctrls@ == controls_from(old(self).task(), old(self).anchor()),
            is_walk(old(self).task(), old(self).anchor(), ctrls@),
            final(self).valid(),
            final(self).task() == old(self).task(),
            final(self).anchor().finished(old(self).task()),
            final(self).anchor() == last_anchor(old(self).task(), old(self).anchor()),
    {
        let mut ctrls: Vec<Control> = Vec::new();
        let ghost task = self.task();
        let ghost first = self.anchor();
        proof {
            controls_from_walk(task, first);
        }
        loop
            invariant
                self.valid(),
                self.task() == task,
                controls_from(task, first) == ctrls@ + controls_from(task, self.anchor()),
                self.anchor() == first || !first.finished(task) && (self.anchor().j == task.t.len()
                    ==> self.anchor().i == task.s.len()),
            ensures
                self.valid(),
                self.task() == task,
                self.anchor() == last_anchor(task, first),
                controls_from(task, first) == ctrls@,
            decreases
                    rest(task, self.anchor()),
                    if self.anchor().j == task.t.len() {
                        0int
                    } else {
                        1
                    },
                    self.anchor().b,
        {
            let ghost a = self.anchor();
            match self.next() {
                Some(ctl) => {
                    proof {
                        step_moves_on(task, a);
                        assert(ctrls@ + (seq![ctl] + controls_from(task, self.anchor()))
                            =~= ctrls@.push(ctl) + controls_from(task, self.anchor()));
                    }
                    ctrls.push(ctl);
                },
                None => {
                    proof {
                        assert(ctrls@ + controls_from(task, a) =~= ctrls@);
                    }
                    break;
                },
            }
        }
        ctrls
    }
}

/// Weighs a match of `n` bytes, where `m` bytes continue the previous match.
pub fn weigh(n: usize, m: usize, small: usize, dismat: usize) -> (v: Verdict)
    ensures
        v == verdict(n as int, m as int, small as nat, dismat as nat),
        v == Verdict::Nothing <==> n == 0,
        v == Verdict::Dull <==> n > 0 && (n <= small || n == m),
        v == Verdict::Similar <==> n > small && n != m && n - m <= dismat,
        v == Verdict::Taken <==> n > small && n - m > dismat,
{
    if n == 0 {
        Verdict::Nothing
    } else if m == n || n <= small {
        Verdict::Dull
    } else if n.saturating_sub(m) <= dismat {
        Verdict::Similar
    } else {
        Verdict::Taken
    }
}

/// What is left of a substring behind its first `d` bytes stands in the text, too.
proof fn occurs_in_part(text: Seq<u8>, sub: Seq<u8>, d: int)
    requires
        occurs(text, sub),
        0 <= d <= sub.len(),
    ensures
        occurs(text, sub.skip(d)),
{
    let p = choose|p: int| occurs_at(text, sub, p);
    assert(text.subrange(p + d, p + sub.len()) =~= text.subrange(p, p + sub.len()).skip(d));
    assert(occurs_at(text, sub.skip(d), p + d));
}

/// A target byte that continues the anchor's match stands in the source.
proof fn followed_byte_occurs(task: Task, a: Anchor, j: int)
    requires
        a.valid(task),
        a.j <= j < task.t.len(),
    ensures
        follows(task, a, j) ==> occurs(task.s, task.t.skip(j).take(1)),
{
    let p = a.i + (j - a.j);
    if follows(task, a, j) {
        assert(task.s.subrange(p, p + 1) =~= task.t.skip(j).take(1));
        assert(occurs_at(task.s, task.t.skip(j).take(1), p));
    }
}

/// Counts over adjacent ranges add up.
proof fn followed_splits(task: Task, a: Anchor, from: int, mid: int, to: int)
    requires
        from <= mid <= to,
    ensures
        followed(task, a, from, to) == followed(task, a, from, mid) + followed(task, a, mid, to),
    decreases to - mid,
{
    if mid < to {
        followed_splits(task, a, from, mid, to - 1);
    }
}

} // verus!
