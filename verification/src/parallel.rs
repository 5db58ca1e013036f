//! Searching the chunks of a target in parallel.

use crate::control::Control;
use crate::index::{indexed_text, MAX_LENGTH};
use crate::model::{controls, controls_reach_the_end, last_anchor, Anchor, Task};
use crate::patch::{
    fits, fits_in_whole, fits_join, moved, moves_add_up, source_move, target_move,
};
use crate::search::SaDiff;
use crate::walk::{controls_from_walk, is_round_trip};
use rayon::prelude::{IntoParallelRefMutIterator, ParallelIterator};
use suffix_array::SuffixArray;
use vstd::prelude::*;

verus! {

/// The task with its target cut to `from..to`.
pub open spec fn cut(task: Task, from: int, to: int) -> Task {
    Task { t: task.t.subrange(from, to), ..task }
}

/// One task for each chunk of `size` bytes of the target from `from` on; the last chunk may be
/// shorter.
pub open spec fn chunk_tasks(task: Task, size: nat, from: int) -> Seq<Task>
    decreases task.t.len() - from,
{
    if from >= task.t.len() || size == 0 {
        seq![]
    } else {
        let to = if from + size <= task.t.len() {
            from + size
        } else {
            task.t.len() as int
        };
        seq![cut(task, from, to)] + chunk_tasks(task, size, to)
    }
}

/// Control records that move the source position back from `pos` to the beginning.
pub open spec fn rewind(pos: int) -> Seq<Control> {
    if pos <= i64::MAX {
        seq![Control { add: 0, copy: 0, seek: (-pos) as i64 }]
    } else {
        seq![
            Control { add: 0, copy: 0, seek: i64::MIN },
            Control { add: 0, copy: 0, seek: (-(pos + i64::MIN)) as i64 },
        ]
    }
}

/// The control records of a task, which end where they began in the source.
pub open spec fn excursion(task: Task) -> Seq<Control> {
    controls(task) + rewind(source_move(controls(task)))
}

/// The control records of each of several tasks.
pub open spec fn each_excursion(tasks: Seq<Task>) -> Seq<Seq<Control>> {
    Seq::new(tasks.len(), |k: int| excursion(tasks[k]))
}

/// The control records of several tasks, one after the other.
pub open spec fn excursions(tasks: Seq<Task>) -> Seq<Control>
    decreases tasks.len(),
{
    if tasks.len() == 0 {
        seq![]
    } else {
        excursion(tasks[0]) + excursions(tasks.drop_first())
    }
}

/// A rewind moves the source position back by `pos`, and does nothing else.
pub proof fn rewind_moves_back(pos: int)
    requires
        0 <= pos <= u64::MAX,
    ensures
        source_move(rewind(pos)) == -pos,
        target_move(rewind(pos)) == 0,
        forall|slen: int, tlen: int, sp: int, tp: int|
            tp <= tlen ==> #[trigger] fits(slen, tlen, sp, tp, rewind(pos)),
{
    let c = rewind(pos);
    reveal_with_fuel(source_move, 3);
    reveal_with_fuel(target_move, 3);
    reveal_with_fuel(fits, 3);
}

/// An excursion fits both files, produces the whole target of its task, and ends where it
/// began in the source.
pub proof fn excursion_returns(task: Task)
    requires
        task.valid(),
    ensures
        fits(task.s.len() as int, task.t.len() as int, 0, 0, excursion(task)),
        target_move(excursion(task)) == task.t.len(),
        source_move(excursion(task)) == 0,
{
    let c = controls(task);
    let (slen, tlen) = (task.s.len() as int, task.t.len() as int);
    controls_reach_the_end(task);
    rewind_moves_back(source_move(c));
    moves_add_up(c, rewind(source_move(c)));
    fits_join(slen, tlen, 0, 0, c, rewind(source_move(c)));
}

/// The excursions of all chunks fit both files, and produce the whole target behind `from`.
pub proof fn chunks_reach_the_end(task: Task, size: nat, from: int)
    requires
        task.valid(),
        size > 0,
        0 <= from <= task.t.len(),
    ensures
        ({
            let ctrls = excursions(chunk_tasks(task, size, from));
            &&& fits(task.s.len() as int, task.t.len() as int, 0, from, ctrls)
            &&& from + target_move(ctrls) == task.t.len()
            &&& source_move(ctrls) == 0
        }),
    decreases task.t.len() - from,
{
    if from < task.t.len() {
        let to = if from + size <= task.t.len() {
            from + size
        } else {
            task.t.len() as int
        };
        let (slen, tlen) = (task.s.len() as int, task.t.len() as int);
        let first = cut(task, from, to);
        let rest = chunk_tasks(task, size, to);
        let all = chunk_tasks(task, size, from);
        excursion_returns(first);
        chunks_reach_the_end(task, size, to);
        assert(all.drop_first() =~= rest);
        fits_in_whole(slen, to - from, tlen, 0, 0, from, excursion(first));
        moves_add_up(excursion(first), excursions(rest));
        fits_join(slen, tlen, 0, from, excursion(first), excursions(rest));
    }
}

/// The targets of several tasks, one after the other.
pub open spec fn joined_targets(tasks: Seq<Task>) -> Seq<u8>
    decreases tasks.len(),
{
    if tasks.len() == 0 {
        seq![]
    } else {
        tasks[0].t + joined_targets(tasks.drop_first())
    }
}

/// The chunks of a target put together are the target behind `from`.
pub proof fn chunks_tile_target(task: Task, size: nat, from: int)
    requires
        size > 0,
        0 <= from <= task.t.len(),
    ensures
        joined_targets(chunk_tasks(task, size, from)) == task.t.skip(from),
    decreases task.t.len() - from,
{
    if from < task.t.len() {
        let to = if from + size <= task.t.len() {
            from + size
        } else {
            task.t.len() as int
        };
        chunks_tile_target(task, size, to);
        assert(chunk_tasks(task, size, from).drop_first() =~= chunk_tasks(task, size, to));
        assert(task.t.subrange(from, to) + task.t.skip(to) =~= task.t.skip(from));
    } else {
        assert(task.t.skip(from) =~= seq![]);
    }
}

/// A target that fits in one chunk is searched as a whole.
pub proof fn one_chunk_is_whole(task: Task, size: nat)
    requires
        0 < task.t.len() <= size,
    ensures
        excursions(chunk_tasks(task, size, 0)) == excursion(task),
{
    let all = chunk_tasks(task, size, 0);
    let len = task.t.len() as int;
    assert(cut(task, 0, len).t =~= task.t);
    assert(chunk_tasks(task, size, len) =~= seq![]);
    assert(all =~= seq![task]);
    assert(all.drop_first() =~= seq![]);
    assert(excursion(task) + excursions(seq![]) =~= excursion(task));
}

/// The `k`-th piece of `size` bytes of `t`; the last one may be shorter.
pub open spec fn piece(t: Seq<u8>, size: nat, k: int) -> Seq<u8> {
    t.subrange(
        k * size,
        if (k + 1) * size <= t.len() {
            (k + 1) * size
        } else {
            t.len() as int
        },
    )
}

/// The target has a `k`-th piece of `size` bytes.
pub open spec fn has_piece(task: Task, size: nat, k: int) -> bool {
    k * size < task.t.len()
}

/// The task with its target cut to the `k`-th piece of `size` bytes.
pub open spec fn piece_task(task: Task, size: nat, k: int) -> Task {
    Task {
        s: task.s,
        t: piece(task.t, size, k),
        small: task.small,
        dismat: task.dismat,
        longsuf: task.longsuf,
    }
}

/// There is one task for each piece of `size` bytes of the target, in their order.
pub open spec fn is_one_task_per_piece(task: Task, size: nat, tasks: Seq<Task>) -> bool {
    &&& !has_piece(task, size, tasks.len() as int)
    &&& forall|k: int| 0 <= k < tasks.len() ==> #[trigger] has_piece(task, size, k)
    &&& forall|k: int| 0 <= k < tasks.len() ==> #[trigger] tasks[k] == piece_task(task, size, k)
}

/// `parts[k]` is a round trip for the `k`-th piece of `size` bytes of the target, and there is one
/// for every piece.
pub open spec fn trips_make(
    task: Task,
    size: nat,
    ctrls: Seq<Control>,
    parts: Seq<Seq<Control>>,
) -> bool {
    &&& !has_piece(task, size, parts.len() as int)
    &&& forall|k: int| 0 <= k < parts.len() ==> #[trigger] has_piece(task, size, k)
    &&& forall|k: int|
        0 <= k < parts.len() ==> is_round_trip(piece_task(task, size, k), #[trigger] parts[k])
    &&& ctrls == parts.flatten()
}

/// The records are those of one round trip for each piece of `size` bytes of the target.
pub open spec fn is_walk_in_pieces(task: Task, size: nat, ctrls: Seq<Control>) -> bool {
    exists|parts: Seq<Seq<Control>>| trips_make(task, size, ctrls, parts)
}

/// There is one task for each chunk of exactly the size that was set.
pub proof fn one_task_per_chunk(task: Task, size: nat)
    requires
        size > 0,
    ensures
        is_one_task_per_piece(task, size, chunk_tasks(task, size, 0)),
{
    let tasks = chunk_tasks(task, size, 0);
    assert(0 * size == 0) by (nonlinear_arith);
    pieces_end_with_chunks(task, size, 0, 0);
    assert forall|k: int| 0 <= k < tasks.len() implies #[trigger] has_piece(task, size, k) by {
        chunk_is_piece(task, size, 0, 0, k);
    }
    assert forall|k: int| 0 <= k < tasks.len() implies #[trigger] tasks[k] == piece_task(
        task,
        size,
        k,
    ) by {
        chunk_is_piece(task, size, 0, 0, k);
    }
}

/// The chunks from the `q`-th piece on are as many as the pieces from there on.
proof fn pieces_end_with_chunks(task: Task, size: nat, q: int, from: int)
    requires
        size > 0,
        from == q * size,
    ensures
        !has_piece(task, size, q + chunk_tasks(task, size, from).len()),
    decreases
            if from < task.t.len() {
                task.t.len() - from
            } else {
                0
            },
{
    let n = chunk_tasks(task, size, from).len();
    if from < task.t.len() {
        assert((q + 1) * size == q * size + size) by (nonlinear_arith);
        pieces_end_with_chunks(task, size, q + 1, from + size);
        if from + size > task.t.len() {
            assert(chunk_tasks(task, size, task.t.len() as int).len() == 0);
            assert(chunk_tasks(task, size, from + size).len() == 0);
        }
        assert(n == 1 + chunk_tasks(task, size, from + size).len());
        assert(q + n == (q + 1) + chunk_tasks(task, size, from + size).len());
    } else {
        assert(q + n == q);
    }
}

/// The `k`-th chunk from the `q`-th piece on is the piece that is `k` further on.
proof fn chunk_is_piece(task: Task, size: nat, q: int, from: int, k: int)
    requires
        size > 0,
        from == q * size,
        0 <= k < chunk_tasks(task, size, from).len(),
    ensures
        has_piece(task, size, q + k),
        chunk_tasks(task, size, from)[k] == piece_task(task, size, q + k),
    decreases k,
{
    assert((q + 1) * size == q * size + size) by (nonlinear_arith);
    if k == 0 {
        assert(q + k == q);
    } else {
        if from + size > task.t.len() {
            assert(chunk_tasks(task, size, task.t.len() as int).len() == 0);
        }
        chunk_is_piece(task, size, q + 1, from + size, k - 1);
        assert(q + k == (q + 1) + (k - 1));
    }
}

/// The records of several tasks are those of each, one after the other.
pub proof fn excursions_are_joined(tasks: Seq<Task>)
    ensures
        excursions(tasks) == each_excursion(tasks).flatten(),
    decreases tasks.len(),
{
    let parts = each_excursion(tasks);
    if tasks.len() > 0 {
        let behind = tasks.drop_first();
        excursions_are_joined(behind);
        assert(parts.drop_first() =~= each_excursion(behind));
        assert(parts.first() == excursion(tasks[0]));
    }
}

/// The records of a task lead through all matches of its target, and one more record leads back
/// to the beginning of the source.
pub proof fn excursion_is_round_trip(task: Task)
    requires
        task.valid(),
        task.t.len() > 0,
    ensures
        is_round_trip(task, excursion(task)),
        excursion(task) == controls(task).push(
            Control { add: 0, copy: 0, seek: (-task.s.len()) as i64 },
        ),
{
    let c = controls(task);
    controls_reach_the_end(task);
    controls_from_walk(task, Anchor::start());
    assert(excursion(task) =~= c.push(Control { add: 0, copy: 0, seek: (-task.s.len()) as i64 }));
    assert(excursion(task).drop_last() =~= c);
}

/// A search in chunks makes one round trip for each piece of exactly the size that was set.
pub proof fn chunks_are_round_trips(task: Task, size: nat)
    requires
        task.valid(),
        size > 0,
    ensures
        is_walk_in_pieces(task, size, excursions(chunk_tasks(task, size, 0))),
{
    let tasks = chunk_tasks(task, size, 0);
    let parts = each_excursion(tasks);
    one_task_per_chunk(task, size);
    excursions_are_joined(tasks);
    assert forall|k: int| 0 <= k < parts.len() implies is_round_trip(
        piece_task(task, size, k),
        #[trigger] parts[k],
    ) by {
        let n = size as int;
        assert(has_piece(task, size, k));
        assert((k + 1) * n == k * n + n) by (nonlinear_arith);
        assert(0 <= k * n) by (nonlinear_arith)
            requires
                0 <= k,
                0 <= n,
        ;
        assert(0 < tasks[k].t.len() <= task.t.len());
        excursion_is_round_trip(tasks[k]);
    }
    assert(trips_make(task, size, excursions(tasks), parts));
}

/// Chunks of what is left of a target are the chunks behind what was left off.
pub proof fn chunks_of_rest(task: Task, size: nat, by: int, from: int)
    requires
        0 <= by <= task.t.len(),
        0 <= from,
    ensures
        chunk_tasks(Task { t: task.t.skip(by), ..task }, size, from) == chunk_tasks(
            task,
            size,
            by + from,
        ),
    decreases task.t.len() - from,
{
    let part = Task { t: task.t.skip(by), ..task };
    if by + from < task.t.len() && size > 0 {
        let to = if by + from + size <= task.t.len() {
            from + size
        } else {
            task.t.len() - by
        };
        chunks_of_rest(task, size, by, to);
        assert(cut(part, from, to).t =~= cut(task, by + from, by + to).t);
    }
}

/// The source position behind control records that start at the beginning, in 64 bits.
pub fn source_position(ctrls: &Vec<Control>) -> (pos: u64)
    ensures
        pos == source_move(ctrls@) % 0x1_0000_0000_0000_0000,
{
    let mut pos: u64 = 0;
    let mut q: usize = 0;
    assert(ctrls@.take(0) =~= seq![]);
    while q < ctrls.len()
        invariant
            q <= ctrls@.len(),
            pos == source_move(ctrls@.take(q as int)) % 0x1_0000_0000_0000_0000,
        decreases ctrls@.len() - q,
    {
        let ctl = ctrls[q];
        assert(ctrls@.take(q + 1).drop_last() =~= ctrls@.take(q as int));
        pos = moved(pos, ctl);
        q = q + 1;
    }
    assert(ctrls@.take(q as int) =~= ctrls@);
    pos
}

/// Appends the control records that move the source position back from `pos`.
pub fn push_rewind(pos: u64, ctrls: &mut Vec<Control>)
    ensures
        final(ctrls)@ == old(ctrls)@ + rewind(pos as int),
{
    if pos <= i64::MAX as u64 {
        ctrls.push(Control { add: 0, copy: 0, seek: -(pos as i64) });
    } else {
        ctrls.push(Control { add: 0, copy: 0, seek: i64::MIN });
        ctrls.push(Control { add: 0, copy: 0, seek: -((pos - 0x8000_0000_0000_0000) as i64) });
    }
    assert(ctrls@ =~= old(ctrls)@ + rewind(pos as int));
}

impl<'s, 't> SaDiff<'s, 't> {
    /// Runs the search to the end of the target, and then moves back in the source.
    pub fn run(&mut self) -> (ctrls: Vec<Control>)
        requires
            old(self).valid(),
            old(self).anchor() == Anchor::start(),
        ensures
            ctrls@ == excursion(old(self).task()),
            final(self).valid(),
            final(self).task() == old(self).task(),
            final(self).anchor().finished(old(self).task()),
            final(self).anchor() == last_anchor(old(self).task(), Anchor::start()),
            old(self).task().t.len() > 0 ==> is_round_trip(old(self).task(), ctrls@),
    {
        let mut ctrls: Vec<Control> = self.collect();
        proof {
            self.search_keeps_exact_match();
            controls_reach_the_end(self.task());
            if self.task().t.len() > 0 {
                excursion_is_round_trip(self.task());
            }
        }
        let pos: u64 = source_position(&ctrls);
        push_rewind(pos, &mut ctrls);
        ctrls
    }
}

/// The searches of all chunks of a target.
pub struct ParSaDiff<'s, 't> {
    jobs: Vec<SaDiff<'s, 't>>,
}

/// What the searches are about.
pub open spec fn tasks_of(jobs: Seq<SaDiff>) -> Seq<Task> {
    Seq::new(jobs.len(), |q: int| jobs[q].task())
}

/// Every search is about to start.
pub open spec fn ready(jobs: Seq<SaDiff>) -> bool {
    forall|q: int|
        0 <= q < jobs.len() ==> (#[trigger] jobs[q]).valid() && jobs[q].anchor() == Anchor::start()
}

/// Runs every search, in parallel: rayon's `par_iter_mut`, `map`, `flatten` and `collect` call
/// `run` once for each job, and give out the results in the order of the jobs.
#[verifier::external_body]
fn run_all(jobs: Vec<SaDiff>) -> (ctrls: Vec<Control>)
    requires
        ready(jobs@),
    ensures
        ctrls@ == excursions(tasks_of(jobs@)),
{
    let mut jobs = jobs;
    jobs.par_iter_mut().map(|diff| diff.run()).flatten().collect()
}

impl<'s, 't> ParSaDiff<'s, 't> {
    /// What the searches are about, in the order of the target.
    pub closed spec fn tasks(&self) -> Seq<Task> {
        tasks_of(self.jobs@)
    }

    /// Every search is about to start.
    pub closed spec fn valid(&self) -> bool {
        ready(self.jobs@)
    }

    /// Creates one search for each chunk of `chunk` bytes of the target.
    pub fn new(
        s: &'s [u8],
        t: &'t [u8],
        sa: &'s SuffixArray<'s>,
        chunk: usize,
        small: usize,
        dismat: usize,
        longsuf: usize,
    ) -> (diff: Self)
        requires
            indexed_text(*sa) == Some(s@),
            s@.len() <= MAX_LENGTH,
            chunk > 0,
        ensures
            diff.valid(),
            diff.tasks() == chunk_tasks(
                Task {
                    s: s@,
                    t: t@,
                    small: small as nat,
                    dismat: dismat as nat,
                    longsuf: longsuf as nat,
                },
                chunk as nat,
                0,
            ),
            is_one_task_per_piece(
                Task {
                    s: s@,
                    t: t@,
                    small: small as nat,
                    dismat: dismat as nat,
                    longsuf: longsuf as nat,
                },
                chunk as nat,
                diff.tasks(),
            ),
    {
        let ghost task = Task {
            s: s@,
            t: t@,
            small: small as nat,
            dismat: dismat as nat,
            longsuf: longsuf as nat,
        };
        let mut jobs: Vec<SaDiff<'s, 't>> = Vec::new();
        let mut from: usize = 0;
        while from < t.len()
            invariant
                indexed_text(*sa) == Some(s@),
                s@.len() <= MAX_LENGTH,
                chunk > 0,
                from <= t@.len(),
                task == (Task {
                    s: s@,
                    t: t@,
                    small: small as nat,
                    dismat: dismat as nat,
                    longsuf: longsuf as nat,
                }),
                ready(jobs@),
                chunk_tasks(task, chunk as nat, 0) =~= tasks_of(jobs@) + chunk_tasks(
                    task,
                    chunk as nat,
                    from as int,
                ),
            decreases t@.len() - from,
        {
            let to: usize = if chunk <= t.len() - from {
                from + chunk
            } else {
                t.len()
            };
            let job = SaDiff::new(s, &t[from..to], sa, small, dismat, longsuf);
            let ghost done = tasks_of(jobs@);
            jobs.push(job);
            assert(job.task() == cut(task, from as int, to as int));
            assert(tasks_of(jobs@) =~= done.push(job.task()));
            from = to;
        }
        proof {
            one_task_per_chunk(task, chunk as nat);
        }
        ParSaDiff { jobs }
    }

    /// Runs the searches and collects their control records in the order of the target.
    pub fn compute(self) -> (ctrls: Vec<Control>)
        requires
            self.valid(),
        ensures
            ctrls@ == excursions(self.tasks()),
            ctrls@ == each_excursion(self.tasks()).flatten(),
    {
        proof {
            excursions_are_joined(self.tasks());
        }

        run_all(self.jobs)
    }
}

} // verus!
