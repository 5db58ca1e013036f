//! The delta compressor.

use crate::control::{control_stream, control_stream_reads_back, read_controls, Control};
use crate::encoder::{bzip2_stream, encodes, Compression, PackError};
use crate::index::{extent, MAX_LENGTH};
use crate::model::{controls, controls_reach_the_end, Anchor, Task};
use crate::pack::{
    len_takes_eight_bytes, pack, packed, packed_losslessly, sections, sections_read_back,
};
use crate::parallel::{
    chunk_tasks, chunks_are_round_trips, chunks_of_rest, chunks_reach_the_end, cut, excursion,
    excursion_is_round_trip, excursions, is_walk_in_pieces, one_chunk_is_whole, ParSaDiff,
};
use crate::patch::{
    apply, delta_stream, extra_stream, fits, patch_restores_target, source_move,
    streams_share_target, target_move, Progress,
};
use crate::search::SaDiff;
use crate::walk::{alike, controls_from_walk, is_walk, walk_takes_first_match};
use suffix_array::SuffixArray;
use vstd::prelude::*;

verus! {

/// Default threshold to determine small exact match.
pub const SMALL_MATCH: usize = 12;

/// Default threshold to determine dismatch.
const DISMATCH_COUNT: usize = 8;

/// Default threshold to enable binary search on suffixing similar bytes.
const LONG_SUFFIX: usize = 256;

/// Default buffer size for delta calculation.
pub const BUFFER_SIZE: usize = 4096;

/// Default compression level.
pub const LEVEL: Compression = Compression::Default;

/// Fast and memory saving bsdiff 4.x compatible delta compressor for executables.
///
/// Source data size should not be greater than MAX_LENGTH (about 4 GiB).
///
/// Compares source with target and generates patch using the best compression level:
/// ```
/// use qbsdiff::{Bsdiff, Compression, PackError};
///
/// fn bsdiff(source: &[u8], target: &[u8]) -> Result<Vec<u8>, PackError> {
///     let mut patch = Vec::new();
///     Bsdiff::new(source, target)
///         .compression_level(Compression::Best)
///         .compare(&mut patch)?;
///     Ok(patch)
/// }
/// ```
pub struct Bsdiff<'s, 't> {
    s: &'s [u8],
    t: &'t [u8],
    par: Option<usize>,
    small: usize,
    dismat: usize,
    longsuf: usize,
    bsize: usize,
    level: Compression,
}

/// What a compressor is set to do.
pub struct Settings {
    pub source: Seq<u8>,
    pub target: Seq<u8>,
    /// The chunk size of parallel searching, where it is enabled.
    pub chunk: Option<nat>,
    pub small_match: nat,
    pub dismatch_count: nat,
    pub long_suffix: nat,
    pub buffer_size: nat,
    pub level: Compression,
}

impl Settings {
    /// What is searched for.
    pub open spec fn task(self) -> Task {
        Task {
            s: self.source,
            t: self.target,
            small: self.small_match,
            dismat: self.dismatch_count,
            longsuf: self.long_suffix,
        }
    }

    /// The control records that the search gives.
    pub open spec fn controls(self) -> Seq<Control> {
        match self.chunk {
            None => controls(self.task()),
            Some(size) => excursions(chunk_tasks(self.task(), size, 0)),
        }
    }

    /// The patch file.
    pub open spec fn patch(self) -> Seq<u8> {
        packed(self.source, self.target, self.controls(), self.level)
    }

    /// The sections of the patch file (controls, delta data and extra data, each compressed), and
    /// the size of the target.
    pub open spec fn sections(self) -> (Seq<u8>, Seq<u8>, Seq<u8>, nat) {
        (
            bzip2_stream(control_stream(self.controls()), self.level),
            bzip2_stream(delta_stream(self.source, self.target, self.controls()), self.level),
            bzip2_stream(extra_stream(self.target, self.controls()), self.level),
            self.target.len(),
        )
    }

    /// The source can be indexed, the target held in memory, and chunks are not empty.
    pub open spec fn valid(self) -> bool {
        &&& self.task().valid()
        &&& self.chunk != Some(0nat)
    }

    /// The settings are not below the least that each may be.
    pub open spec fn bounded(self) -> bool {
        &&& self.chunk != Some(0nat)
        &&& self.dismatch_count >= 1
        &&& self.long_suffix >= 64
        &&& self.buffer_size >= 128
    }
}

/// The control records of a search, with or without chunks, fit both files and produce the
/// whole target.
pub proof fn controls_cover_target(set: Settings)
    requires
        set.valid(),
    ensures
        fits(set.source.len() as int, set.target.len() as int, 0, 0, set.controls()),
        target_move(set.controls()) == set.target.len(),
{
    match set.chunk {
        None => {
            controls_reach_the_end(set.task());
        },
        Some(size) => {
            chunks_reach_the_end(set.task(), size, 0);
        },
    }
}

/// The records of a search with these thresholds, in pieces of `size` bytes if there is a size: a
/// walk through the matches from the beginning of both files, or one round trip for each piece.
pub open spec fn is_search(
    source: Seq<u8>,
    target: Seq<u8>,
    small: nat,
    dismat: nat,
    longsuf: nat,
    size: Option<nat>,
    ctrls: Seq<Control>,
) -> bool {
    let task = Task { s: source, t: target, small, dismat, longsuf };
    match size {
        None => is_walk(task, Anchor { i: 0, j: 0, n: 0, b: 0 }, ctrls),
        Some(size) => is_walk_in_pieces(task, size, ctrls),
    }
}

/// The control records are those of a search with the thresholds and the chunk size that were
/// set.
pub proof fn settings_rule_the_search(set: Settings)
    requires
        set.valid(),
    ensures
        is_search(
            set.source,
            set.target,
            set.small_match,
            set.dismatch_count,
            set.long_suffix,
            set.chunk,
            set.controls(),
        ),
{
    match set.chunk {
        None => {
            controls_from_walk(set.task(), Anchor::start());
        },
        Some(size) => {
            chunks_are_round_trips(set.task(), size);
        },
    }
}

/// A target that begins with a match that is longer than the threshold for small matches, and
/// differs in more bytes than the threshold for dismatches from the beginning of the source, is
/// taken from there: the first record moves to the match and does nothing else. With a threshold
/// of zero no match is too small for that.
pub proof fn first_match_is_taken(set: Settings)
    requires
        set.valid(),
        set.chunk is None,
        set.small_match < set.target.len(),
        extent(set.source, set.target).1 > set.small_match,
        extent(set.source, set.target).1 - alike(
            set.source,
            0,
            set.target,
            0,
            extent(set.source, set.target).1,
        ) > set.dismatch_count,
    ensures
        set.controls().len() > 0,
        set.controls()[0].add == 0,
        set.controls()[0].copy == 0,
        set.controls()[0].seek == extent(set.source, set.target).0,
{
    settings_rule_the_search(set);
    let task = Task {
        s: set.source,
        t: set.target,
        small: set.small_match,
        dismat: set.dismatch_count,
        longsuf: set.long_suffix,
    };
    assert(set.target.skip(0) =~= set.target);
    walk_takes_first_match(task, Anchor { i: 0, j: 0, n: 0, b: 0 }, set.controls());
}

/// A target that fits in one chunk is searched as it is without chunks; one more record moves back
/// to the beginning of the source.
pub proof fn one_chunk_is_searched_whole(set: Settings, size: nat)
    requires
        set.valid(),
        0 < set.target.len() <= size,
    ensures
        (Settings { chunk: Some(size), ..set }).controls() == (Settings {
            chunk: None,
            ..set
        }).controls().push(Control { add: 0, copy: 0, seek: (-set.source.len()) as i64 }),
{
    one_chunk_is_whole(set.task(), size);
    excursion_is_round_trip(set.task());
}

/// A longer target is searched chunk by chunk: its first `size` bytes as a target of their own,
/// back to the beginning of the source, and then the rest in chunks of the same size.
pub proof fn chunks_are_searched_alone(set: Settings, size: nat)
    requires
        set.valid(),
        0 < size < set.target.len(),
    ensures
        (Settings { chunk: Some(size), ..set }).controls() == (Settings {
            chunk: None,
            target: set.target.take(size as int),
            ..set
        }).controls().push(Control { add: 0, copy: 0, seek: (-set.source.len()) as i64 }) + (
        Settings { chunk: Some(size), target: set.target.skip(size as int), ..set }).controls(),
{
    let task = set.task();
    let n = size as int;
    let first = cut(task, 0, n);
    assert(set.target.take(n) =~= first.t);
    excursion_is_round_trip(first);
    chunks_of_rest(task, size, n, 0);
    let all = chunk_tasks(task, size, 0);
    assert(all.drop_first() =~= chunk_tasks(task, size, n));
    assert(excursions(all) == excursion(first) + excursions(chunk_tasks(task, size, n)));
}

/// An empty target needs no records, in chunks or not.
pub proof fn empty_target_needs_no_records(set: Settings)
    requires
        set.valid(),
        set.target.len() == 0,
    ensures
        set.controls().len() == 0,
{
}

/// The streams that a patch is compressed from turn the source into the target: the control
/// records read from the control stream, applied to the source with the delta and extra
/// streams, give the target, and use both streams up.
pub proof fn streams_restore_target(set: Settings)
    requires
        set.valid(),
    ensures
        ({
            let delta = delta_stream(set.source, set.target, set.controls());
            let extra = extra_stream(set.target, set.controls());
            apply(set.source, read_controls(control_stream(set.controls())), delta, extra) == Some(
                Progress {
                    out: set.target,
                    spos: source_move(set.controls()),
                    dpos: delta.len() as int,
                    epos: extra.len() as int,
                },
            )
        }),
{
    controls_cover_target(set);
    control_stream_reads_back(set.controls());
    patch_restores_target(set.source, set.target, set.controls());
    assert(set.target.take(set.target.len() as int) =~= set.target);
}

/// A patch file is taken apart into the compressed streams and the size of the target.
pub proof fn patch_holds_streams(set: Settings)
    requires
        set.valid(),
        set.patch().len() <= u64::MAX,
    ensures
        sections(set.patch()) == Some(set.sections()),
        sections(set.patch()) == Some(
            (
                bzip2_stream(control_stream(set.controls()), set.level),
                bzip2_stream(delta_stream(set.source, set.target, set.controls()), set.level),
                bzip2_stream(extra_stream(set.target, set.controls()), set.level),
                set.target.len(),
            ),
        ),
        set.patch().len() == 32 + set.sections().0.len() + set.sections().1.len()
            + set.sections().2.len(),
{
    let (c, d, e, n) = set.sections();
    len_takes_eight_bytes(c.len());
    len_takes_eight_bytes(d.len());
    len_takes_eight_bytes(n);
    sections_read_back(c, d, e, n);
}

/// The sections of the patch file are bzip2 streams of these controls, delta data and extra data,
/// which turn the source into `out`; and `out` is as long as the patch file says.
pub open spec fn streams_give(
    source: Seq<u8>,
    patch: Seq<u8>,
    ctrls: Seq<u8>,
    delta: Seq<u8>,
    extra: Seq<u8>,
    out: Seq<u8>,
) -> bool {
    &&& sections(patch) matches Some((c, d, e, n))
    &&& encodes(c, ctrls)
    &&& encodes(d, delta)
    &&& encodes(e, extra)
    &&& apply(source, read_controls(ctrls), delta, extra) matches Some(done)
    &&& done.out == out
    &&& out.len() == n
}

/// Decompressed and applied to the source, the patch file gives `out`.
pub open spec fn patch_gives(source: Seq<u8>, patch: Seq<u8>, out: Seq<u8>) -> bool {
    exists|ctrls: Seq<u8>, delta: Seq<u8>, extra: Seq<u8>|
        streams_give(source, patch, ctrls, delta, extra, out)
}

/// A patch whose sections were compressed without loss gives the target, and nothing else.
pub proof fn patch_gives_target(set: Settings)
    requires
        set.valid(),
        set.patch().len() <= u64::MAX,
        packed_losslessly(set.source, set.target, set.controls(), set.level),
    ensures
        forall|out: Seq<u8>| #[trigger]
            patch_gives(set.source, set.patch(), out) <==> out == set.target,
{
    let ctrls = control_stream(set.controls());
    let delta = delta_stream(set.source, set.target, set.controls());
    let extra = extra_stream(set.target, set.controls());
    patch_holds_streams(set);
    streams_restore_target(set);
    assert(encodes(set.sections().0, ctrls));
    assert(encodes(set.sections().1, delta));
    assert(encodes(set.sections().2, extra));
    assert(streams_give(set.source, set.patch(), ctrls, delta, extra, set.target));
    assert forall|out: Seq<u8>| #[trigger] patch_gives(set.source, set.patch(), out) implies out
        == set.target by {
        let (c, d, e) = choose|c: Seq<u8>, d: Seq<u8>, e: Seq<u8>|
            streams_give(set.source, set.patch(), c, d, e, out);
        assert(c == ctrls && d == delta && e == extra);
    }
}

/// The streams of a patch hold one byte for every byte of the target.
pub proof fn streams_are_as_long_as_target(set: Settings)
    requires
        set.valid(),
    ensures
        delta_stream(set.source, set.target, set.controls()).len() + extra_stream(
            set.target,
            set.controls(),
        ).len() == set.target.len(),
{
    controls_cover_target(set);
    streams_share_target(set.source, set.target, set.controls());
}

/// The size of the buffer makes no difference to the patch.
pub proof fn buffer_size_is_no_matter(set: Settings, buffer_size: nat)
    ensures
        (Settings { buffer_size, ..set }).patch() == set.patch(),
{
}

/// The compression level makes no difference to what the patch is compressed from.
pub proof fn level_is_no_matter_to_controls(set: Settings, level: Compression)
    ensures
        (Settings { level, ..set }).controls() == set.controls(),
{
}

impl<'s, 't> View for Bsdiff<'s, 't> {
    type V = Settings;

    closed spec fn view(&self) -> Settings {
        Settings {
            source: self.s@,
            target: self.t@,
            chunk: match self.par {
                Some(size) => Some(size as nat),
                None => None,
            },
            small_match: self.small as nat,
            dismatch_count: self.dismat as nat,
            long_suffix: self.longsuf as nat,
            buffer_size: self.bsize as nat,
            level: self.level,
        }
    }
}

impl<'s, 't> Bsdiff<'s, 't> {
    #[verifier::type_invariant]
    spec fn bounds(self) -> bool {
        &&& self.par != Some(0usize)
        &&& self.dismat >= 1
        &&& self.longsuf >= 64
        &&& self.bsize >= 128
    }

    /// Create new configuration for bsdiff delta compression.
    pub fn new(source: &'s [u8], target: &'t [u8]) -> (diff: Self)
        requires
            source@.len() <= MAX_LENGTH,
        ensures
            diff@ == (Settings {
                source: source@,
                target: target@,
                chunk: None,
                small_match: 12,
                dismatch_count: 8,
                long_suffix: 256,
                buffer_size: 4096,
                level: Compression::Default,
            }),
            diff@.bounded(),
    {
        Bsdiff {
            s: source,
            t: target,
            par: None,
            small: SMALL_MATCH,
            dismat: DISMATCH_COUNT,
            longsuf: LONG_SUFFIX,
            bsize: BUFFER_SIZE,
            level: Compression::Default,
        }
    }

    /// Set the source data.
    pub fn source(self, s: &'s [u8]) -> (diff: Self)
        ensures
            diff@ == (Settings { source: s@, ..self@ }),
            diff@.bounded(),
    {
        proof {
            use_type_invariant(&self);
        }
        Bsdiff { s, ..self }
    }

    /// Set the target data.
    pub fn target(self, t: &'t [u8]) -> (diff: Self)
        ensures
            diff@ == (Settings { target: t@, ..self@ }),
            diff@.bounded(),
    {
        proof {
            use_type_invariant(&self);
        }
        Bsdiff { t, ..self }
    }

    /// Enable parallel searching and specify the chunk size of each job (default is `0`). If
    /// set to zero, parallel would be disabled.
    ///
    /// It is recommended to choose a large chunk size (e.g. 16M), because that small chunk size
    /// may lead to bad patch quality.
    pub fn parallel(self, chunk: usize) -> (diff: Self)
        ensures
            diff@ == (Settings {
                chunk: if chunk > 0 {
                    Some(chunk as nat)
                } else {
                    None
                },
                ..self@
            }),
            diff@.bounded(),
    {
        proof {
            use_type_invariant(&self);
        }
        if chunk > 0 {
            Bsdiff { par: Some(chunk), ..self }
        } else {
            Bsdiff { par: None, ..self }
        }
    }

    /// Set the threshold to determine small match (default is `SMALL_MATCH`). If set to zero,
    /// no matches would be skipped.
    pub fn small_match(self, sm: usize) -> (diff: Self)
        ensures
            diff@ == (Settings { small_match: sm as nat, ..self@ }),
            diff@.bounded(),
    {
        proof {
            use_type_invariant(&self);
        }
        Bsdiff { small: sm, ..self }
    }

    /// Set the threshold to determine dismatch (`dis > 0`, default is `DISMATCH_COUNT`).
    #[allow(unused)]
    fn dismatch_count(self, dis: usize) -> (diff: Self)
        ensures
            diff@ == (Settings {
                dismatch_count: if dis < 1 {
                    1
                } else {
                    dis as nat
                },
                ..self@
            }),
            diff@.bounded(),
    {
        proof {
            use_type_invariant(&self);
        }
        Bsdiff { dismat: if dis < 1 { 1 } else { dis }, ..self }
    }

    /// Set the threshold to determine long repeating bytes in target data (`ls` >= 64, default
    /// is `LONG_SUFFIX`).
    #[allow(unused)]
    fn long_suffix(self, ls: usize) -> (diff: Self)
        ensures
            diff@ == (Settings {
                long_suffix: if ls < 64 {
                    64
                } else {
                    ls as nat
                },
                ..self@
            }),
            diff@.bounded(),
    {
        proof {
            use_type_invariant(&self);
        }
        Bsdiff { longsuf: if ls < 64 { 64 } else { ls }, ..self }
    }

    /// Set the compression level of bzip2 (default is `LEVEL`).
    pub fn compression_level(self, lv: Compression) -> (diff: Self)
        ensures
            diff@ == (Settings { level: lv, ..self@ }),
            diff@.bounded(),
    {
        proof {
            use_type_invariant(&self);
        }
        Bsdiff { level: lv, ..self }
    }

    /// Set the buffer size for delta calculation (`bs >= 128`, default is `BUFFER_SIZE`).
    pub fn buffer_size(self, bs: usize) -> (diff: Self)
        ensures
            diff@ == (Settings {
                buffer_size: if bs < 128 {
                    128
                } else {
                    bs as nat
                },
                ..self@
            }),
            diff@.bounded(),
    {
        proof {
            use_type_invariant(&self);
        }
        Bsdiff { bsize: if bs < 128 { 128 } else { bs }, ..self }
    }

    /// Start searching matches in target and constructing the patch file, which is appended to
    /// `patch`.
    ///
    /// The size of patch file would be returned if no error occurs.
    pub fn compare(&self, patch: &mut Vec<u8>) -> (r: Result<u64, PackError>)
        requires
            self@.source.len() <= MAX_LENGTH,
        ensures
            r is Ok,
            r->Ok_0 == self@.patch().len(),
            final(patch)@ == old(patch)@ + self@.patch(),
            self@.valid(),
            self@.bounded(),
            is_search(
                self@.source,
                self@.target,
                self@.small_match,
                self@.dismatch_count,
                self@.long_suffix,
                self@.chunk,
                self@.controls(),
            ),
            sections(self@.patch()) == Some(self@.sections()),
            sections(self@.patch()) == Some(
                (
                    bzip2_stream(control_stream(self@.controls()), self@.level),
                    bzip2_stream(
                        delta_stream(self@.source, self@.target, self@.controls()),
                        self@.level,
                    ),
                    bzip2_stream(extra_stream(self@.target, self@.controls()), self@.level),
                    self@.target.len(),
                ),
            ),
            packed_losslessly(self@.source, self@.target, self@.controls(), self@.level),
            forall|out: Seq<u8>| #[trigger]
                patch_gives(self@.source, self@.patch(), out) <==> out == self@.target,
    {
        proof {
            use_type_invariant(self);
        }
        assert(self.t.len() <= usize::MAX);
        proof {
            controls_cover_target(self@);
            settings_rule_the_search(self@);
        }
        let sa = SuffixArray::new(self.s);
        if let Some(chunk) = self.par {
            let diff = ParSaDiff::new(
                self.s,
                self.t,
                &sa,
                chunk,
                self.small,
                self.dismat,
                self.longsuf,
            );
            let ctrls: Vec<Control> = diff.compute();
            let r = pack(self.s, self.t, ctrls.as_slice(), self.level, self.bsize, patch);
            proof {
                patch_holds_streams(self@);
                patch_gives_target(self@);
            }
            r
        } else {
            let mut diff = SaDiff::new(
                self.s,
                self.t,
                &sa,
                self.small,
                self.dismat,
                self.longsuf,
            );
            let ctrls: Vec<Control> = diff.collect();
            let r = pack(self.s, self.t, ctrls.as_slice(), self.level, self.bsize, patch);
            proof {
                patch_holds_streams(self@);
                patch_gives_target(self@);
            }
            r
        }
    }
}

} // verus!
