//! Construction of the patch file.

use crate::control::{
    control_bytes, control_stream, encode_control, encode_int, from_le_bytes, int_bytes,
    int_is_sign_and_magnitude, int_reads_back, read_int, word_keeps_its_bits, Control,
};
use crate::encoder::{
    bzip2_stream, encoder_input, encoder_level, encodes_only, Compression, Encoder, PackError,
};
use crate::patch::{
    delta_stream, difference, extra_stream, fits, moved, source_move, target_move,
    target_move_is_forward,
};
use vstd::prelude::*;

verus! {

/// The eight bytes that every patch file begins with.
pub open spec fn magic() -> Seq<u8> {
    seq![0x42u8, 0x53, 0x44, 0x49, 0x46, 0x46, 0x34, 0x30]
}

/// A length as a patch file holds it.
pub open spec fn len_bytes(len: nat) -> Seq<u8> {
    int_bytes((len as u64) as i64)
}

/// A patch file: the magic bytes, the sizes of the first two sections and of the target, and
/// then the sections for controls, delta data and extra data.
pub open spec fn patch_file(
    ctrls: Seq<u8>,
    delta: Seq<u8>,
    extra: Seq<u8>,
    target_len: nat,
) -> Seq<u8> {
    magic() + len_bytes(ctrls.len()) + len_bytes(delta.len()) + len_bytes(target_len) + ctrls
        + delta + extra
}

/// The patch file for control records, with every section compressed.
pub open spec fn packed(
    s: Seq<u8>,
    t: Seq<u8>,
    ctrls: Seq<Control>,
    level: Compression,
) -> Seq<u8> {
    patch_file(
        bzip2_stream(control_stream(ctrls), level),
        bzip2_stream(delta_stream(s, t, ctrls), level),
        bzip2_stream(extra_stream(t, ctrls), level),
        t.len(),
    )
}

/// Each section of the patch file for control records is a bzip2 stream of what it was compressed
/// from, and of nothing else.
pub open spec fn packed_losslessly(
    s: Seq<u8>,
    t: Seq<u8>,
    ctrls: Seq<Control>,
    level: Compression,
) -> bool {
    let delta = delta_stream(s, t, ctrls);
    let extra = extra_stream(t, ctrls);
    &&& encodes_only(bzip2_stream(control_stream(ctrls), level), control_stream(ctrls))
    &&& encodes_only(bzip2_stream(delta, level), delta)
    &&& encodes_only(bzip2_stream(extra, level), extra)
}

/// The length that eight bytes of a patch file stand for.
pub open spec fn read_len(b: Seq<u8>) -> nat {
    ((read_int(b) as i64) as u64) as nat
}

/// The sections of a patch file and the size of the target. There is no result for bytes that
/// do not begin as a patch file does, or are shorter than their sections.
pub open spec fn sections(p: Seq<u8>) -> Option<(Seq<u8>, Seq<u8>, Seq<u8>, nat)> {
    if p.len() < 32 || p.take(8) != magic() {
        None
    } else {
        let to_delta = 32 + read_len(p.subrange(8, 16));
        let to_extra = to_delta + read_len(p.subrange(16, 24));
        if to_extra > p.len() {
            None
        } else {
            Some(
                (
                    p.subrange(32, to_delta as int),
                    p.subrange(to_delta as int, to_extra as int),
                    p.skip(to_extra as int),
                    read_len(p.subrange(24, 32)),
                ),
            )
        }
    }
}

/// A patch file is taken apart into the sections that it was made of.
pub proof fn sections_read_back(ctrls: Seq<u8>, delta: Seq<u8>, extra: Seq<u8>, target_len: nat)
    requires
        ctrls.len() <= u64::MAX,
        delta.len() <= u64::MAX,
        target_len <= u64::MAX,
    ensures
        sections(patch_file(ctrls, delta, extra, target_len)) == Some(
            (ctrls, delta, extra, target_len),
        ),
        patch_file(ctrls, delta, extra, target_len).len() == 32 + ctrls.len() + delta.len()
            + extra.len(),
{
    len_reads_back(ctrls.len());
    len_reads_back(delta.len());
    len_reads_back(target_len);
    parts_come_apart(
        magic(),
        len_bytes(ctrls.len()),
        len_bytes(delta.len()),
        len_bytes(target_len),
        ctrls,
        delta,
        extra,
    );
}

/// A patch file begins with the letters BSDIFF40. Then follow three lengths of eight bytes each,
/// least significant byte first: of the controls, of the delta data and of the target. Then follow
/// controls, delta data and extra data.
pub proof fn patch_file_layout(ctrls: Seq<u8>, delta: Seq<u8>, extra: Seq<u8>, target_len: nat)
    requires
        ctrls.len() <= i64::MAX,
        delta.len() <= i64::MAX,
        target_len <= i64::MAX,
    ensures
        ({
            let p = patch_file(ctrls, delta, extra, target_len);
            let to_delta = 32 + ctrls.len() as int;
            let to_extra = to_delta + delta.len();
            &&& p.len() == to_extra + extra.len()
            &&& p.take(8) == seq![0x42u8, 0x53, 0x44, 0x49, 0x46, 0x46, 0x34, 0x30]
            &&& from_le_bytes(p.subrange(8, 16)) == ctrls.len()
            &&& from_le_bytes(p.subrange(16, 24)) == delta.len()
            &&& from_le_bytes(p.subrange(24, 32)) == target_len
            &&& p.subrange(32, to_delta) == ctrls
            &&& p.subrange(to_delta, to_extra) == delta
            &&& p.skip(to_extra) == extra
        }),
{
    int_is_sign_and_magnitude((ctrls.len() as u64) as i64);
    int_is_sign_and_magnitude((delta.len() as u64) as i64);
    int_is_sign_and_magnitude((target_len as u64) as i64);
    parts_come_apart(
        magic(),
        len_bytes(ctrls.len()),
        len_bytes(delta.len()),
        len_bytes(target_len),
        ctrls,
        delta,
        extra,
    );
}

/// A length takes eight bytes, whatever it is.
pub proof fn len_takes_eight_bytes(len: nat)
    ensures
        len_bytes(len).len() == 8,
{
    int_reads_back((len as u64) as i64);
}

/// Every length reads back as it was written.
pub proof fn len_reads_back(len: nat)
    requires
        len <= u64::MAX,
    ensures
        len_bytes(len).len() == 8,
        read_len(len_bytes(len)) == len,
{
    int_reads_back((len as u64) as i64);
    word_keeps_its_bits(len as u64);
}

proof fn parts_come_apart(
    m: Seq<u8>,
    x: Seq<u8>,
    y: Seq<u8>,
    z: Seq<u8>,
    c: Seq<u8>,
    d: Seq<u8>,
    e: Seq<u8>,
)
    requires
        m.len() == 8,
        x.len() == 8,
        y.len() == 8,
        z.len() == 8,
    ensures
        ({
            let p = m + x + y + z + c + d + e;
            let to_d = 32 + c.len() as int;
            let to_e = to_d + d.len();
            &&& p.len() == to_e + e.len()
            &&& p.take(8) == m
            &&& p.subrange(8, 16) == x
            &&& p.subrange(16, 24) == y
            &&& p.subrange(24, 32) == z
            &&& p.subrange(32, to_d) == c
            &&& p.subrange(to_d, to_e) == d
            &&& p.skip(to_e) == e
        }),
{
    let p = m + x + y + z + c + d + e;
    let to_d = 32 + c.len() as int;
    let to_e = to_d + d.len();
    assert(p.take(8) =~= m);
    assert(p.subrange(8, 16) =~= x);
    assert(p.subrange(16, 24) =~= y);
    assert(p.subrange(24, 32) =~= z);
    assert(p.subrange(32, to_d) =~= c);
    assert(p.subrange(to_d, to_e) =~= d);
    assert(p.skip(to_e) =~= e);
}

/// Appends a patch file made of its sections.
pub fn write_patch(
    ctrls: &[u8],
    delta: &[u8],
    extra: &[u8],
    target_len: usize,
    patch: &mut Vec<u8>,
)
    ensures
        final(patch)@ == old(patch)@ + patch_file(ctrls@, delta@, extra@, target_len as nat),
{
    // Header: b"BSDIFF40", control size, delta size, target size.
    patch.push(0x42);
    patch.push(0x53);
    patch.push(0x44);
    patch.push(0x49);
    patch.push(0x46);
    patch.push(0x46);
    patch.push(0x34);
    patch.push(0x30);
    encode_int(ctrls.len() as u64 as i64, patch);
    encode_int(delta.len() as u64 as i64, patch);
    encode_int(target_len as u64 as i64, patch);
    patch.extend_from_slice(ctrls);
    patch.extend_from_slice(delta);
    patch.extend_from_slice(extra);
    assert(patch@ =~= old(patch)@ + patch_file(ctrls@, delta@, extra@, target_len as nat));
}

/// Writes what is to be added to `n` source bytes at `spos` to give the target bytes at `tpos`,
/// through a buffer of `bsize` bytes.
fn write_delta(
    s: &[u8],
    t: &[u8],
    spos: usize,
    tpos: usize,
    n: usize,
    bsize: usize,
    delta: &mut Encoder,
) -> (r: Result<(), PackError>)
    requires
        bsize > 0,
        spos + n <= s@.len(),
        tpos + n <= t@.len(),
    ensures
        r is Ok,
        encoder_input(*final(delta)) == encoder_input(*old(delta)) + difference(
            s@,
            t@,
            spos as int,
            tpos as int,
            n as nat,
        ),
        encoder_level(*final(delta)) == encoder_level(*old(delta)),
{
    let ghost before = encoder_input(*delta);
    assert(s.len() <= usize::MAX && t.len() <= usize::MAX);
    let mut dat: Vec<u8> = Vec::new();
    let mut done: usize = 0;
    assert(before + difference(s@, t@, spos as int, tpos as int, 0) =~= before);
    while done < n
        invariant
            bsize > 0,
            spos + n <= s@.len() <= usize::MAX,
            tpos + n <= t@.len() <= usize::MAX,
            done <= n,
            dat@.len() == 0,
            encoder_input(*delta) == before + difference(
                s@,
                t@,
                spos as int,
                tpos as int,
                done as nat,
            ),
            encoder_level(*delta) == encoder_level(*old(delta)),
        decreases n - done,
    {
        let k: usize = if n - done <= bsize {
            n - done
        } else {
            bsize
        };
        let mut x: usize = 0;
        while x < k
            invariant
                x <= k,
                done + k <= n,
                spos + n <= s@.len() <= usize::MAX,
                tpos + n <= t@.len() <= usize::MAX,
                dat@ == difference(s@, t@, spos + done, tpos + done, x as nat),
            decreases k - x,
        {
            dat.push(t[tpos + done + x].wrapping_sub(s[spos + done + x]));
            x = x + 1;
        }
        delta.write(dat.as_slice())?;
        dat.clear();
        assert(before + difference(s@, t@, spos as int, tpos as int, done as nat) + difference(
            s@,
            t@,
            spos + done,
            tpos + done,
            k as nat,
        ) =~= before + difference(s@, t@, spos as int, tpos as int, (done + k) as nat));
        done = done + k;
    }
    Ok(())
}

/// The encoders for the three sections of a patch file.
pub struct Sections {
    ctrls: Encoder,
    delta: Encoder,
    extra: Encoder,
}

impl Sections {
    /// What was written to the encoders: controls, delta data and extra data.
    pub closed spec fn written(&self) -> (Seq<u8>, Seq<u8>, Seq<u8>) {
        (encoder_input(self.ctrls), encoder_input(self.delta), encoder_input(self.extra))
    }

    /// All encoders have this compression level.
    pub closed spec fn level_is(&self, level: Compression) -> bool {
        &&& encoder_level(self.ctrls) == level
        &&& encoder_level(self.delta) == level
        &&& encoder_level(self.extra) == level
    }

    /// Encoders to which nothing was written yet.
    pub fn new(level: Compression) -> (sections: Sections)
        ensures
            sections.written() == (Seq::<u8>::empty(), Seq::<u8>::empty(), Seq::<u8>::empty()),
            sections.level_is(level),
    {
        Sections {
            ctrls: Encoder::new(level),
            delta: Encoder::new(level),
            extra: Encoder::new(level),
        }
    }

    /// Writes one control record, its delta data and its extra data, for the source position
    /// `spos` and the target position `tpos`.
    pub fn write(
        &mut self,
        s: &[u8],
        t: &[u8],
        ctl: Control,
        spos: u64,
        tpos: usize,
        bsize: usize,
    ) -> (r: Result<(), PackError>)
        requires
            bsize > 0,
            ctl.add > 0 ==> spos + ctl.add <= s@.len(),
            tpos + ctl.add + ctl.copy <= t@.len(),
        ensures
            r is Ok,
            final(self).written().0 == old(self).written().0 + control_bytes(ctl),
            final(self).written().1 == old(self).written().1 + difference(
                s@,
                t@,
                spos as int,
                tpos as int,
                ctl.add as nat,
            ),
            final(self).written().2 == old(self).written().2 + t@.subrange(
                tpos + ctl.add,
                tpos + ctl.add + ctl.copy,
            ),
            forall|level: Compression| old(self).level_is(level) ==> final(self).level_is(level),
    {
        assert(s.len() <= usize::MAX && t.len() <= usize::MAX);

        // Write control data.
        let mut cbuf: Vec<u8> = Vec::new();
        encode_control(ctl, &mut cbuf);
        match self.ctrls.write(cbuf.as_slice()) {
            Ok(_) => {},
            Err(e) => {
                return Err(e);
            },
        }
        // Compute and write delta data, using limited buffer.
        if ctl.add > 0 {
            match write_delta(
                s,
                t,
                spos as usize,
                tpos,
                ctl.add as usize,
                bsize,
                &mut self.delta,
            ) {
                Ok(_) => {},
                Err(e) => {
                    return Err(e);
                },
            }
        }
        // Write extra data.
        if ctl.copy > 0 {
            let from: usize = tpos + ctl.add as usize;
            match self.extra.write(&t[from..from + ctl.copy as usize]) {
                Ok(_) => {},
                Err(e) => {
                    return Err(e);
                },
            }
        }
        assert(cbuf@ =~= control_bytes(ctl));
        assert(encoder_input(self.delta) =~= encoder_input(old(self).delta) + difference(
            s@,
            t@,
            spos as int,
            tpos as int,
            ctl.add as nat,
        ));
        assert(encoder_input(self.extra) =~= encoder_input(old(self).extra) + t@.subrange(
            tpos + ctl.add,
            tpos + ctl.add + ctl.copy,
        ));
        Ok(())
    }

    /// Finishes the encoders, and appends the patch file made of their streams to `patch`.
    pub fn finish(self, target_len: usize, patch: &mut Vec<u8>) -> (r: Result<(), PackError>)
        ensures
            r is Ok,
            forall|level: Compression| #[trigger]
                self.level_is(level) ==> final(patch)@ == old(patch)@ + patch_file(
                    bzip2_stream(self.written().0, level),
                    bzip2_stream(self.written().1, level),
                    bzip2_stream(self.written().2, level),
                    target_len as nat,
                ),
            forall|level: Compression| #[trigger]
                self.level_is(level) ==> {
                    &&& encodes_only(bzip2_stream(self.written().0, level), self.written().0)
                    &&& encodes_only(bzip2_stream(self.written().1, level), self.written().1)
                    &&& encodes_only(bzip2_stream(self.written().2, level), self.written().2)
                },
    {
        let bz_ctrls: Vec<u8> = match self.ctrls.finish() {
            Ok(stream) => stream,
            Err(e) => {
                return Err(e);
            },
        };
        let bz_delta: Vec<u8> = match self.delta.finish() {
            Ok(stream) => stream,
            Err(e) => {
                return Err(e);
            },
        };
        let bz_extra: Vec<u8> = match self.extra.finish() {
            Ok(stream) => stream,
            Err(e) => {
                return Err(e);
            },
        };
        write_patch(
            bz_ctrls.as_slice(),
            bz_delta.as_slice(),
            bz_extra.as_slice(),
            target_len,
            patch,
        );
        Ok(())
    }
}

/// Construct bsdiff 4.x patch file from parts, and append it to `patch`. Returns its size.
pub fn pack(
    s: &[u8],
    t: &[u8],
    ctrls: &[Control],
    level: Compression,
    bsize: usize,
    patch: &mut Vec<u8>,
) -> (r: Result<u64, PackError>)
    requires
        bsize > 0,
        fits(s@.len() as int, t@.len() as int, 0, 0, ctrls@),
    ensures
        r is Ok,
        final(patch)@ == old(patch)@ + packed(s@, t@, ctrls@, level),
        r->Ok_0 == packed(s@, t@, ctrls@, level).len(),
        packed_losslessly(s@, t@, ctrls@, level),
{
    let mut sections = Sections::new(level);
    let mut spos: u64 = 0;
    let mut tpos: usize = 0;
    let mut q: usize = 0;
    assert(ctrls@.take(0) =~= seq![]);
    assert(s.len() <= usize::MAX && t.len() <= usize::MAX);
    while q < ctrls.len()
        invariant
            q <= ctrls@.len(),
            bsize > 0,
            s@.len() <= usize::MAX,
            t@.len() <= usize::MAX,
            fits(s@.len() as int, t@.len() as int, 0, 0, ctrls@),
            spos == source_move(ctrls@.take(q as int)) % 0x1_0000_0000_0000_0000,
            tpos == target_move(ctrls@.take(q as int)),
            sections.written().0 == control_stream(ctrls@.take(q as int)),
            sections.written().1 == delta_stream(s@, t@, ctrls@.take(q as int)),
            sections.written().2 == extra_stream(t@, ctrls@.take(q as int)),
            sections.level_is(level),
        decreases ctrls@.len() - q,
    {
        let ctl = ctrls[q];
        proof {
            streams_grow(s@, t@, ctrls@, q as int, spos);
        }
        match sections.write(s, t, ctl, spos, tpos, bsize) {
            Ok(_) => {},
            Err(e) => {
                return Err(e);
            },
        }
        spos = moved(spos, ctl);
        tpos = tpos + ctl.add as usize + ctl.copy as usize;
        q = q + 1;
    }
    assert(ctrls@.take(q as int) =~= ctrls@);
    let before: usize = patch.len();
    match sections.finish(t.len(), patch) {
        Ok(_) => {},
        Err(e) => {
            return Err(e);
        },
    }
    Ok((patch.len() - before) as u64)
}

/// What one more control record adds to the streams and to the positions.
proof fn streams_grow(s: Seq<u8>, t: Seq<u8>, ctrls: Seq<Control>, q: int, spos: u64)
    requires
        s.len() <= u64::MAX,
        spos == source_move(ctrls.take(q)) % 0x1_0000_0000_0000_0000,
        fits(s.len() as int, t.len() as int, 0, 0, ctrls),
        0 <= q < ctrls.len(),
    ensures
        ({
            let head = ctrls.take(q);
            let next = ctrls.take(q + 1);
            let c = ctrls[q];
            let tp = target_move(head);
            &&& c.add > 0 ==> spos + c.add <= s.len()
            &&& 0 <= tp
            &&& tp + c.add + c.copy <= t.len()
            &&& source_move(next) % 0x1_0000_0000_0000_0000 == (spos + c.add + c.seek)
                % 0x1_0000_0000_0000_0000
            &&& target_move(next) == tp + c.add + c.copy
            &&& control_stream(next) == control_stream(head) + control_bytes(c)
            &&& delta_stream(s, t, next) == delta_stream(s, t, head) + difference(
                s,
                t,
                spos as int,
                tp,
                c.add as nat,
            )
            &&& extra_stream(t, next) == extra_stream(t, head) + t.subrange(
                tp + c.add,
                tp + c.add + c.copy,
            )
        }),
{
    let next = ctrls.take(q + 1);
    assert(next.drop_last() =~= ctrls.take(q));
    assert(next.last() == ctrls[q]);
    fits_up_to(s.len() as int, t.len() as int, ctrls, q + 1);
    target_move_is_forward(ctrls.take(q));
    let sp = source_move(ctrls.take(q));
    let tp = target_move(ctrls.take(q));
    assert(ctrls[q].add > 0 ==> sp == spos);
    assert(difference(s, t, spos as int, tp, ctrls[q].add as nat) =~= difference(
        s,
        t,
        sp,
        tp,
        ctrls[q].add as nat,
    ));
}

/// What fits also fits up to any record.
proof fn fits_up_to(slen: int, tlen: int, ctrls: Seq<Control>, q: int)
    requires
        fits(slen, tlen, 0, 0, ctrls),
        0 <= q <= ctrls.len(),
    ensures
        fits(slen, tlen, 0, 0, ctrls.take(q)),
    decreases ctrls.len(),
{
    if q == ctrls.len() {
        assert(ctrls.take(q) =~= ctrls);
    } else {
        assert(ctrls.drop_last().take(q) =~= ctrls.take(q));
        fits_up_to(slen, tlen, ctrls.drop_last(), q);
    }
}

} // verus!
