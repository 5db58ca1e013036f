//! What a patch holds, and what applying it gives.

use crate::control::Control;
use vstd::prelude::*;

verus! {

/// How far control records move the source position.
pub open spec fn source_move(ctrls: Seq<Control>) -> int
    decreases ctrls.len(),
{
    if ctrls.len() == 0 {
        0
    } else {
        source_move(ctrls.drop_last()) + ctrls.last().add + ctrls.last().seek
    }
}

/// How many target bytes control records produce.
pub open spec fn target_move(ctrls: Seq<Control>) -> int
    decreases ctrls.len(),
{
    if ctrls.len() == 0 {
        0
    } else {
        target_move(ctrls.drop_last()) + ctrls.last().add + ctrls.last().copy
    }
}

/// Control records that start at `spos` and `tpos` read source bytes inside the source and
/// produce target bytes inside the target.
pub open spec fn fits(slen: int, tlen: int, spos: int, tpos: int, ctrls: Seq<Control>) -> bool
    decreases ctrls.len(),
{
    ctrls.len() > 0 ==> {
        let head = ctrls.drop_last();
        let last = ctrls.last();
        &&& fits(slen, tlen, spos, tpos, head)
        &&& last.add > 0 ==> 0 <= spos + source_move(head) && spos + source_move(head) + last.add
            <= slen
        &&& tpos + target_move(head) + last.add + last.copy <= tlen
    }
}

/// What is to be added to `n` source bytes at `spos` to give the target bytes at `tpos`.
pub open spec fn difference(s: Seq<u8>, t: Seq<u8>, spos: int, tpos: int, n: nat) -> Seq<u8> {
    Seq::new(n, |x: int| t[tpos + x].wrapping_sub(s[spos + x]))
}

/// The delta data of all control records.
pub open spec fn delta_stream(s: Seq<u8>, t: Seq<u8>, ctrls: Seq<Control>) -> Seq<u8>
    decreases ctrls.len(),
{
    if ctrls.len() == 0 {
        seq![]
    } else {
        let head = ctrls.drop_last();
        delta_stream(s, t, head) + difference(
            s,
            t,
            source_move(head),
            target_move(head),
            ctrls.last().add as nat,
        )
    }
}

/// The extra data of all control records.
pub open spec fn extra_stream(t: Seq<u8>, ctrls: Seq<Control>) -> Seq<u8>
    decreases ctrls.len(),
{
    if ctrls.len() == 0 {
        seq![]
    } else {
        let head = ctrls.drop_last();
        let from = target_move(head) + ctrls.last().add;
        extra_stream(t, head) + t.subrange(from, from + ctrls.last().copy)
    }
}

/// How far the application of a patch has come: what it has produced, and how far it has moved
/// in the source, the delta data and the extra data.
pub struct Progress {
    pub out: Seq<u8>,
    pub spos: int,
    pub dpos: int,
    pub epos: int,
}

/// Applies control records to a source. There is no result where one of them reads beyond the
/// source, the delta data or the extra data.
pub open spec fn apply(
    s: Seq<u8>,
    ctrls: Seq<Control>,
    delta: Seq<u8>,
    extra: Seq<u8>,
) -> Option<Progress>
    decreases ctrls.len(),
{
    if ctrls.len() == 0 {
        Some(Progress { out: seq![], spos: 0, dpos: 0, epos: 0 })
    } else {
        let c = ctrls.last();
        match apply(s, ctrls.drop_last(), delta, extra) {
            None => None,
            Some(p) => {
                if (c.add > 0 ==> 0 <= p.spos && p.spos + c.add <= s.len()) && p.dpos + c.add
                    <= delta.len() && p.epos + c.copy <= extra.len() {
                    Some(
                        Progress {
                            out: p.out + Seq::new(
                                c.add as nat,
                                |x: int| s[p.spos + x].wrapping_add(delta[p.dpos + x]),
                            ) + extra.subrange(p.epos, p.epos + c.copy),
                            spos: p.spos + c.add + c.seek,
                            dpos: p.dpos + c.add,
                            epos: p.epos + c.copy,
                        },
                    )
                } else {
                    None
                }
            },
        }
    }
}

/// The source position behind a control record, in 64 bits.
pub fn moved(spos: u64, ctl: Control) -> (pos: u64)
    ensures
        pos == (spos + ctl.add + ctl.seek) % 0x1_0000_0000_0000_0000,
{
    spos.wrapping_add(ctl.add).wrapping_add_signed(ctl.seek)
}

/// Moves of records that follow each other add up.
pub proof fn moves_add_up(c: Seq<Control>, d: Seq<Control>)
    ensures
        source_move(c + d) == source_move(c) + source_move(d),
        target_move(c + d) == target_move(c) + target_move(d),
    decreases d.len(),
{
    if d.len() == 0 {
        assert(c + d =~= c);
    } else {
        assert((c + d).drop_last() =~= c + d.drop_last());
        moves_add_up(c, d.drop_last());
    }
}

/// Records that fit behind records that fit make records that fit.
pub proof fn fits_join(
    slen: int,
    tlen: int,
    spos: int,
    tpos: int,
    c: Seq<Control>,
    d: Seq<Control>,
)
    requires
        fits(slen, tlen, spos, tpos, c),
        fits(slen, tlen, spos + source_move(c), tpos + target_move(c), d),
    ensures
        fits(slen, tlen, spos, tpos, c + d),
    decreases d.len(),
{
    if d.len() == 0 {
        assert(c + d =~= c);
    } else {
        assert((c + d).drop_last() =~= c + d.drop_last());
        fits_join(slen, tlen, spos, tpos, c, d.drop_last());
        moves_add_up(c, d.drop_last());
    }
}

/// Records that fit a part of the target fit the whole, moved to where the part begins.
pub proof fn fits_in_whole(
    slen: int,
    part: int,
    whole: int,
    spos: int,
    tpos: int,
    by: int,
    c: Seq<Control>,
)
    requires
        fits(slen, part, spos, tpos, c),
        part + by <= whole,
    ensures
        fits(slen, whole, spos, tpos + by, c),
    decreases c.len(),
{
    if c.len() > 0 {
        fits_in_whole(slen, part, whole, spos, tpos, by, c.drop_last());
    }
}

/// Records produce no fewer than no bytes.
pub proof fn target_move_is_forward(c: Seq<Control>)
    ensures
        0 <= target_move(c),
    decreases c.len(),
{
    if c.len() > 0 {
        target_move_is_forward(c.drop_last());
    }
}

/// Every target byte that control records produce comes from one byte of delta data or one byte
/// of extra data.
pub proof fn streams_share_target(s: Seq<u8>, t: Seq<u8>, c: Seq<Control>)
    requires
        fits(s.len() as int, t.len() as int, 0, 0, c),
    ensures
        delta_stream(s, t, c).len() + extra_stream(t, c).len() == target_move(c),
    decreases c.len(),
{
    if c.len() > 0 {
        streams_share_target(s, t, c.drop_last());
        target_move_is_forward(c.drop_last());
    }
}

proof fn apply_restores_prefix(
    s: Seq<u8>,
    t: Seq<u8>,
    c: Seq<Control>,
    delta: Seq<u8>,
    extra: Seq<u8>,
)
    requires
        fits(s.len() as int, t.len() as int, 0, 0, c),
        delta_stream(s, t, c).is_prefix_of(delta),
        extra_stream(t, c).is_prefix_of(extra),
    ensures
        apply(s, c, delta, extra) == Some(
            Progress {
                out: t.take(target_move(c)),
                spos: source_move(c),
                dpos: delta_stream(s, t, c).len() as int,
                epos: extra_stream(t, c).len() as int,
            },
        ),
    decreases c.len(),
{
    if c.len() == 0 {
        assert(t.take(0) =~= seq![]);
    } else {
        let head = c.drop_last();
        let last = c.last();
        let sp = source_move(head);
        let tp = target_move(head);
        target_move_is_forward(head);
        let dh = delta_stream(s, t, head);
        let eh = extra_stream(t, head);
        let dl = delta_stream(s, t, c);
        let el = extra_stream(t, c);
        assert(dh =~= dl.take(dh.len() as int));
        assert(eh =~= el.take(eh.len() as int));
        assert(dh =~= delta.take(dh.len() as int));
        assert(eh =~= extra.take(eh.len() as int));
        apply_restores_prefix(s, t, head, delta, extra);
        let p = apply(s, head, delta, extra)->0;
        let added = Seq::new(
            last.add as nat,
            |x: int| s[p.spos + x].wrapping_add(delta[p.dpos + x]),
        );
        let copied = extra.subrange(p.epos, p.epos + last.copy);
        assert(added =~= t.subrange(tp, tp + last.add)) by {
            assert forall|x: int| 0 <= x < last.add implies added[x] == t[tp + x] by {
                assert(delta[p.dpos + x] == dl[p.dpos + x]);
                assert(dl[p.dpos + x] == t[tp + x].wrapping_sub(s[sp + x]));
            }
        }
        assert(copied =~= t.subrange(tp + last.add, tp + last.add + last.copy)) by {
            assert forall|x: int| 0 <= x < last.copy implies copied[x] == t[tp + last.add + x] by {
                assert(extra[p.epos + x] == el[p.epos + x]);
            }
        }
        assert(p.out + added + copied =~= t.take(target_move(c)));
    }
}

/// Control records that fit a source and a target, applied to the source with the delta and
/// extra data made for them, give back the target as far as they reach, and use all data up.
pub proof fn patch_restores_target(s: Seq<u8>, t: Seq<u8>, c: Seq<Control>)
    requires
        fits(s.len() as int, t.len() as int, 0, 0, c),
    ensures
        apply(s, c, delta_stream(s, t, c), extra_stream(t, c)) == Some(
            Progress {
                out: t.take(target_move(c)),
                spos: source_move(c),
                dpos: delta_stream(s, t, c).len() as int,
                epos: extra_stream(t, c).len() as int,
            },
        ),
{
    apply_restores_prefix(s, t, c, delta_stream(s, t, c), extra_stream(t, c));
}

} // verus!
