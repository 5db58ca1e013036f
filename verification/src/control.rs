//! Control records and how they are written.

use vstd::prelude::*;

verus! {

/// One step of a patch: add `add` bytes of delta data to as many source bytes, copy `copy`
/// bytes of extra data, then move the source position by `seek`.
#[derive(Clone, Copy, PartialEq, Eq, Structural, Debug)]
pub struct Control {
    pub add: u64,
    pub copy: u64,
    pub seek: i64,
}

/// Sign and magnitude of `x` in 64 bits, the sign in the top bit. The least integer, whose
/// magnitude does not fit, is the sign alone.
pub open spec fn sign_magnitude(x: i64) -> u64 {
    if x >= 0 {
        x as u64
    } else if x == i64::MIN {
        0x8000_0000_0000_0000
    } else {
        (0x8000_0000_0000_0000 - x) as u64
    }
}

/// The integer with this sign and magnitude.
pub open spec fn from_sign_magnitude(v: int) -> int {
    if v < 0x8000_0000_0000_0000 {
        v
    } else if v == 0x8000_0000_0000_0000 {
        i64::MIN as int
    } else {
        0x8000_0000_0000_0000 - v
    }
}

/// The eight bytes of `v`, least significant first.
pub open spec fn le_bytes(v: u64) -> Seq<u8> {
    seq![
        (v % 0x100) as u8,
        (v / 0x100 % 0x100) as u8,
        (v / 0x1_0000 % 0x100) as u8,
        (v / 0x100_0000 % 0x100) as u8,
        (v / 0x1_0000_0000 % 0x100) as u8,
        (v / 0x100_0000_0000 % 0x100) as u8,
        (v / 0x1_0000_0000_0000 % 0x100) as u8,
        (v / 0x100_0000_0000_0000) as u8,
    ]
}

/// The number that eight bytes stand for, least significant first.
pub open spec fn from_le_bytes(b: Seq<u8>) -> int {
    b[0] + b[1] * 0x100 + b[2] * 0x1_0000 + b[3] * 0x100_0000 + b[4] * 0x1_0000_0000 + b[5]
        * 0x100_0000_0000 + b[6] * 0x1_0000_0000_0000 + b[7] * 0x100_0000_0000_0000
}

/// An integer as a patch file holds it.
pub open spec fn int_bytes(x: i64) -> Seq<u8> {
    le_bytes(sign_magnitude(x))
}

/// The integer that eight bytes of a patch file stand for.
pub open spec fn read_int(b: Seq<u8>) -> int {
    from_sign_magnitude(from_le_bytes(b))
}

/// A control record as a patch file holds it.
pub open spec fn control_bytes(c: Control) -> Seq<u8> {
    int_bytes(c.add as i64) + int_bytes(c.copy as i64) + int_bytes(c.seek)
}

/// The control record that 24 bytes of a patch file stand for.
pub open spec fn read_control(b: Seq<u8>) -> Control {
    Control {
        add: (read_int(b.subrange(0, 8)) as i64) as u64,
        copy: (read_int(b.subrange(8, 16)) as i64) as u64,
        seek: read_int(b.subrange(16, 24)) as i64,
    }
}

/// The control records one after the other.
pub open spec fn control_stream(ctrls: Seq<Control>) -> Seq<u8>
    decreases ctrls.len(),
{
    if ctrls.len() == 0 {
        seq![]
    } else {
        control_stream(ctrls.drop_last()) + control_bytes(ctrls.last())
    }
}

/// The control records that a control stream stands for; a rest of fewer than 24 bytes is
/// dropped.
pub open spec fn read_controls(b: Seq<u8>) -> Seq<Control>
    decreases b.len(),
{
    if b.len() < 24 {
        seq![]
    } else {
        read_controls(b.take(b.len() - 24)).push(read_control(b.skip(b.len() - 24)))
    }
}

/// Every integer reads back as it was written.
pub proof fn int_reads_back(x: i64)
    ensures
        int_bytes(x).len() == 8,
        read_int(int_bytes(x)) == x,
{
    let v = sign_magnitude(x);
    le_bytes_read_back(v);
}

/// An integer is written as its magnitude, least significant byte first, with the sign in the top
/// bit.
pub proof fn int_is_sign_and_magnitude(x: i64)
    ensures
        int_bytes(x).len() == 8,
        x >= 0 ==> from_le_bytes(int_bytes(x)) == x,
        i64::MIN < x < 0 ==> from_le_bytes(int_bytes(x)) == 0x8000_0000_0000_0000 + (-x),
        x == i64::MIN ==> from_le_bytes(int_bytes(x)) == 0x8000_0000_0000_0000,
{
    le_bytes_read_back(sign_magnitude(x));
}

proof fn le_bytes_read_back(v: u64)
    ensures
        from_le_bytes(le_bytes(v)) == v,
{
    let b = le_bytes(v);
    assert(v / 0x100 / 0x100 == v / 0x1_0000);
    assert(v / 0x1_0000 / 0x100 == v / 0x100_0000);
    assert(v / 0x100_0000 / 0x100 == v / 0x1_0000_0000);
    assert(v / 0x1_0000_0000 / 0x100 == v / 0x100_0000_0000);
    assert(v / 0x100_0000_0000 / 0x100 == v / 0x1_0000_0000_0000);
    assert(v / 0x1_0000_0000_0000 / 0x100 == v / 0x100_0000_0000_0000);
}

/// Every control record reads back as it was written.
pub proof fn control_reads_back(c: Control)
    ensures
        control_bytes(c).len() == 24,
        read_control(control_bytes(c)) == c,
{
    let (x, y, z) = (c.add as i64, c.copy as i64, c.seek);
    int_reads_back(x);
    int_reads_back(y);
    int_reads_back(z);
    let b = control_bytes(c);
    assert(b.subrange(0, 8) =~= int_bytes(x));
    assert(b.subrange(8, 16) =~= int_bytes(y));
    assert(b.subrange(16, 24) =~= int_bytes(z));
    word_keeps_its_bits(c.add);
    word_keeps_its_bits(c.copy);
}

/// A 64-bit word survives being taken for a signed one.
pub proof fn word_keeps_its_bits(v: u64)
    ensures
        (v as i64) as u64 == v,
{
    assert((v as i64) as u64 == v) by (bit_vector);
}

/// A control stream reads back as the control records that it was written from.
pub proof fn control_stream_reads_back(ctrls: Seq<Control>)
    ensures
        control_stream(ctrls).len() == 24 * ctrls.len(),
        read_controls(control_stream(ctrls)) == ctrls,
    decreases ctrls.len(),
{
    if ctrls.len() > 0 {
        let head = ctrls.drop_last();
        let b = control_stream(ctrls);
        control_stream_reads_back(head);
        control_reads_back(ctrls.last());
        assert(b.take(b.len() - 24) =~= control_stream(head));
        assert(b.skip(b.len() - 24) =~= control_bytes(ctrls.last()));
        assert(head.push(ctrls.last()) =~= ctrls);
    }
}

/// Appends an integer as a patch file holds it.
pub fn encode_int(x: i64, out: &mut Vec<u8>)
    ensures
        final(out)@ == old(out)@ + int_bytes(x),
{
    let v: u64 = if x >= 0 {
        x as u64
    } else if x == i64::MIN {
        0x8000_0000_0000_0000
    } else {
        0x8000_0000_0000_0000 + (-x) as u64
    };
    out.push((v % 0x100) as u8);
    out.push((v / 0x100 % 0x100) as u8);
    out.push((v / 0x1_0000 % 0x100) as u8);
    out.push((v / 0x100_0000 % 0x100) as u8);
    out.push((v / 0x1_0000_0000 % 0x100) as u8);
    out.push((v / 0x100_0000_0000 % 0x100) as u8);
    out.push((v / 0x1_0000_0000_0000 % 0x100) as u8);
    out.push((v / 0x100_0000_0000_0000) as u8);
    assert(out@ =~= old(out)@ + int_bytes(x));
}

/// Appends a control record as a patch file holds it.
pub fn encode_control(c: Control, out: &mut Vec<u8>)
    ensures
        final(out)@ == old(out)@ + control_bytes(c),
{
    encode_int(c.add as i64, out);
    encode_int(c.copy as i64, out);
    encode_int(c.seek, out);
    assert(out@ =~= old(out)@ + control_bytes(c));
}

} // verus!
