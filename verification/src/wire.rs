//! Integers as bytes: big-endian words and the variable-length integer of
//! the network protocol.

use vstd::prelude::*;

verus! {

/// The bytes of a variable-length integer: seven bits a byte, the low group
/// first, the top bit of a byte set while more bytes follow.
pub open spec fn var_int(v: u32) -> Seq<u8>
    decreases v,
{
    if v < 128 {
        seq![v as u8]
    } else {
        seq![(v % 128 + 128) as u8] + var_int(v / 128)
    }
}

/// A signed 32-bit value read as unsigned: its two's complement.
pub open spec fn unsigned_of(v: i32) -> u32 {
    if v < 0 {
        (v + 0x1_0000_0000) as u32
    } else {
        v as u32
    }
}

/// The variable-length bytes of a signed 32-bit value.
pub open spec fn var_int_i32(v: i32) -> Seq<u8> {
    var_int(unsigned_of(v))
}

/// The variable-length bytes of each value of `vs`, one after another.
pub open spec fn var_ints(vs: Seq<i32>) -> Seq<u8>
    decreases vs.len(),
{
    if vs.len() == 0 {
        Seq::<u8>::empty()
    } else {
        var_ints(vs.drop_last()) + var_int_i32(vs.last())
    }
}

/// The two bytes of `v`, the high byte first.
pub open spec fn be_u16(v: u16) -> Seq<u8> {
    seq![(v / 256) as u8, (v % 256) as u8]
}

/// The eight bytes of `v`, the highest byte first.
pub open spec fn be_u64(v: u64) -> Seq<u8> {
    seq![
        (v / 0x100_0000_0000_0000) as u8,
        (v / 0x1_0000_0000_0000 % 256) as u8,
        (v / 0x100_0000_0000 % 256) as u8,
        (v / 0x1_0000_0000 % 256) as u8,
        (v / 0x100_0000 % 256) as u8,
        (v / 0x1_0000 % 256) as u8,
        (v / 0x100 % 256) as u8,
        (v % 256) as u8,
    ]
}

/// The bytes of each long of `longs`, the highest byte of each first.
pub open spec fn be_longs(longs: Seq<u64>) -> Seq<u8>
    decreases longs.len(),
{
    if longs.len() == 0 {
        Seq::<u8>::empty()
    } else {
        be_longs(longs.drop_last()) + be_u64(longs.last())
    }
}

/// The value of three bytes, the high byte first.
pub open spec fn from_be_u24(b0: u8, b1: u8, b2: u8) -> int {
    b0 * 0x1_0000 + b1 * 0x100 + b2
}

/// The value of four bytes, the high byte first.
pub open spec fn from_be_u32(b0: u8, b1: u8, b2: u8, b3: u8) -> int {
    b0 * 0x100_0000 + b1 * 0x1_0000 + b2 * 0x100 + b3
}

/// Appends the variable-length bytes of `value` to `out`.
pub fn write_var_int(out: &mut Vec<u8>, value: i32)
    ensures
        final(out)@ == old(out)@ + var_int_i32(value),
{
    let mut rest: u32 = if value < 0 {
        ((value as i64) + 0x1_0000_0000i64) as u32
    } else {
        value as u32
    };
    while rest >= 128
        invariant
            out@ + var_int(rest) == old(out)@ + var_int_i32(value),
        decreases rest,
    {
        let byte: u8 = (rest % 128 + 128) as u8;
        proof {
            assert(out@.push(byte) + var_int(rest / 128) =~= out@ + var_int(rest));
        }
        out.push(byte);
        rest = rest / 128;
    }
    proof {
        assert(out@.push(rest as u8) =~= out@ + var_int(rest));
    }
    out.push(rest as u8);
}

/// Appends the two bytes of `value` to `out`, the high byte first.
pub fn write_be_u16(out: &mut Vec<u8>, value: u16)
    ensures
        final(out)@ == old(out)@ + be_u16(value),
{
    out.push((value / 256) as u8);
    out.push((value % 256) as u8);
    assert(out@ =~= old(out)@ + be_u16(value));
}

/// Appends the eight bytes of `value` to `out`, the highest byte first.
pub fn write_be_u64(out: &mut Vec<u8>, value: u64)
    ensures
        final(out)@ == old(out)@ + be_u64(value),
{
    out.push((value / 0x100_0000_0000_0000) as u8);
    out.push((value / 0x1_0000_0000_0000 % 256) as u8);
    out.push((value / 0x100_0000_0000 % 256) as u8);
    out.push((value / 0x1_0000_0000 % 256) as u8);
    out.push((value / 0x100_0000 % 256) as u8);
    out.push((value / 0x1_0000 % 256) as u8);
    out.push((value / 0x100 % 256) as u8);
    out.push((value % 256) as u8);
    assert(out@ =~= old(out)@ + be_u64(value));
}

/// Appends the bytes of every long of `longs` to `out`.
pub fn write_be_longs(out: &mut Vec<u8>, longs: &Vec<u64>)
    ensures
        final(out)@ == old(out)@ + be_longs(longs@),
{
    let mut i: usize = 0;
    assert(longs@.take(0) =~= Seq::<u64>::empty());
    while i < longs.len()
        invariant
            i <= longs.len(),
            out@ == old(out)@ + be_longs(longs@.take(i as int)),
        decreases longs.len() - i,
    {
        proof {
            let next = longs@.take(i + 1);
            assert(next.drop_last() =~= longs@.take(i as int));
            assert(next.last() == longs@[i as int]);
            assert(old(out)@ + be_longs(next) =~= out@ + be_u64(longs@[i as int]));
        }
        write_be_u64(out, longs[i]);
        i = i + 1;
    }
    assert(longs@.take(longs.len() as int) =~= longs@);
}

/// A variable-length integer takes one to five bytes.
pub proof fn lemma_var_int_len(v: u32)
    ensures
        1 <= var_int(v).len() <= 5,
        v < 128 <==> var_int(v).len() == 1,
{
    reveal_with_fuel(var_int, 6);
}

} // verus!
