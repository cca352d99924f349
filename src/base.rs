//! Reading and writing fixed-width integers as bytes.
use vstd::prelude::*;
use vstd::slice::slice_subrange;

verus! {

/// The unsigned value of `s` read most significant byte first.
pub open spec fn be_value(s: Seq<u8>) -> nat
    decreases s.len(),
{
    if s.len() == 0 {
        0
    } else {
        be_value(s.drop_last()) * 256 + s.last() as nat
    }
}

/// The unsigned value of `s` read least significant byte first.
pub open spec fn le_value(s: Seq<u8>) -> nat
    decreases s.len(),
{
    if s.len() == 0 {
        0
    } else {
        s[0] as nat + 256 * le_value(s.drop_first())
    }
}

/// The four bytes of `x`, least significant first.
pub open spec fn le_bytes_u32(x: u32) -> Seq<u8> {
    seq![
        (x % 0x100) as u8,
        (x / 0x100 % 0x100) as u8,
        (x / 0x1_0000 % 0x100) as u8,
        (x / 0x100_0000) as u8,
    ]
}

/// The first two bytes of `buf`, most significant first.
pub fn u16_from_be(buf: &[u8]) -> (r: u16)
    requires
        buf@.len() >= 2,
    ensures
        r == be_value(buf@.subrange(0, 2)),
{
    proof {
        reveal_with_fuel(be_value, 3);
        assert(buf@.subrange(0, 2).drop_last() =~= buf@.subrange(0, 1));
        assert(buf@.subrange(0, 1).drop_last() =~= buf@.subrange(0, 0));
    }
    buf[0] as u16 * 0x100 + buf[1] as u16
}

/// The first two bytes of `buf`, least significant first.
pub fn u16_from_le(buf: &[u8]) -> (r: u16)
    requires
        buf@.len() >= 2,
    ensures
        r == le_value(buf@.subrange(0, 2)),
{
    proof {
        reveal_with_fuel(le_value, 3);
        assert(buf@.subrange(0, 2).drop_first() =~= buf@.subrange(1, 2));
        assert(buf@.subrange(1, 2).drop_first() =~= buf@.subrange(2, 2));
    }
    buf[1] as u16 * 0x100 + buf[0] as u16
}

/// The two bytes of `x`, least significant first.
pub fn u16_to_le(x: u16) -> (r: [u8; 2])
    ensures
        r@ == seq![(x % 0x100) as u8, (x / 0x100) as u8],
        le_value(r@) == x,
{
    let r = [(x % 0x100) as u8, (x / 0x100) as u8];
    proof {
        reveal_with_fuel(le_value, 3);
        assert(r@ =~= seq![(x % 0x100) as u8, (x / 0x100) as u8]);
        assert(r@.drop_first().drop_first() =~= Seq::<u8>::empty());
    }
    r
}

/// The first four bytes of `buf`, most significant first.
pub fn u32_from_be(buf: &[u8]) -> (r: u32)
    requires
        buf@.len() >= 4,
    ensures
        r == be_value(buf@.subrange(0, 4)),
{
    proof {
        reveal_with_fuel(be_value, 5);
        assert(buf@.subrange(0, 4).drop_last() =~= buf@.subrange(0, 3));
        assert(buf@.subrange(0, 3).drop_last() =~= buf@.subrange(0, 2));
        assert(buf@.subrange(0, 2).drop_last() =~= buf@.subrange(0, 1));
        assert(buf@.subrange(0, 1).drop_last() =~= buf@.subrange(0, 0));
    }
    buf[0] as u32 * 0x100_0000 + buf[1] as u32 * 0x1_0000 + buf[2] as u32 * 0x100 + buf[3] as u32
}

/// The four bytes of `x`, most significant first.
pub fn u32_to_be(x: u32) -> (r: [u8; 4])
    ensures
        r@ == le_bytes_u32(x).reverse(),
{
    let r = [(x / 0x100_0000) as u8, (x / 0x1_0000 % 0x100) as u8, (x / 0x100 % 0x100) as u8, (x % 0x100) as u8];
    assert(r@ =~= le_bytes_u32(x).reverse());
    r
}

/// The four bytes of `x`, least significant first.
pub fn u32_to_le(x: u32) -> (r: [u8; 4])
    ensures
        r@ == le_bytes_u32(x),
{
    let r = [(x % 0x100) as u8, (x / 0x100 % 0x100) as u8, (x / 0x1_0000 % 0x100) as u8, (x / 0x100_0000) as u8];
    assert(r@ =~= le_bytes_u32(x));
    r
}

/// The value of a buffer of one to four bytes, least significant first.
pub fn u32_from_le(buf: &[u8]) -> (r: u32)
    requires
        1 <= buf@.len() <= 4,
    ensures
        r == le_value(buf@),
{
    proof {
        reveal_with_fuel(le_value, 5);
        let s = buf@;
        assert(s.drop_first().len() == s.len() - 1);
        if s.len() >= 2 {
            assert(s.drop_first()[0] == s[1]);
            assert(s.drop_first().drop_first() =~= s.subrange(2, s.len() as int));
        }
        if s.len() >= 3 {
            assert(s.drop_first().drop_first()[0] == s[2]);
            assert(s.drop_first().drop_first().drop_first() =~= s.subrange(3, s.len() as int));
        }
        if s.len() >= 4 {
            assert(s.drop_first().drop_first().drop_first()[0] == s[3]);
            assert(s.drop_first().drop_first().drop_first().drop_first() =~= s.subrange(4, 4));
        }
        if s.len() == 1 {
            assert(s.drop_first() =~= Seq::<u8>::empty());
        }
    }
    if buf.len() == 4 {
        buf[3] as u32 * 0x100_0000 + buf[2] as u32 * 0x1_0000 + buf[1] as u32 * 0x100 + buf[0] as u32
    } else if buf.len() == 3 {
        buf[2] as u32 * 0x1_0000 + buf[1] as u32 * 0x100 + buf[0] as u32
    } else if buf.len() == 2 {
        buf[1] as u32 * 0x100 + buf[0] as u32
    } else {
        buf[0] as u32
    }
}

/// The first four bytes of `buf`, least significant first, as a two's
/// complement signed value.
pub fn i32_from_le(buf: &[u8]) -> (r: i32)
    requires
        buf@.len() >= 4,
    ensures
        r == if le_value(buf@.subrange(0, 4)) < 0x8000_0000 {
            le_value(buf@.subrange(0, 4)) as int
        } else {
            le_value(buf@.subrange(0, 4)) - 0x1_0000_0000
        },
{
    let u = u32_from_le(slice_subrange(buf, 0, 4));
    if u < 0x8000_0000 {
        u as i32
    } else {
        (u as i64 - 0x1_0000_0000) as i32
    }
}

} // verus!
