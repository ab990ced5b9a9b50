//! Fixed-width integers as bytes, and the dimensions in a PNG header.
use vstd::prelude::*;

verus! {

/// The eight bytes of `v`, least significant first.
pub open spec fn le_bytes(v: u64) -> Seq<u8> {
    seq![
        v as u8,
        (v >> 8u64) as u8,
        (v >> 16u64) as u8,
        (v >> 24u64) as u8,
        (v >> 32u64) as u8,
        (v >> 40u64) as u8,
        (v >> 48u64) as u8,
        (v >> 56u64) as u8,
    ]
}

/// The `u64` whose bytes, least significant first, are `b[0..8]`.
pub open spec fn le_value(b: Seq<u8>) -> u64
    recommends
        b.len() == 8,
{
    (b[0] as u64) | ((b[1] as u64) << 8u64) | ((b[2] as u64) << 16u64) | ((b[3] as u64) << 24u64)
        | ((b[4] as u64) << 32u64) | ((b[5] as u64) << 40u64) | ((b[6] as u64) << 48u64) | ((
    b[7] as u64) << 56u64)
}

/// The number whose bytes, most significant first, are `b[0..4]`.
pub open spec fn be_u32(b: Seq<u8>) -> int
    recommends
        b.len() == 4,
{
    b[0] as int * 0x1000000 + b[1] as int * 0x10000 + b[2] as int * 0x100 + b[3] as int
}

/// The eight bytes with which every PNG file starts, then the length (13) and
/// the type (`IHDR`) of its first chunk.
pub open spec fn png_signature() -> Seq<u8> {
    seq![
        0x89u8, 0x50u8, 0x4Eu8, 0x47u8, 0x0Du8, 0x0Au8, 0x1Au8, 0x0Au8,
        0u8, 0u8, 0u8, 13u8, 73u8, 72u8, 68u8, 82u8,
    ]
}

/// Byte `which_byte` of `value`, counting from the least significant.
pub fn get_byte_of_u64(value: u64, which_byte: usize) -> (r: u8)
    requires
        which_byte < 8,
    ensures
        r == (value >> (8 * which_byte) as u64) as u8,
{
    let shift: u64 = (which_byte * 8) as u64;
    (value >> shift) as u8
}

/// `value` moved into byte `which_byte` of a `u64`, all other bytes zero.
pub fn get_u64_mask_of_byte(value: u8, which_byte: usize) -> (r: u64)
    requires
        which_byte < 8,
    ensures
        r == (value as u64) << (8 * which_byte) as u64,
{
    let shift: u64 = (which_byte * 8) as u64;
    (value as u64) << shift
}

/// `value` as eight little-endian bytes.
pub fn u64_to_u8_buf_little_endian(value: u64) -> (r: [u8; 8])
    ensures
        r@ == le_bytes(value),
        le_value(r@) == value,
{
    let r = [
        get_byte_of_u64(value, 0),
        get_byte_of_u64(value, 1),
        get_byte_of_u64(value, 2),
        get_byte_of_u64(value, 3),
        get_byte_of_u64(value, 4),
        get_byte_of_u64(value, 5),
        get_byte_of_u64(value, 6),
        get_byte_of_u64(value, 7),
    ];
    assert(r@ =~= le_bytes(value)) by {
        assert(r@.len() == 8);
        assert(value >> 0u64 == value) by (bit_vector);
        assert(r@[0] == le_bytes(value)[0]);
        assert(r@[1] == le_bytes(value)[1]);
        assert(r@[2] == le_bytes(value)[2]);
        assert(r@[3] == le_bytes(value)[3]);
        assert(r@[4] == le_bytes(value)[4]);
        assert(r@[5] == le_bytes(value)[5]);
        assert(r@[6] == le_bytes(value)[6]);
        assert(r@[7] == le_bytes(value)[7]);
    }
    proof {
        lemma_le_value_of_bytes(value);
    }
    r
}

/// The `u64` stored little-endian in `buf`.
pub fn u8_buf_to_u64_little_endian(buf: &[u8; 8]) -> (r: u64)
    ensures
        r == le_value(buf@),
        le_bytes(r) == buf@,
{
    let mut r: u64 = 0;
    let mut i: usize = 0;
    while i < 8
        invariant
            i <= 8,
            buf@.len() == 8,
            r == partial_le_value(buf@, i as nat),
        decreases 8 - i,
    {
        r = r | get_u64_mask_of_byte(buf[i], i);
        i = i + 1;
    }
    proof {
        lemma_le_bytes_of_value(buf@);
    }
    r
}

/// The bytes `b[0..n]` of a little-endian `u64`, the others taken as zero.
pub open spec fn partial_le_value(b: Seq<u8>, n: nat) -> u64
    decreases n,
{
    if n == 0 {
        0
    } else {
        partial_le_value(b, (n - 1) as nat) | ((b[n - 1] as u64) << (8 * (n - 1)) as u64)
    }
}

/// Reading back the bytes of a `u64` gives the `u64`.
pub proof fn lemma_le_value_of_bytes(v: u64)
    ensures
        le_value(le_bytes(v)) == v,
{
    let b = le_bytes(v);
    let (b0, b1, b2, b3, b4, b5, b6, b7) = (b[0], b[1], b[2], b[3], b[4], b[5], b[6], b[7]);
    assert(b0 == v as u8 && b1 == (v >> 8u64) as u8 && b2 == (v >> 16u64) as u8 && b3 == (v
        >> 24u64) as u8);
    assert(b4 == (v >> 32u64) as u8 && b5 == (v >> 40u64) as u8 && b6 == (v >> 48u64) as u8
        && b7 == (v >> 56u64) as u8);
    assert((v as u8 as u64) | (((v >> 8u64) as u8 as u64) << 8u64) | (((v >> 16u64) as u8 as u64)
        << 16u64) | (((v >> 24u64) as u8 as u64) << 24u64) | (((v >> 32u64) as u8 as u64)
        << 32u64) | (((v >> 40u64) as u8 as u64) << 40u64) | (((v >> 48u64) as u8 as u64)
        << 48u64) | (((v >> 56u64) as u8 as u64) << 56u64) == v) by (bit_vector);
}

/// Splitting the `u64` read from eight bytes gives those bytes back.
pub proof fn lemma_le_bytes_of_value(b: Seq<u8>)
    requires
        b.len() == 8,
    ensures
        le_bytes(le_value(b)) == b,
        partial_le_value(b, 8) == le_value(b),
{
    let (b0, b1, b2, b3, b4, b5, b6, b7) = (b[0], b[1], b[2], b[3], b[4], b[5], b[6], b[7]);
    let v = le_value(b);
    assert(v == (b0 as u64) | ((b1 as u64) << 8u64) | ((b2 as u64) << 16u64) | ((b3 as u64)
        << 24u64) | ((b4 as u64) << 32u64) | ((b5 as u64) << 40u64) | ((b6 as u64) << 48u64)
        | ((b7 as u64) << 56u64));
    assert(v as u8 == b0 && (v >> 8u64) as u8 == b1 && (v >> 16u64) as u8 == b2 && (v
        >> 24u64) as u8 == b3 && (v >> 32u64) as u8 == b4 && (v >> 40u64) as u8 == b5 && (v
        >> 48u64) as u8 == b6 && (v >> 56u64) as u8 == b7) by (bit_vector)
        requires
            v == (b0 as u64) | ((b1 as u64) << 8u64) | ((b2 as u64) << 16u64) | ((b3 as u64)
                << 24u64) | ((b4 as u64) << 32u64) | ((b5 as u64) << 40u64) | ((b6 as u64)
                << 48u64) | ((b7 as u64) << 56u64),
    ;
    assert(le_bytes(v) =~= b);
    reveal_with_fuel(partial_le_value, 9);
    assert(0u64 | ((b0 as u64) << 0u64) == (b0 as u64)) by (bit_vector);
}

/// The number stored big-endian in `buf`.
pub fn u8_buf_to_u32_big_endian(buf: &[u8; 4]) -> (r: u32)
    ensures
        r as int == be_u32(buf@),
{
    let (b0, b1, b2, b3) = (buf[0], buf[1], buf[2], buf[3]);
    let r = (b0 as u32) << 24u32 | (b1 as u32) << 16u32 | (b2 as u32) << 8u32 | (b3 as u32);
    assert(r == (b0 as u32) << 24u32 | (b1 as u32) << 16u32 | (b2 as u32) << 8u32 | (b3 as u32)
        ==> r == b0 as u32 * 0x1000000u32 + b1 as u32 * 0x10000u32 + b2 as u32 * 0x100u32
        + b3 as u32) by (bit_vector);
    r
}

/// Reads four bytes of `stream` from `*pos` on as a big-endian number, and
/// moves `*pos` past them; `None`, with `*pos` unchanged, where fewer than
/// four bytes are left.
pub fn u8_stream_to_u32_big_endian(stream: &[u8], pos: &mut usize) -> (r: Option<u32>)
    ensures
        *old(pos) + 4 <= stream@.len() ==> r == Some(be_u32(stream@.subrange(
            *old(pos) as int,
            *old(pos) + 4,
        )) as u32) && *final(pos) == *old(pos) + 4,
        *old(pos) + 4 > stream@.len() ==> r is None && *final(pos) == *old(pos),
{
    if *pos > stream.len() || stream.len() - *pos < 4 {
        return None;
    }
    let p = *pos;
    let buf: [u8; 4] = [stream[p], stream[p + 1], stream[p + 2], stream[p + 3]];
    assert(buf@ =~= stream@.subrange(p as int, p + 4));
    *pos = p + 4;
    Some(u8_buf_to_u32_big_endian(&buf))
}

/// The width and height of a PNG file that starts with `data`: `Ok` exactly
/// where the first sixteen bytes are the PNG signature and an `IHDR` chunk of
/// length 13, and the two numbers after them are there.
pub fn get_png_dimensions(data: &[u8]) -> (r: Result<(u32, u32), &'static str>)
    ensures
        r is Ok <==> data@.len() >= 24 && data@.subrange(0, 16) == png_signature(),
        r matches Ok((w, h)) ==> w as int == be_u32(data@.subrange(16, 20)) && h as int
            == be_u32(data@.subrange(20, 24)),
        data@.len() < 24 ==> (r matches Err(e) && e@ == "Truncated PNG header"@),
        data@.len() >= 24 && data@.subrange(0, 16) != png_signature() ==> (r matches Err(e) && e@
            == "Incorrect PNG header"@),
{
    proof {
        reveal_strlit("Truncated PNG header");
        reveal_strlit("Incorrect PNG header");
    }
    let reference: [u8; 16] = [
        0x89, 0x50, 0x4E, 0x47, 0x0D, 0x0A, 0x1A, 0x0A, 0, 0, 0, 13, 73, 72, 68, 82,
    ];
    if data.len() < 24 {
        return Err("Truncated PNG header");
    }
    let mut i: usize = 0;
    while i < 16
        invariant
            i <= 16,
            data@.len() >= 24,
            reference@ == png_signature(),
            data@.subrange(0, i as int) == png_signature().subrange(0, i as int),
        decreases 16 - i,
    {
        if data[i] != reference[i] {
            assert(data@.subrange(0, 16)[i as int] != png_signature()[i as int]);
            return Err("Incorrect PNG header");
        }
        assert(data@.subrange(0, i + 1) =~= data@.subrange(0, i as int).push(data@[i as int]));
        assert(png_signature().subrange(0, i + 1) =~= png_signature().subrange(0, i as int).push(
            png_signature()[i as int],
        ));
        i = i + 1;
    }
    assert(png_signature().subrange(0, 16) =~= png_signature());
    let mut pos: usize = 16;
    let w = u8_stream_to_u32_big_endian(data, &mut pos);
    let h = u8_stream_to_u32_big_endian(data, &mut pos);
    match (w, h) {
        (Some(w), Some(h)) => Ok((w, h)),
        _ => Err("Truncated PNG header"),
    }
}

} // verus!
