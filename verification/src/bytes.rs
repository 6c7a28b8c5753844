//! Little-endian byte encodings of the fixed-width integers that the
//! on-disk formats use, with executable writers and readers proved
//! against the spec-level encodings.

use vstd::prelude::*;

verus! {

/// The two little-endian bytes of a `u16`.
pub open spec fn le16(x: u16) -> Seq<u8> {
    seq![(x & 0xff) as u8, ((x >> 8) & 0xff) as u8]
}

/// The four little-endian bytes of a `u32`.
pub open spec fn le32(x: u32) -> Seq<u8> {
    seq![
        (x & 0xff) as u8,
        ((x >> 8) & 0xff) as u8,
        ((x >> 16) & 0xff) as u8,
        ((x >> 24) & 0xff) as u8,
    ]
}

/// The eight little-endian bytes of a `u64`.
pub open spec fn le64(x: u64) -> Seq<u8> {
    seq![
        (x & 0xff) as u8,
        ((x >> 8) & 0xff) as u8,
        ((x >> 16) & 0xff) as u8,
        ((x >> 24) & 0xff) as u8,
        ((x >> 32) & 0xff) as u8,
        ((x >> 40) & 0xff) as u8,
        ((x >> 48) & 0xff) as u8,
        ((x >> 56) & 0xff) as u8,
    ]
}

/// Appends the two little-endian bytes of `x` to `out`.
pub fn push_le16(out: &mut Vec<u8>, x: u16)
    ensures
        final(out)@ == old(out)@ + le16(x),
{
    out.push((x & 0xff) as u8);
    out.push(((x >> 8) & 0xff) as u8);
    proof {
        assert(final(out)@ =~= old(out)@ + le16(x));
    }
}

/// Appends the four little-endian bytes of `x` to `out`.
pub fn push_le32(out: &mut Vec<u8>, x: u32)
    ensures
        final(out)@ == old(out)@ + le32(x),
{
    out.push((x & 0xff) as u8);
    out.push(((x >> 8) & 0xff) as u8);
    out.push(((x >> 16) & 0xff) as u8);
    out.push(((x >> 24) & 0xff) as u8);
    proof {
        assert(final(out)@ =~= old(out)@ + le32(x));
    }
}

/// Appends the eight little-endian bytes of `x` to `out`.
pub fn push_le64(out: &mut Vec<u8>, x: u64)
    ensures
        final(out)@ == old(out)@ + le64(x),
{
    out.push((x & 0xff) as u8);
    out.push(((x >> 8) & 0xff) as u8);
    out.push(((x >> 16) & 0xff) as u8);
    out.push(((x >> 24) & 0xff) as u8);
    out.push(((x >> 32) & 0xff) as u8);
    out.push(((x >> 40) & 0xff) as u8);
    out.push(((x >> 48) & 0xff) as u8);
    out.push(((x >> 56) & 0xff) as u8);
    proof {
        assert(final(out)@ =~= old(out)@ + le64(x));
    }
}

/// The eight little-endian bytes of `x`, as an array.
pub fn le64_array(x: u64) -> (r: [u8; 8])
    ensures
        r@ == le64(x),
{
    let r = [
        (x & 0xff) as u8,
        ((x >> 8) & 0xff) as u8,
        ((x >> 16) & 0xff) as u8,
        ((x >> 24) & 0xff) as u8,
        ((x >> 32) & 0xff) as u8,
        ((x >> 40) & 0xff) as u8,
        ((x >> 48) & 0xff) as u8,
        ((x >> 56) & 0xff) as u8,
    ];
    proof {
        assert(r@ =~= le64(x));
    }
    r
}

/// The `u16` whose little-endian bytes are `b0, b1`.
pub fn read_le16(b0: u8, b1: u8) -> (r: u16)
    ensures
        le16(r) == seq![b0, b1],
{
    let r: u16 = (b0 as u16) | ((b1 as u16) << 8);
    proof {
        assert(((((b0 as u16) | ((b1 as u16) << 8)) & 0xff) as u8) == b0) by (bit_vector);
        assert((((((b0 as u16) | ((b1 as u16) << 8)) >> 8) & 0xff) as u8) == b1) by (bit_vector);
        assert(le16(r) =~= seq![b0, b1]);
    }
    r
}

/// The `u32` whose little-endian bytes are `b0 .. b3`.
pub fn read_le32(b0: u8, b1: u8, b2: u8, b3: u8) -> (r: u32)
    ensures
        le32(r) == seq![b0, b1, b2, b3],
{
    let r: u32 = (b0 as u32) | ((b1 as u32) << 8) | ((b2 as u32) << 16) | ((b3 as u32) << 24);
    proof {
        let v = r;
        assert((v & 0xff) as u8 == b0 && ((v >> 8) & 0xff) as u8 == b1 && ((v >> 16)
            & 0xff) as u8 == b2 && ((v >> 24) & 0xff) as u8 == b3) by (bit_vector)
            requires
                v == (b0 as u32) | ((b1 as u32) << 8) | ((b2 as u32) << 16) | ((b3 as u32) << 24),
        ;
        assert(le32(r) =~= seq![b0, b1, b2, b3]);
    }
    r
}

/// The `u64` whose little-endian bytes are `b0 .. b7`.
pub fn read_le64(b0: u8, b1: u8, b2: u8, b3: u8, b4: u8, b5: u8, b6: u8, b7: u8) -> (r: u64)
    ensures
        le64(r) == seq![b0, b1, b2, b3, b4, b5, b6, b7],
{
    let lo: u32 = read_le32(b0, b1, b2, b3);
    let hi: u32 = read_le32(b4, b5, b6, b7);
    let r: u64 = (lo as u64) | ((hi as u64) << 32);
    proof {
        let v = r;
        assert((v & 0xff) as u8 == (lo & 0xff) as u8 && ((v >> 8) & 0xff) as u8 == ((lo >> 8)
            & 0xff) as u8 && ((v >> 16) & 0xff) as u8 == ((lo >> 16) & 0xff) as u8 && ((v >> 24)
            & 0xff) as u8 == ((lo >> 24) & 0xff) as u8 && ((v >> 32) & 0xff) as u8 == (hi
            & 0xff) as u8 && ((v >> 40) & 0xff) as u8 == ((hi >> 8) & 0xff) as u8 && ((v >> 48)
            & 0xff) as u8 == ((hi >> 16) & 0xff) as u8 && ((v >> 56) & 0xff) as u8 == ((hi >> 24)
            & 0xff) as u8) by (bit_vector)
            requires
                v == (lo as u64) | ((hi as u64) << 32),
        ;
        assert(le64(r) =~= seq![b0, b1, b2, b3, b4, b5, b6, b7]);
    }
    r
}

/// The `u16` assembled from two little-endian bytes.
pub open spec fn u16_of_le(b0: u8, b1: u8) -> u16 {
    (b0 as u16) | ((b1 as u16) << 8)
}

/// The `u32` assembled from four little-endian bytes.
pub open spec fn u32_of_le(b0: u8, b1: u8, b2: u8, b3: u8) -> u32 {
    (b0 as u32) | ((b1 as u32) << 8) | ((b2 as u32) << 16) | ((b3 as u32) << 24)
}

/// The `u64` assembled from eight little-endian bytes.
pub open spec fn u64_of_le(b0: u8, b1: u8, b2: u8, b3: u8, b4: u8, b5: u8, b6: u8, b7: u8) -> u64 {
    (b0 as u64) | ((b1 as u64) << 8) | ((b2 as u64) << 16) | ((b3 as u64) << 24) | ((b4 as u64)
        << 32) | ((b5 as u64) << 40) | ((b6 as u64) << 48) | ((b7 as u64) << 56)
}

/// Assembling the little-endian bytes of `x` gives `x` back.
pub proof fn lemma_u16_of_le16(x: u16)
    ensures
        u16_of_le(le16(x)[0], le16(x)[1]) == x,
{
    assert(((x & 0xff) as u8 as u16) | ((((x >> 8) & 0xff) as u8 as u16) << 8) == x)
        by (bit_vector);
}

/// Assembling the little-endian bytes of `x` gives `x` back.
pub proof fn lemma_u32_of_le32(x: u32)
    ensures
        u32_of_le(le32(x)[0], le32(x)[1], le32(x)[2], le32(x)[3]) == x,
{
    assert(((x & 0xff) as u8 as u32) | ((((x >> 8) & 0xff) as u8 as u32) << 8) | ((((x >> 16)
        & 0xff) as u8 as u32) << 16) | ((((x >> 24) & 0xff) as u8 as u32) << 24) == x)
        by (bit_vector);
}

/// Assembling the little-endian bytes of `x` gives `x` back.
pub proof fn lemma_u64_of_le64(x: u64)
    ensures
        u64_of_le(
            le64(x)[0],
            le64(x)[1],
            le64(x)[2],
            le64(x)[3],
            le64(x)[4],
            le64(x)[5],
            le64(x)[6],
            le64(x)[7],
        ) == x,
{
    assert(((x & 0xff) as u8 as u64) | ((((x >> 8) & 0xff) as u8 as u64) << 8) | ((((x >> 16)
        & 0xff) as u8 as u64) << 16) | ((((x >> 24) & 0xff) as u8 as u64) << 24) | ((((x >> 32)
        & 0xff) as u8 as u64) << 32) | ((((x >> 40) & 0xff) as u8 as u64) << 40) | ((((x >> 48)
        & 0xff) as u8 as u64) << 48) | ((((x >> 56) & 0xff) as u8 as u64) << 56) == x)
        by (bit_vector);
}

/// The `u16` whose little-endian bytes are `b0, b1`, by its value.
pub fn read_u16_of(b0: u8, b1: u8) -> (r: u16)
    ensures
        r == u16_of_le(b0, b1),
        le16(r) == seq![b0, b1],
{
    let r = read_le16(b0, b1);
    proof {
        lemma_u16_of_le16(u16_of_le(b0, b1));
        assert((u16_of_le(b0, b1) & 0xff) as u8 == b0 && ((u16_of_le(b0, b1) >> 8) & 0xff) as u8
            == b1) by (bit_vector);
        assert(le16(u16_of_le(b0, b1)) =~= seq![b0, b1]);
        lemma_le16_injective(r, u16_of_le(b0, b1));
    }
    r
}

/// The `u32` whose little-endian bytes are `b0 .. b3`, by its value.
pub fn read_u32_of(b0: u8, b1: u8, b2: u8, b3: u8) -> (r: u32)
    ensures
        r == u32_of_le(b0, b1, b2, b3),
        le32(r) == seq![b0, b1, b2, b3],
{
    let r = read_le32(b0, b1, b2, b3);
    proof {
        let v = u32_of_le(b0, b1, b2, b3);
        assert((v & 0xff) as u8 == b0 && ((v >> 8) & 0xff) as u8 == b1 && ((v >> 16) & 0xff) as u8
            == b2 && ((v >> 24) & 0xff) as u8 == b3) by (bit_vector)
            requires
                v == (b0 as u32) | ((b1 as u32) << 8) | ((b2 as u32) << 16) | ((b3 as u32) << 24),
        ;
        assert(le32(v) =~= seq![b0, b1, b2, b3]);
        lemma_le32_injective(r, v);
    }
    r
}

/// The `u64` whose little-endian bytes are `b0 .. b7`, by its value.
pub fn read_u64_of(b0: u8, b1: u8, b2: u8, b3: u8, b4: u8, b5: u8, b6: u8, b7: u8) -> (r: u64)
    ensures
        r == u64_of_le(b0, b1, b2, b3, b4, b5, b6, b7),
        le64(r) == seq![b0, b1, b2, b3, b4, b5, b6, b7],
{
    let r = read_le64(b0, b1, b2, b3, b4, b5, b6, b7);
    proof {
        let v = u64_of_le(b0, b1, b2, b3, b4, b5, b6, b7);
        assert((v & 0xff) as u8 == b0 && ((v >> 8) & 0xff) as u8 == b1 && ((v >> 16) & 0xff) as u8
            == b2 && ((v >> 24) & 0xff) as u8 == b3 && ((v >> 32) & 0xff) as u8 == b4 && ((v >> 40)
            & 0xff) as u8 == b5 && ((v >> 48) & 0xff) as u8 == b6 && ((v >> 56) & 0xff) as u8 == b7)
            by (bit_vector)
            requires
                v == (b0 as u64) | ((b1 as u64) << 8) | ((b2 as u64) << 16) | ((b3 as u64) << 24)
                    | ((b4 as u64) << 32) | ((b5 as u64) << 40) | ((b6 as u64) << 48) | ((
                b7 as u64) << 56),
        ;
        assert(le64(v) =~= seq![b0, b1, b2, b3, b4, b5, b6, b7]);
        lemma_le64_injective(r, v);
    }
    r
}

/// Little-endian `u16` encodings are injective: equal byte pairs mean
/// equal values.
pub proof fn lemma_le16_injective(x: u16, y: u16)
    requires
        le16(x) == le16(y),
    ensures
        x == y,
{
    assert(le16(x)[0] == le16(y)[0] && le16(x)[1] == le16(y)[1]);
    assert(((x & 0xff) as u8 == (y & 0xff) as u8 && ((x >> 8) & 0xff) as u8 == ((y >> 8)
        & 0xff) as u8) ==> x == y) by (bit_vector);
}

/// Little-endian `u32` encodings are injective.
pub proof fn lemma_le32_injective(x: u32, y: u32)
    requires
        le32(x) == le32(y),
    ensures
        x == y,
{
    assert(le32(x)[0] == le32(y)[0] && le32(x)[1] == le32(y)[1] && le32(x)[2] == le32(y)[2] && le32(
    x)[3] == le32(y)[3]);
    assert(((x & 0xff) as u8 == (y & 0xff) as u8 && ((x >> 8) & 0xff) as u8 == ((y >> 8)
        & 0xff) as u8 && ((x >> 16) & 0xff) as u8 == ((y >> 16) & 0xff) as u8 && ((x >> 24)
        & 0xff) as u8 == ((y >> 24) & 0xff) as u8) ==> x == y) by (bit_vector);
}

/// Little-endian `u64` encodings are injective.
pub proof fn lemma_le64_injective(x: u64, y: u64)
    requires
        le64(x) == le64(y),
    ensures
        x == y,
{
    assert(le64(x)[0] == le64(y)[0] && le64(x)[1] == le64(y)[1] && le64(x)[2] == le64(y)[2] && le64(
    x)[3] == le64(y)[3] && le64(x)[4] == le64(y)[4] && le64(x)[5] == le64(y)[5] && le64(x)[6]
        == le64(y)[6] && le64(x)[7] == le64(y)[7]);
    assert(((x & 0xff) as u8 == (y & 0xff) as u8 && ((x >> 8) & 0xff) as u8 == ((y >> 8)
        & 0xff) as u8 && ((x >> 16) & 0xff) as u8 == ((y >> 16) & 0xff) as u8 && ((x >> 24)
        & 0xff) as u8 == ((y >> 24) & 0xff) as u8 && ((x >> 32) & 0xff) as u8 == ((y >> 32)
        & 0xff) as u8 && ((x >> 40) & 0xff) as u8 == ((y >> 40) & 0xff) as u8 && ((x >> 48)
        & 0xff) as u8 == ((y >> 48) & 0xff) as u8 && ((x >> 56) & 0xff) as u8 == ((y >> 56)
        & 0xff) as u8) ==> x == y) by (bit_vector);
}

} // verus!
