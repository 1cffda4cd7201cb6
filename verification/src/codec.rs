//! Big-endian 4-byte integer codec and byte-sequence splicing.
//!
//! All multi-byte integers of the storage core are stored big-endian in
//! exactly four bytes, both in pages and in the on-disk log format.

use vstd::prelude::*;

verus! {

/// The four big-endian bytes of `x`, most significant first.
pub open spec fn be_of_u32(x: u32) -> Seq<u8> {
    seq![
        ((x >> 24) & 0xff) as u8,
        ((x >> 16) & 0xff) as u8,
        ((x >> 8) & 0xff) as u8,
        (x & 0xff) as u8,
    ]
}

/// The value encoded by four big-endian bytes.
pub open spec fn u32_of_be(s: Seq<u8>) -> u32
    recommends
        s.len() == 4,
{
    (s[0] as u32) << 24 | (s[1] as u32) << 16 | (s[2] as u32) << 8 | (s[3] as u32)
}

/// The four big-endian bytes of a signed value, two's complement.
pub open spec fn be_of_i32(x: i32) -> Seq<u8> {
    be_of_u32(x as u32)
}

/// The signed value encoded by four big-endian bytes, two's complement.
pub open spec fn i32_of_be(s: Seq<u8>) -> i32
    recommends
        s.len() == 4,
{
    u32_of_be(s) as i32
}

/// Encoding then decoding gives the value back, and decoding then encoding
/// gives the bytes back.
pub proof fn lemma_be_u32_round_trip()
    ensures
        forall|x: u32| (#[trigger] be_of_u32(x)).len() == 4 && u32_of_be(be_of_u32(x)) == x,
        forall|s: Seq<u8>| s.len() == 4 ==> #[trigger] be_of_u32(u32_of_be(s)) == s,
{
    assert forall|x: u32| (#[trigger] be_of_u32(x)).len() == 4 && u32_of_be(be_of_u32(x))
        == x by {
        assert(((x >> 24) & 0xff) < 256 && ((x >> 16) & 0xff) < 256 && ((x >> 8) & 0xff) < 256 && (
        x & 0xff) < 256) by (bit_vector);
        assert(((x >> 24) & 0xff) << 24 | ((x >> 16) & 0xff) << 16 | ((x >> 8) & 0xff) << 8 | (x
            & 0xff) == x) by (bit_vector);
    }
    assert forall|s: Seq<u8>| s.len() == 4 implies #[trigger] be_of_u32(u32_of_be(s)) == s by {
        let x = u32_of_be(s);
        let b0 = s[0] as u32;
        let b1 = s[1] as u32;
        let b2 = s[2] as u32;
        let b3 = s[3] as u32;
        assert((b0 < 256 && b1 < 256 && b2 < 256 && b3 < 256 && x == b0 << 24 | b1 << 16 | b2 << 8
            | b3) ==> (((x >> 24) & 0xff) == b0 && ((x >> 16) & 0xff) == b1 && ((x >> 8) & 0xff)
            == b2 && (x & 0xff) == b3)) by (bit_vector);
        assert(be_of_u32(x) =~= s);
    }
}

/// The signed codec round-trips as the unsigned one does.
pub proof fn lemma_be_i32_round_trip()
    ensures
        forall|x: i32| (#[trigger] be_of_i32(x)).len() == 4 && i32_of_be(be_of_i32(x)) == x,
{
    lemma_be_u32_round_trip();
    assert forall|x: i32| (#[trigger] be_of_i32(x)).len() == 4 && i32_of_be(be_of_i32(x))
        == x by {
        assert(((x as u32) as i32) == x) by (bit_vector);
    }
}

/// A nonnegative `i32` decodes equally as signed and as unsigned.
pub proof fn lemma_be_i32_nonneg(x: i32)
    requires
        0 <= x,
    ensures
        u32_of_be(be_of_i32(x)) == x as u32,
        u32_of_be(be_of_i32(x)) == x,
{
    lemma_be_u32_round_trip();
    assert(x as u32 == x) by (bit_vector)
        requires
            0 <= x,
    ;
}

/// An unsigned value below the sign bit reads back equal as a signed one.
pub proof fn lemma_i32_of_small_u32(u: u32)
    requires
        u < 0x8000_0000,
    ensures
        0 <= (u as i32),
        (u as i32) == u,
{
    assert(u < 0x8000_0000 ==> 0 <= (u as i32) && (u as i32) == u) by (bit_vector);
}

/// `s` with the bytes from `off` on replaced by `d`.
pub open spec fn splice(s: Seq<u8>, off: int, d: Seq<u8>) -> Seq<u8>
    recommends
        0 <= off,
        off + d.len() <= s.len(),
{
    s.subrange(0, off) + d + s.subrange(off + d.len(), s.len() as int)
}

/// Splicing keeps the length and changes exactly the spliced range.
pub proof fn lemma_splice_facts(s: Seq<u8>, off: int, d: Seq<u8>)
    requires
        0 <= off,
        off + d.len() <= s.len(),
    ensures
        splice(s, off, d).len() == s.len(),
        splice(s, off, d).subrange(off, off + d.len()) =~= d,
        forall|i: int| 0 <= i < off ==> splice(s, off, d)[i] == s[i],
        forall|i: int| off + d.len() <= i < s.len() ==> splice(s, off, d)[i] == s[i],
{
}

/// Reassembles the value of four big-endian bytes.
pub fn u32_from_be(b0: u8, b1: u8, b2: u8, b3: u8) -> (r: u32)
    ensures
        r == u32_of_be(seq![b0, b1, b2, b3]),
{
    (b0 as u32) << 24u32 | (b1 as u32) << 16u32 | (b2 as u32) << 8u32 | (b3 as u32)
}

} // verus!
