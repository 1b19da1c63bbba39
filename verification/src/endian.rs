use vstd::prelude::*;

verus! {

/// Big-endian byte image of a `u64`, most significant byte first.
pub open spec fn be_u64_bytes(x: u64) -> Seq<u8> {
    seq![
        (x >> 56) as u8,
        (x >> 48) as u8,
        (x >> 40) as u8,
        (x >> 32) as u8,
        (x >> 24) as u8,
        (x >> 16) as u8,
        (x >> 8) as u8,
        x as u8,
    ]
}

/// The `u64` encoded big-endian by an 8-byte sequence.
pub open spec fn be_u64_value(s: Seq<u8>) -> u64
    recommends
        s.len() == 8,
{
    ((s[0] as u64) << 56) | ((s[1] as u64) << 48) | ((s[2] as u64) << 40) | ((s[3] as u64) << 32)
        | ((s[4] as u64) << 24) | ((s[5] as u64) << 16) | ((s[6] as u64) << 8) | (s[7] as u64)
}

/// Big-endian byte image of a `u32`, most significant byte first.
pub open spec fn be_u32_bytes(x: u32) -> Seq<u8> {
    seq![(x >> 24) as u8, (x >> 16) as u8, (x >> 8) as u8, x as u8]
}

/// The `u32` encoded big-endian by a 4-byte sequence.
pub open spec fn be_u32_value(s: Seq<u8>) -> u32
    recommends
        s.len() == 4,
{
    ((s[0] as u32) << 24) | ((s[1] as u32) << 16) | ((s[2] as u32) << 8) | (s[3] as u32)
}

/// Decoding the big-endian image of a `u64` gives the number back.
pub proof fn lemma_be_u64_round_trip(x: u64)
    ensures
        be_u64_value(be_u64_bytes(x)) == x,
{
    let s = be_u64_bytes(x);
    assert(s[0] == (x >> 56) as u8);
    assert(s[1] == (x >> 48) as u8);
    assert(s[2] == (x >> 40) as u8);
    assert(s[3] == (x >> 32) as u8);
    assert(s[4] == (x >> 24) as u8);
    assert(s[5] == (x >> 16) as u8);
    assert(s[6] == (x >> 8) as u8);
    assert(s[7] == x as u8);
    assert(((((x >> 56) as u8) as u64) << 56) | ((((x >> 48) as u8) as u64) << 48) | ((((x
        >> 40) as u8) as u64) << 40) | ((((x >> 32) as u8) as u64) << 32) | ((((x >> 24) as u8)
        as u64) << 24) | ((((x >> 16) as u8) as u64) << 16) | ((((x >> 8) as u8) as u64) << 8) | ((
    x as u8) as u64) == x) by (bit_vector);
}

/// Decoding the big-endian image of a `u32` gives the number back.
pub proof fn lemma_be_u32_round_trip(x: u32)
    ensures
        be_u32_value(be_u32_bytes(x)) == x,
{
    let s = be_u32_bytes(x);
    assert(s[0] == (x >> 24) as u8);
    assert(s[1] == (x >> 16) as u8);
    assert(s[2] == (x >> 8) as u8);
    assert(s[3] == x as u8);
    assert(((((x >> 24) as u8) as u32) << 24) | ((((x >> 16) as u8) as u32) << 16) | ((((x
        >> 8) as u8) as u32) << 8) | ((x as u8) as u32) == x) by (bit_vector);
}

/// Encodes a `u64` as 8 big-endian bytes.
pub fn u64_to_be(x: u64) -> (r: Vec<u8>)
    ensures
        r@ == be_u64_bytes(x),
{
    let mut v: Vec<u8> = Vec::new();
    v.push((x >> 56) as u8);
    v.push((x >> 48) as u8);
    v.push((x >> 40) as u8);
    v.push((x >> 32) as u8);
    v.push((x >> 24) as u8);
    v.push((x >> 16) as u8);
    v.push((x >> 8) as u8);
    v.push(x as u8);
    proof {
        assert(v@ =~= be_u64_bytes(x));
    }
    v
}

/// Encodes a `u32` as 4 big-endian bytes.
pub fn u32_to_be(x: u32) -> (r: Vec<u8>)
    ensures
        r@ == be_u32_bytes(x),
{
    let mut v: Vec<u8> = Vec::new();
    v.push((x >> 24) as u8);
    v.push((x >> 16) as u8);
    v.push((x >> 8) as u8);
    v.push(x as u8);
    proof {
        assert(v@ =~= be_u32_bytes(x));
    }
    v
}

/// Decodes the big-endian `u64` held at `pos` in `v`.
pub fn u64_from_be(v: &Vec<u8>, pos: usize) -> (r: u64)
    requires
        pos + 8 <= v@.len(),
    ensures
        r == be_u64_value(v@.subrange(pos as int, pos + 8)),
{
    let _bound: usize = v.len();
    let r = ((v[pos] as u64) << 56) | ((v[pos + 1] as u64) << 48) | ((v[pos + 2] as u64) << 40) | (
    (v[pos + 3] as u64) << 32) | ((v[pos + 4] as u64) << 24) | ((v[pos + 5] as u64) << 16) | ((v[pos
        + 6] as u64) << 8) | (v[pos + 7] as u64);
    proof {
        let s = v@.subrange(pos as int, pos + 8);
        assert(s[0] == v@[pos as int]);
        assert(s[1] == v@[pos + 1]);
        assert(s[2] == v@[pos + 2]);
        assert(s[3] == v@[pos + 3]);
        assert(s[4] == v@[pos + 4]);
        assert(s[5] == v@[pos + 5]);
        assert(s[6] == v@[pos + 6]);
        assert(s[7] == v@[pos + 7]);
    }
    r
}

/// Decodes the big-endian `u32` held at `pos` in `v`.
pub fn u32_from_be(v: &Vec<u8>, pos: usize) -> (r: u32)
    requires
        pos + 4 <= v@.len(),
    ensures
        r == be_u32_value(v@.subrange(pos as int, pos + 4)),
{
    let _bound: usize = v.len();
    let r = ((v[pos] as u32) << 24) | ((v[pos + 1] as u32) << 16) | ((v[pos + 2] as u32) << 8) | (
    v[pos + 3] as u32);
    proof {
        let s = v@.subrange(pos as int, pos + 4);
        assert(s[0] == v@[pos as int]);
        assert(s[1] == v@[pos + 1]);
        assert(s[2] == v@[pos + 2]);
        assert(s[3] == v@[pos + 3]);
    }
    r
}

} // verus!
