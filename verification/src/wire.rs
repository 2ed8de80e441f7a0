//! Big-endian byte encodings used by the log framing and the write-ahead
//! records, built on vstd's little-endian conversions.

use vstd::prelude::*;
use vstd::bytes::*;

verus! {

/// The four bytes of `x` in big-endian order.
pub open spec fn spec_u32_to_be_bytes(x: u32) -> Seq<u8> {
    Seq::new(4, |i: int| spec_u32_to_le_bytes(x)[3 - i])
}

/// The 32-bit value encoded big-endian by a 4-byte sequence.
pub open spec fn spec_u32_from_be_bytes(s: Seq<u8>) -> u32
    recommends
        s.len() == 4,
{
    spec_u32_from_le_bytes(Seq::new(4, |i: int| s[3 - i]))
}

/// The eight bytes of `x` in big-endian order.
pub open spec fn spec_u64_to_be_bytes(x: u64) -> Seq<u8> {
    Seq::new(8, |i: int| spec_u64_to_le_bytes(x)[7 - i])
}

/// The 64-bit value encoded big-endian by an 8-byte sequence.
pub open spec fn spec_u64_from_be_bytes(s: Seq<u8>) -> u64
    recommends
        s.len() == 8,
{
    spec_u64_from_le_bytes(Seq::new(8, |i: int| s[7 - i]))
}

pub proof fn lemma_u32_be_round_trip(x: u32)
    ensures
        spec_u32_from_be_bytes(spec_u32_to_be_bytes(x)) == x,
        spec_u32_to_be_bytes(x).len() == 4,
{
    lemma_auto_spec_u32_to_from_le_bytes();
    assert(Seq::new(4, |i: int| spec_u32_to_be_bytes(x)[3 - i]) =~= spec_u32_to_le_bytes(x));
}

pub proof fn lemma_u64_be_round_trip(x: u64)
    ensures
        spec_u64_from_be_bytes(spec_u64_to_be_bytes(x)) == x,
        spec_u64_to_be_bytes(x).len() == 8,
{
    lemma_auto_spec_u64_to_from_le_bytes();
    assert(Seq::new(8, |i: int| spec_u64_to_be_bytes(x)[7 - i]) =~= spec_u64_to_le_bytes(x));
}

pub fn u32_to_be_bytes(x: u32) -> (r: Vec<u8>)
    ensures
        r@ == spec_u32_to_be_bytes(x),
        r@.len() == 4,
{
    let le = u32_to_le_bytes(x);
    let mut r: Vec<u8> = Vec::new();
    r.push(le[3]);
    r.push(le[2]);
    r.push(le[1]);
    r.push(le[0]);
    proof {
        assert(r@ =~= spec_u32_to_be_bytes(x));
    }
    r
}

pub fn u32_from_be_bytes(s: &[u8]) -> (x: u32)
    requires
        s@.len() == 4,
    ensures
        x == spec_u32_from_be_bytes(s@),
{
    let mut le: Vec<u8> = Vec::new();
    le.push(s[3]);
    le.push(s[2]);
    le.push(s[1]);
    le.push(s[0]);
    proof {
        assert(le@ =~= Seq::new(4, |i: int| s@[3 - i]));
    }
    u32_from_le_bytes(le.as_slice())
}

pub fn u64_to_be_bytes(x: u64) -> (r: Vec<u8>)
    ensures
        r@ == spec_u64_to_be_bytes(x),
        r@.len() == 8,
{
    let le = u64_to_le_bytes(x);
    let mut r: Vec<u8> = Vec::new();
    r.push(le[7]);
    r.push(le[6]);
    r.push(le[5]);
    r.push(le[4]);
    r.push(le[3]);
    r.push(le[2]);
    r.push(le[1]);
    r.push(le[0]);
    proof {
        assert(r@ =~= spec_u64_to_be_bytes(x));
    }
    r
}

pub fn u64_from_be_bytes(s: &[u8]) -> (x: u64)
    requires
        s@.len() == 8,
    ensures
        x == spec_u64_from_be_bytes(s@),
{
    let mut le: Vec<u8> = Vec::new();
    le.push(s[7]);
    le.push(s[6]);
    le.push(s[5]);
    le.push(s[4]);
    le.push(s[3]);
    le.push(s[2]);
    le.push(s[1]);
    le.push(s[0]);
    proof {
        assert(le@ =~= Seq::new(8, |i: int| s@[7 - i]));
    }
    u64_from_le_bytes(le.as_slice())
}

} // verus!
