//! Length-prefixed framing for wire messages.
//!
//! A frame is a 4-byte little-endian payload length followed by exactly that
//! many payload bytes.

use vstd::prelude::*;

verus! {

/// The four little-endian bytes of a 32-bit length.
pub open spec fn le_bytes_of_u32(n: u32) -> Seq<u8> {
    seq![
        (n & 0xff) as u8,
        ((n >> 8) & 0xff) as u8,
        ((n >> 16) & 0xff) as u8,
        ((n >> 24) & 0xff) as u8,
    ]
}

/// The 32-bit value read from four little-endian bytes.
pub open spec fn u32_of_le_bytes(b0: u8, b1: u8, b2: u8, b3: u8) -> u32 {
    (b0 as u32) | ((b1 as u32) << 8) | ((b2 as u32) << 16) | ((b3 as u32) << 24)
}

/// Reading back the four little-endian bytes of a length yields that length.
pub proof fn lemma_le_round_trip(n: u32)
    ensures
        u32_of_le_bytes(
            le_bytes_of_u32(n)[0],
            le_bytes_of_u32(n)[1],
            le_bytes_of_u32(n)[2],
            le_bytes_of_u32(n)[3],
        ) == n,
{
    assert(((n & 0xff) as u8 as u32) | ((((n >> 8) & 0xff) as u8 as u32) << 8) | ((((n >> 16)
        & 0xff) as u8 as u32) << 16) | ((((n >> 24) & 0xff) as u8 as u32) << 24) == n)
        by (bit_vector);
}

/// Frames a payload: 4-byte little-endian length, then the payload itself.
pub fn frame_payload(payload: &Vec<u8>) -> (r: Vec<u8>)
    requires
        payload@.len() <= u32::MAX,
    ensures
        r@ == le_bytes_of_u32(payload@.len() as u32) + payload@,
{
    let n: u32 = payload.len() as u32;
    let mut out: Vec<u8> = Vec::new();
    out.push((n & 0xff) as u8);
    out.push(((n >> 8) & 0xff) as u8);
    out.push(((n >> 16) & 0xff) as u8);
    out.push(((n >> 24) & 0xff) as u8);
    let mut i: usize = 0;
    while i < payload.len()
        invariant
            i <= payload@.len(),
            payload@.len() <= u32::MAX,
            n == payload@.len() as u32,
            out@ == le_bytes_of_u32(n) + payload@.subrange(0, i as int),
        decreases payload@.len() - i,
    {
        out.push(payload[i]);
        i = i + 1;
        proof {
            assert(le_bytes_of_u32(n) + payload@.subrange(0, i as int) =~= (le_bytes_of_u32(n)
                + payload@.subrange(0, i - 1)).push(payload@[i - 1]));
        }
    }
    proof {
        assert(payload@.subrange(0, payload@.len() as int) =~= payload@);
    }
    out
}

/// Reads the payload length out of a 4-byte little-endian prefix.
pub fn parse_frame_len(prefix: &Vec<u8>) -> (r: u32)
    requires
        prefix@.len() == 4,
    ensures
        r == u32_of_le_bytes(prefix@[0], prefix@[1], prefix@[2], prefix@[3]),
{
    (prefix[0] as u32) | ((prefix[1] as u32) << 8) | ((prefix[2] as u32) << 16) | ((
    prefix[3] as u32) << 24)
}

} // verus!
