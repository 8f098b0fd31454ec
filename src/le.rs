//! Little-endian 32-bit integers in byte buffers.
use vstd::prelude::*;

verus! {

/// The four bytes of `v`, least significant first.
pub open spec fn le_bytes(v: u32) -> Seq<u8> {
    seq![(v & 0xff) as u8, ((v >> 8u32) & 0xff) as u8, ((v >> 16u32) & 0xff) as u8, (v >> 24u32) as u8]
}

/// The little-endian number held by the four bytes of `s` at `pos`.
pub open spec fn le_u32_at(s: Seq<u8>, pos: nat) -> nat {
    s[pos as int] as nat + 256 * s[pos + 1int] as nat + 65536 * s[pos + 2int] as nat + 16777216 * s[pos + 3int] as nat
}

/// Reading back the bytes of a number gives the number.
pub proof fn lemma_le_round_trip(v: u32)
    ensures
        le_u32_at(le_bytes(v), 0) == v,
{
    let b = le_bytes(v);
    assert((v & 0xff) + ((v >> 8u32) & 0xff) * 256 + ((v >> 16u32) & 0xff) * 65536 + (v >> 24u32) * 16777216 == v)
        by (bit_vector);
    assert((v & 0xff) < 256 && ((v >> 8u32) & 0xff) < 256 && ((v >> 16u32) & 0xff) < 256) by (bit_vector);
    assert(b[0] as nat == (v & 0xff) as nat);
    assert(b[1] as nat == ((v >> 8u32) & 0xff) as nat);
    assert(b[2] as nat == ((v >> 16u32) & 0xff) as nat);
    assert(b[3] as nat == (v >> 24u32) as nat) by {
        assert((v >> 24u32) < 256) by (bit_vector);
    }
}

/// Reads the little-endian `u32` at `pos`, or nothing when fewer than four bytes are left.
pub fn read_u32_le(s: &[u8], pos: usize) -> (r: Option<u32>)
    ensures
        pos + 4 <= s@.len() ==> r == Some(le_u32_at(s@, pos as nat) as u32),
        pos + 4 > s@.len() ==> r is None,
        r matches Some(v) ==> v as nat == le_u32_at(s@, pos as nat),
{
    if pos > s.len() || s.len() - pos < 4 {
        return None;
    }
    let v = s[pos] as u32 + 256 * (s[pos + 1] as u32) + 65536 * (s[pos + 2] as u32) + 16777216 * (s[pos
        + 3] as u32);
    Some(v)
}

/// Appends the four little-endian bytes of `v`.
pub fn push_u32_le(out: &mut Vec<u8>, v: u32)
    ensures
        final(out)@ == old(out)@ + le_bytes(v),
{
    out.push((v & 0xff) as u8);
    out.push(((v >> 8) & 0xff) as u8);
    out.push(((v >> 16) & 0xff) as u8);
    out.push((v >> 24) as u8);
    proof {
        assert(final(out)@ =~= old(out)@ + le_bytes(v));
    }
}

} // verus!
