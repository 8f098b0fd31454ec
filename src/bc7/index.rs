//! Per-texel index streams: anchor-adjusted widths and offsets.
use crate::bc7::{is_anchor, is_anchor_exec};
use crate::bitstream::{field_at, lemma_div_pow2_step, lemma_pow2_le, take_bits};
use vstd::arithmetic::power2::{lemma2_to64, pow2};
use vstd::prelude::*;

verus! {

/// Bits that texel `t`'s index takes: one fewer at an anchor.
pub open spec fn index_width(bits: nat, subsets: nat, partition: nat, t: nat) -> nat {
    if is_anchor(subsets, partition, t) {
        (bits - 1) as nat
    } else {
        bits
    }
}

/// Where the index of texel `t` starts in its stream: after the indices of all the texels
/// before it.
pub open spec fn index_offset(bits: nat, subsets: nat, partition: nat, t: nat) -> nat
    decreases t,
{
    if t == 0 {
        0
    } else {
        index_offset(bits, subsets, partition, (t - 1) as nat) + index_width(
            bits,
            subsets,
            partition,
            (t - 1) as nat,
        )
    }
}

/// The anchor-adjusted index of texel `t` in an index stream.
#[verifier::opaque]
pub open spec fn texel_index(stream: nat, bits: nat, subsets: nat, partition: nat, t: nat) -> nat {
    field_at(stream, index_offset(bits, subsets, partition, t), index_width(bits, subsets, partition, t))
}

/// Reads the anchor-adjusted index of each of the 16 texels from an index stream.
pub fn read_indices(stream: u128, bits: u32, subsets: usize, partition: usize) -> (r: [u128; 16])
    requires
        2 <= bits <= 4,
        partition < 64,
    ensures
        forall|t: int|
            0 <= t < 16 ==> r[t] == texel_index(stream as nat, bits as nat, subsets as nat, partition as nat, t as nat)
                && r[t] < pow2(bits as nat),
{
    let mut out = [0u128; 16];
    let mut rest = stream;
    let mut t: usize = 0;
    proof {
        lemma2_to64();
        assert(index_offset(bits as nat, subsets as nat, partition as nat, 0) == 0);
        assert(stream as nat / 1 == stream as nat);
    }
    while t < 16
        invariant
            t <= 16,
            2 <= bits <= 4,
            partition < 64,
            rest as nat == stream as nat / pow2(index_offset(bits as nat, subsets as nat, partition as nat, t as nat)),
            forall|j: int|
                0 <= j < t ==> out[j] == texel_index(stream as nat, bits as nat, subsets as nat, partition as nat, j as nat)
                    && out[j] < pow2(bits as nat),
        decreases 16 - t,
    {
        let w = if is_anchor_exec(subsets, partition, t) {
            bits - 1
        } else {
            bits
        };
        let ghost rest_before = rest as nat;
        let v = take_bits(&mut rest, w);
        proof {
            let off = index_offset(bits as nat, subsets as nat, partition as nat, t as nat);
            lemma_div_pow2_step(stream as nat, off, w as nat);
            lemma_pow2_le(w as nat, bits as nat);
            vstd::arithmetic::power2::lemma_pow2_pos(w as nat);
            vstd::arithmetic::div_mod::lemma_mod_bound(rest_before as int, pow2(w as nat) as int);
            assert(v < pow2(bits as nat));
            assert(v == texel_index(stream as nat, bits as nat, subsets as nat, partition as nat, t as nat)) by {
                reveal(texel_index);
            }
        }
        out[t] = v;
        t = t + 1;
    }
    out
}

} // verus!
