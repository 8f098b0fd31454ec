//! Rendering the 16 texels of a tile from a block's widened endpoints and indices.
use crate::bc7::index::{read_indices, texel_index};
use crate::bc7::tile::{
    alpha_index_bits, alpha_stream, color_index_bits, color_stream, endpoint, partition_of, rotation_of,
    subset_count, texel_value,
};
use crate::bc7::{interpolate, rotated_channel, subset_exec, subset_of, Rotation};
use crate::surface::Rgba;
use vstd::arithmetic::power2::pow2;
use vstd::prelude::*;

verus! {

/// What a tile is rendered from: the block's fields turned into widened endpoints, index
/// streams and flags.
pub struct TileParams {
    pub subsets: usize,
    pub partition: usize,
    pub endpoints: [[u8; 4]; 6],
    pub color_stream: u128,
    pub color_bits: u32,
    pub alpha_stream: u128,
    pub alpha_bits: u32,
    pub opaque: bool,
    pub separate_alpha: bool,
    pub rotation: Rotation,
}

impl TileParams {
    pub open spec fn describes(&self, m: nat, x: nat) -> bool {
        &&& m < 8
        &&& self.subsets == subset_count(m)
        &&& self.partition == partition_of(m, x)
        &&& self.partition < 64
        &&& forall|e: int, c: int|
            0 <= e < 2 * subset_count(m) && 0 <= c < 4 && (c < 3 || m >= 4) ==> self.endpoints[e][c]
                == endpoint(m, x, e as nat, c as nat)
        &&& self.color_stream == color_stream(m, x)
        &&& self.color_bits == color_index_bits(m, x)
        &&& (m == 4 || m == 5) ==> self.alpha_stream == alpha_stream(m, x) && self.alpha_bits
            == alpha_index_bits(m, x)
        &&& self.opaque == (m <= 3)
        &&& self.separate_alpha == (m == 4 || m == 5)
        &&& self.rotation.code() == rotation_of(m, x)
    }
}

/// Computes texel `t` from its color index `ci` and, in modes 4 and 5, its alpha index `ai`.
fn render_texel(p: &TileParams, t: usize, ci: u128, ai: u128, Ghost(m): Ghost<nat>, Ghost(x): Ghost<nat>) -> (r: Rgba)
    requires
        p.describes(m, x),
        t < 16,
        2 <= p.color_bits <= 4,
        p.separate_alpha ==> 2 <= p.alpha_bits <= 4,
        ci == texel_index(color_stream(m, x), p.color_bits as nat, p.subsets as nat, p.partition as nat, t as nat),
        ci < pow2(p.color_bits as nat),
        p.separate_alpha ==> ai == texel_index(alpha_stream(m, x), p.alpha_bits as nat, 1, 0, t as nat),
        p.separate_alpha ==> ai < pow2(p.alpha_bits as nat),
    ensures
        forall|c: int| 0 <= c < 4 ==> r.0[c] == texel_value(m, x, t as nat, rotated_channel(rotation_of(m, x), c as nat)),
{
    proof {
        vstd::arithmetic::power2::lemma2_to64();
        crate::bitstream::lemma_pow2_le(p.color_bits as nat, 4);
        if p.separate_alpha {
            crate::bitstream::lemma_pow2_le(p.alpha_bits as nat, 4);
        }
    }
    let s = subset_exec(p.subsets, p.partition, t);
    let cb = p.color_bits as usize;
    let lo = p.endpoints[2 * s];
    let hi = p.endpoints[2 * s + 1];
    let r0 = interpolate(lo[0], hi[0], cb, ci as usize);
    let r1 = interpolate(lo[1], hi[1], cb, ci as usize);
    let r2 = interpolate(lo[2], hi[2], cb, ci as usize);
    let a = if p.opaque {
        255u8
    } else if p.separate_alpha {
        interpolate(p.endpoints[0][3], p.endpoints[1][3], p.alpha_bits as usize, ai as usize)
    } else {
        interpolate(lo[3], hi[3], cb, ci as usize)
    };
    let mut texel = Rgba([r0, r1, r2, a]);
    proof {
        let e0 = (2 * s) as nat;
        let e1 = (2 * s + 1) as nat;
        assert(lo[0] == endpoint(m, x, e0, 0) && hi[0] == endpoint(m, x, e1, 0));
        assert(lo[1] == endpoint(m, x, e0, 1) && hi[1] == endpoint(m, x, e1, 1));
        assert(lo[2] == endpoint(m, x, e0, 2) && hi[2] == endpoint(m, x, e1, 2));
        if m >= 4 {
            assert(lo[3] == endpoint(m, x, e0, 3) && hi[3] == endpoint(m, x, e1, 3));
            assert(p.endpoints[0][3] == endpoint(m, x, 0, 3) && p.endpoints[1][3] == endpoint(m, x, 1, 3));
        }
        reveal(texel_value);
        assert(texel.0[0] == texel_value(m, x, t as nat, 0));
        assert(texel.0[1] == texel_value(m, x, t as nat, 1));
        assert(texel.0[2] == texel_value(m, x, t as nat, 2));
        assert(texel.0[3] == texel_value(m, x, t as nat, 3));
    }
    p.rotation.apply(&mut texel);
    texel
}

/// Computes the 16 texels, row-major, that the parameters describe.
pub fn render(p: &TileParams, Ghost(m): Ghost<nat>, Ghost(x): Ghost<nat>) -> (r: [Rgba; 16])
    requires
        p.describes(m, x),
        2 <= p.color_bits <= 4,
        p.separate_alpha ==> 2 <= p.alpha_bits <= 4,
    ensures
        forall|t: int, c: int|
            0 <= t < 16 && 0 <= c < 4 ==> r[t].0[c] == texel_value(
                m,
                x,
                t as nat,
                rotated_channel(rotation_of(m, x), c as nat),
            ),
{
    let color_indices = read_indices(p.color_stream, p.color_bits, p.subsets, p.partition);
    let alpha_indices = if p.separate_alpha {
        read_indices(p.alpha_stream, p.alpha_bits, 1, 0)
    } else {
        [0u128; 16]
    };
    let mut texels = [Rgba([0u8; 4]); 16];
    let mut t: usize = 0;
    while t < 16
        invariant
            t <= 16,
            p.describes(m, x),
            2 <= p.color_bits <= 4,
            p.separate_alpha ==> 2 <= p.alpha_bits <= 4,
            forall|j: int|
                0 <= j < 16 ==> color_indices[j] == texel_index(color_stream(m, x), p.color_bits as nat, p.subsets as nat, p.partition as nat, j as nat)
                    && color_indices[j] < pow2(p.color_bits as nat),
            p.separate_alpha ==> forall|j: int|
                0 <= j < 16 ==> alpha_indices[j] == texel_index(alpha_stream(m, x), p.alpha_bits as nat, 1, 0, j as nat)
                    && alpha_indices[j] < pow2(p.alpha_bits as nat),
            forall|j: int, c: int|
                0 <= j < t && 0 <= c < 4 ==> texels[j].0[c] == texel_value(
                    m,
                    x,
                    j as nat,
                    rotated_channel(rotation_of(m, x), c as nat),
                ),
        decreases 16 - t,
    {
        let texel = render_texel(p, t, color_indices[t], alpha_indices[t], Ghost(m), Ghost(x));
        texels[t] = texel;
        t = t + 1;
    }
    texels
}

} // verus!
