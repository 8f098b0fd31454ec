//! Encoding BC7 blocks from their fields, and RGBA images into BC7 data.
use crate::bc7::{encoded, layout, lemma_layout_total, Rotation, Block0, Block1, Block2, Block3, Block4, Block5, Block6, Block7};
use crate::bitstream::{lemma_pack_bound, lemma_pow2_le, lemma_shl_one, pack, put_bits, BitWriter};
use vstd::arithmetic::power2::{lemma2_to64, lemma_pow2_adds, lemma_pow2_pos, pow2};
use crate::surface::Rgba;
use vstd::prelude::*;

verus! {

/// Puts the unary prefix of `mode` below the packed fields: `mode` zero bits under a one bit.
fn with_mode_prefix(packed: u128, mode: u32) -> (r: u128)
    requires
        mode < 8,
        packed < pow2((127 - mode) as nat),
    ensures
        r as nat == pow2(mode as nat) + pow2(mode as nat + 1) * packed as nat,
{
    let mut ret = packed;
    proof {
        lemma_pow2_le((127 - mode) as nat, 127);
    }
    put_bits(&mut ret, 1, 1);
    let shift = 1u128 << mode;
    proof {
        lemma2_to64();
        lemma_shl_one(mode);
        lemma_pow2_pos((127 - mode) as nat);
        lemma_pow2_adds((128 - mode) as nat, mode as nat);
        lemma_pow2_adds((127 - mode) as nat, 1);
        lemma_pow2_adds(mode as nat, 1);
        crate::bitstream::lemma_pow2_128();
        let p = packed as nat;
        let q = pow2((127 - mode) as nat);
        assert(ret as nat == p * 2 + 1);
        assert((p * 2 + 1) * pow2(mode as nat) < pow2(128)) by (nonlinear_arith)
            requires
                p < q,
                pow2(128) == q * 2 * pow2(mode as nat),
                pow2(mode as nat) > 0,
        ;
        assert((p * 2 + 1) * pow2(mode as nat) == pow2(mode as nat) + (pow2(mode as nat) * 2) * p) by (nonlinear_arith);
    }
    ret * shift
}

impl Block0 {
    /// The 128-bit block of mode 0 that holds these fields.
    pub fn encode(&self) -> (r: u128)
        ensures
            r as nat == encoded(0, self@),
    {
        proof {
            lemma_layout_total(0);
        }
        let mut wr = BitWriter::new();
        wr.push(self.index_data as u128, 45);
        wr.push_array(self.p, 1);
        wr.push_array(self.b, 4);
        wr.push_array(self.g, 4);
        wr.push_array(self.r, 4);
        wr.push(self.partition as u128, 4);
        proof {
            assert(wr.widths@ =~= layout(0));
            assert(wr.fields@ =~= self@);
            lemma_pack_bound(wr.fields@, wr.widths@);
        }
        with_mode_prefix(wr.value, 0)
    }
}

impl Block1 {
    /// The 128-bit block of mode 1 that holds these fields.
    pub fn encode(&self) -> (r: u128)
        ensures
            r as nat == encoded(1, self@),
    {
        proof {
            lemma_layout_total(1);
        }
        let mut wr = BitWriter::new();
        wr.push(self.index_data as u128, 46);
        wr.push_array(self.p, 1);
        wr.push_array(self.b, 6);
        wr.push_array(self.g, 6);
        wr.push_array(self.r, 6);
        wr.push(self.partition as u128, 6);
        proof {
            assert(wr.widths@ =~= layout(1));
            assert(wr.fields@ =~= self@);
            lemma_pack_bound(wr.fields@, wr.widths@);
        }
        with_mode_prefix(wr.value, 1)
    }
}

impl Block2 {
    /// The 128-bit block of mode 2 that holds these fields.
    pub fn encode(&self) -> (r: u128)
        ensures
            r as nat == encoded(2, self@),
    {
        proof {
            lemma_layout_total(2);
        }
        let mut wr = BitWriter::new();
        wr.push(self.index_data as u128, 29);
        wr.push_array(self.b, 5);
        wr.push_array(self.g, 5);
        wr.push_array(self.r, 5);
        wr.push(self.partition as u128, 6);
        proof {
            assert(wr.widths@ =~= layout(2));
            assert(wr.fields@ =~= self@);
            lemma_pack_bound(wr.fields@, wr.widths@);
        }
        with_mode_prefix(wr.value, 2)
    }
}

impl Block3 {
    /// The 128-bit block of mode 3 that holds these fields.
    pub fn encode(&self) -> (r: u128)
        ensures
            r as nat == encoded(3, self@),
    {
        proof {
            lemma_layout_total(3);
        }
        let mut wr = BitWriter::new();
        wr.push(self.index_data as u128, 30);
        wr.push_array(self.p, 1);
        wr.push_array(self.b, 7);
        wr.push_array(self.g, 7);
        wr.push_array(self.r, 7);
        wr.push(self.partition as u128, 6);
        proof {
            assert(wr.widths@ =~= layout(3));
            assert(wr.fields@ =~= self@);
            lemma_pack_bound(wr.fields@, wr.widths@);
        }
        with_mode_prefix(wr.value, 3)
    }
}

impl Block4 {
    /// The 128-bit block of mode 4 that holds these fields.
    pub fn encode(&self) -> (r: u128)
        ensures
            r as nat == encoded(4, self@),
    {
        proof {
            lemma_layout_total(4);
        }
        let mut wr = BitWriter::new();
        wr.push(self.index_data1 as u128, 47);
        wr.push(self.index_data0 as u128, 31);
        wr.push_array(self.a, 6);
        wr.push_array(self.b, 5);
        wr.push_array(self.g, 5);
        wr.push_array(self.r, 5);
        wr.push(if self.idx_mode { 1 } else { 0 }, 1);
        wr.push(self.rot.to_u2() as u128, 2);
        proof {
            assert(wr.widths@ =~= layout(4));
            assert(wr.fields@ =~= self@);
            lemma_pack_bound(wr.fields@, wr.widths@);
        }
        with_mode_prefix(wr.value, 4)
    }
}

impl Block5 {
    /// The 128-bit block of mode 5 that holds these fields.
    pub fn encode(&self) -> (r: u128)
        ensures
            r as nat == encoded(5, self@),
    {
        proof {
            lemma_layout_total(5);
        }
        let mut wr = BitWriter::new();
        wr.push(self.alpha as u128, 31);
        wr.push(self.colors as u128, 31);
        wr.push_array(self.a, 8);
        wr.push_array(self.b, 7);
        wr.push_array(self.g, 7);
        wr.push_array(self.r, 7);
        wr.push(self.rot.to_u2() as u128, 2);
        proof {
            assert(wr.widths@ =~= layout(5));
            assert(wr.fields@ =~= self@);
            lemma_pack_bound(wr.fields@, wr.widths@);
        }
        with_mode_prefix(wr.value, 5)
    }
}

impl Block6 {
    /// The 128-bit block of mode 6 that holds these fields.
    pub fn encode(&self) -> (r: u128)
        ensures
            r as nat == encoded(6, self@),
    {
        proof {
            lemma_layout_total(6);
        }
        let mut wr = BitWriter::new();
        wr.push(self.index_data as u128, 63);
        wr.push_array(self.p, 1);
        wr.push_array(self.a, 7);
        wr.push_array(self.b, 7);
        wr.push_array(self.g, 7);
        wr.push_array(self.r, 7);
        proof {
            assert(wr.widths@ =~= layout(6));
            assert(wr.fields@ =~= self@);
            lemma_pack_bound(wr.fields@, wr.widths@);
        }
        with_mode_prefix(wr.value, 6)
    }
}

impl Block7 {
    /// The 128-bit block of mode 7 that holds these fields.
    pub fn encode(&self) -> (r: u128)
        ensures
            r as nat == encoded(7, self@),
    {
        proof {
            lemma_layout_total(7);
        }
        let mut wr = BitWriter::new();
        wr.push(self.index_data as u128, 30);
        wr.push_array(self.p, 1);
        wr.push_array(self.a, 5);
        wr.push_array(self.b, 5);
        wr.push_array(self.g, 5);
        wr.push_array(self.r, 5);
        wr.push(self.partition as u128, 6);
        proof {
            assert(wr.widths@ =~= layout(7));
            assert(wr.fields@ =~= self@);
            lemma_pack_bound(wr.fields@, wr.widths@);
        }
        with_mode_prefix(wr.value, 7)
    }
}

/// Every texel of the tile is fully transparent.
pub open spec fn all_transparent(pixels: [[Rgba; 4]; 4]) -> bool {
    forall|y: int, x: int| 0 <= y < 4 && 0 <= x < 4 ==> pixels[y][x].0[3] == 0
}

/// Some texel of the tile is not fully opaque.
pub open spec fn uses_transparency(pixels: [[Rgba; 4]; 4]) -> bool {
    exists|y: int, x: int| 0 <= y < 4 && 0 <= x < 4 && pixels[y][x].0[3] != 255
}

/// The canonical fully transparent block: mode 5 with every field zero.
pub const TRANSPARENT_BLOCK: u128 = 0x20;

/// The fields of the placeholder mode 6 block: magenta endpoints (p-bits set), with the
/// given stored alpha, every index zero.
pub open spec fn placeholder_fields(alpha: nat) -> Seq<nat> {
    seq![127, 127, 0, 0, 127, 127, alpha, alpha, 1, 1, 0]
}

/// The value of a packed sequence of zeros is zero.
proof fn lemma_pack_zeros(vals: Seq<nat>, widths: Seq<nat>)
    requires
        forall|i: int| 0 <= i < vals.len() ==> vals[i] == 0,
    ensures
        pack(vals, widths) == 0,
    decreases vals.len(),
{
    if vals.len() > 0 && widths.len() > 0 {
        lemma_pack_zeros(vals.drop_first(), widths.drop_first());
        lemma_pow2_pos(widths[0]);
        assert(vals[0] == 0);
        vstd::arithmetic::div_mod::lemma_small_mod(0, pow2(widths[0]));
        assert(pow2(widths[0]) * 0 == 0);
    }
}

/// Encodes a 4x4 tile: the canonical transparent block when every texel is transparent,
/// else a placeholder mode 6 block, translucent when some texel is not opaque.
pub fn encode_bc7_block(pixels: [[Rgba; 4]; 4]) -> (r: u128)
    ensures
        all_transparent(pixels) ==> r == TRANSPARENT_BLOCK,
        !all_transparent(pixels) && uses_transparency(pixels) ==> r as nat == encoded(6, placeholder_fields(31)),
        !uses_transparency(pixels) ==> r as nat == encoded(6, placeholder_fields(127)),
{
    let mut transparent = true;
    let mut opaque = true;
    let mut y: usize = 0;
    while y < 4
        invariant
            y <= 4,
            transparent == (forall|yy: int, xx: int| 0 <= yy < y && 0 <= xx < 4 ==> pixels[yy][xx].0[3] == 0),
            opaque == (forall|yy: int, xx: int| 0 <= yy < y && 0 <= xx < 4 ==> pixels[yy][xx].0[3] == 255),
        decreases 4 - y,
    {
        let mut x: usize = 0;
        while x < 4
            invariant
                y < 4,
                x <= 4,
                transparent == (forall|yy: int, xx: int| 0 <= yy < 4 && 0 <= xx < 4 && (yy < y || (yy == y && xx < x)) ==> pixels[yy][xx].0[3] == 0),
                opaque == (forall|yy: int, xx: int| 0 <= yy < 4 && 0 <= xx < 4 && (yy < y || (yy == y && xx < x)) ==> pixels[yy][xx].0[3] == 255),
            decreases 4 - x,
        {
            let a = pixels[y][x].0[3];
            transparent = transparent && a == 0;
            opaque = opaque && a == 255;
            x = x + 1;
        }
        y = y + 1;
    }
    if transparent {
        let b = Block5 {
            rot: Rotation::No,
            r: [0; 2],
            g: [0; 2],
            b: [0; 2],
            a: [0; 2],
            colors: 0,
            alpha: 0,
        };
        proof {
            lemma_pack_zeros(b@, layout(5));
            lemma2_to64();
            assert(pixels[0][0].0[3] == 0);
            assert(uses_transparency(pixels));
        }
        return b.encode();
    }
    let alpha: u8 = if opaque {
        0b1111111
    } else {
        0b0011111
    };
    let b = Block6 { r: [0b1111111; 2], g: [0; 2], b: [0b1111111; 2], a: [alpha; 2], p: [1; 2], index_data: 0 };
    proof {
        assert(b@ =~= placeholder_fields(alpha as nat));
    }
    b.encode()
}

} // verus!
