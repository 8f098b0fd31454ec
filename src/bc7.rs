//! BC7 block layouts, shared tables and the per-channel arithmetic of the codec.
use crate::bitstream::{
    fits, lemma_fits_array, lemma_fits_concat, lemma_fits_one, lemma_total_width_concat, lemma_total_width_repeat, lemma_unpack_pack, nats, pack, repeat, total_width, unpack,
};
use crate::surface::Rgba;
use vstd::arithmetic::power2::pow2;
use vstd::prelude::*;

pub mod decode;
pub mod encode;
pub mod image;
pub mod index;
pub mod render;
pub mod tile;

pub use encode::encode_bc7_block;
pub use image::{decode_bc7, encode_bc7};
pub use tile::decode_bc7_block;

verus! {

/// Fields of a mode 0 block: three subsets, 4-bit colors, one p-bit per endpoint.
pub struct Block0 {
    pub partition: u8,
    pub r: [u8; 6],
    pub g: [u8; 6],
    pub b: [u8; 6],
    pub p: [u8; 6],
    pub index_data: u64,
}

/// Fields of a mode 1 block: two subsets, 6-bit colors, one p-bit per subset.
pub struct Block1 {
    pub partition: u8,
    pub r: [u8; 4],
    pub g: [u8; 4],
    pub b: [u8; 4],
    pub p: [u8; 2],
    pub index_data: u64,
}

/// Fields of a mode 2 block: three subsets, 5-bit colors.
pub struct Block2 {
    pub partition: u8,
    pub r: [u8; 6],
    pub g: [u8; 6],
    pub b: [u8; 6],
    pub index_data: u32,
}

/// Fields of a mode 3 block: two subsets, 7-bit colors, one p-bit per endpoint.
pub struct Block3 {
    pub partition: u8,
    pub r: [u8; 4],
    pub g: [u8; 4],
    pub b: [u8; 4],
    pub p: [u8; 4],
    pub index_data: u32,
}

/// Fields of a mode 4 block: one subset, 5-bit colors, 6-bit alpha, two index planes.
pub struct Block4 {
    pub rot: Rotation,
    pub idx_mode: bool,
    pub r: [u8; 2],
    pub g: [u8; 2],
    pub b: [u8; 2],
    pub a: [u8; 2],
    pub index_data0: u32,
    pub index_data1: u64,
}

/// Fields of a mode 5 block: one subset, 7-bit colors, 8-bit alpha, separate indices.
pub struct Block5 {
    pub rot: Rotation,
    pub r: [u8; 2],
    pub g: [u8; 2],
    pub b: [u8; 2],
    pub a: [u8; 2],
    pub colors: u32,
    pub alpha: u32,
}

/// Fields of a mode 6 block: one subset, 7-bit RGBA, one p-bit per endpoint.
pub struct Block6 {
    pub r: [u8; 2],
    pub g: [u8; 2],
    pub b: [u8; 2],
    pub a: [u8; 2],
    pub p: [u8; 2],
    pub index_data: u64,
}

/// Fields of a mode 7 block: two subsets, 5-bit RGBA, one p-bit per endpoint.
pub struct Block7 {
    pub partition: u8,
    pub r: [u8; 4],
    pub g: [u8; 4],
    pub b: [u8; 4],
    pub a: [u8; 4],
    pub p: [u8; 4],
    pub index_data: u32,
}

/// Which color channel modes 4 and 5 swap with alpha after decoding.
#[derive(Clone, Copy, PartialEq, Eq, Debug, Structural)]
pub enum Rotation {
    No,
    R,
    G,
    B,
}

impl Rotation {
    /// The two-bit code of the rotation.
    pub open spec fn code(self) -> nat {
        match self {
            Rotation::No => 0,
            Rotation::R => 1,
            Rotation::G => 2,
            Rotation::B => 3,
        }
    }

    pub fn from_u2(value: u8) -> (r: Self)
        requires
            value < 4,
        ensures
            r.code() == value,
    {
        match value {
            0 => Rotation::No,
            1 => Rotation::R,
            2 => Rotation::G,
            _ => Rotation::B,
        }
    }

    pub fn to_u2(&self) -> (r: u8)
        ensures
            r == self.code(),
    {
        match self {
            Rotation::No => 0,
            Rotation::R => 1,
            Rotation::G => 2,
            Rotation::B => 3,
        }
    }

    /// Swaps the selected color channel with alpha; `No` leaves the texel as it is.
    pub fn apply(&self, color: &mut Rgba)
        ensures
            forall|c: int| 0 <= c < 4 ==> final(color).0[c] == old(color).0[rotated_channel(self.code(), c as nat) as int],
    {
        let src: usize = match self {
            Rotation::No => return,
            Rotation::R => 0,
            Rotation::G => 1,
            Rotation::B => 2,
        };
        let t = color.0[src];
        color.0[src] = color.0[3];
        color.0[3] = t;
    }
}

/// The channel whose value lands in channel `c` under the rotation with code `rot`.
pub open spec fn rotated_channel(rot: nat, c: nat) -> nat {
    if rot == 0 || rot > 3 {
        c
    } else if c == rot - 1 {
        3
    } else if c == 3 {
        (rot - 1) as nat
    } else {
        c
    }
}

/// Interpolation weights, in 64ths, for 2-, 3- and 4-bit indices.
pub const WEIGHT2: [u16; 4] = [0, 21, 43, 64];

pub const WEIGHT3: [u16; 8] = [0, 9, 18, 27, 37, 46, 55, 64];

pub const WEIGHT4: [u16; 16] = [0, 4, 9, 13, 17, 21, 26, 30, 34, 38, 43, 47, 51, 55, 60, 64];

/// The weight of `index` for indices of `bits` bits.
#[verifier::opaque]
pub open spec fn weight(bits: nat, index: nat) -> nat {
    if bits == 2 {
        WEIGHT2[index as int] as nat
    } else if bits == 3 {
        WEIGHT3[index as int] as nat
    } else {
        WEIGHT4[index as int] as nat
    }
}

/// Convex combination of two endpoint values with a weight in 64ths, rounded.
#[verifier::opaque]
pub open spec fn interp(a: nat, b: nat, w: nat) -> nat {
    (((64 - w) * a + w * b + 32) as nat) / 64
}

/// Interpolates between `a` and `b` by the weight of `index` among `bits`-bit indices.
pub fn interpolate(a: u8, b: u8, bits: usize, index: usize) -> (r: u8)
    requires
        2 <= bits <= 4,
        index < pow2(bits as nat),
    ensures
        r == interp(a as nat, b as nat, weight(bits as nat, index as nat)),
{
    proof {
        vstd::arithmetic::power2::lemma2_to64();
        reveal(interp);
        reveal(weight);
    }
    let w: u16 = if bits == 2 {
        WEIGHT2[index]
    } else if bits == 3 {
        WEIGHT3[index]
    } else {
        WEIGHT4[index]
    };
    assert(w <= 64);
    assert((64 - w) * (a as u16) + w * (b as u16) <= 64 * 255) by (nonlinear_arith)
        requires
            w <= 64,
    ;
    let da = (64 - w) * (a as u16);
    let db = w * (b as u16);
    let sum = da + db + 32;
    proof {
        vstd::bits::lemma_u16_shr_is_div(sum, 6);
        assert(pow2(6) == 64);
    }
    (sum >> 6) as u8
}

/// Field widths of each mode's layout, in the order the fields follow the mode prefix.
pub open spec fn layout(mode: nat) -> Seq<nat> {
    if mode == 0 {
        seq![4nat] + repeat(4, 6) + repeat(4, 6) + repeat(4, 6) + repeat(1, 6) + seq![45nat]
    } else if mode == 1 {
        seq![6nat] + repeat(6, 4) + repeat(6, 4) + repeat(6, 4) + repeat(1, 2) + seq![46nat]
    } else if mode == 2 {
        seq![6nat] + repeat(5, 6) + repeat(5, 6) + repeat(5, 6) + seq![29nat]
    } else if mode == 3 {
        seq![6nat] + repeat(7, 4) + repeat(7, 4) + repeat(7, 4) + repeat(1, 4) + seq![30nat]
    } else if mode == 4 {
        seq![2nat, 1nat] + repeat(5, 2) + repeat(5, 2) + repeat(5, 2) + repeat(6, 2) + seq![
            31nat,
            47nat,
        ]
    } else if mode == 5 {
        seq![2nat] + repeat(7, 2) + repeat(7, 2) + repeat(7, 2) + repeat(8, 2) + seq![31nat, 31nat]
    } else if mode == 6 {
        repeat(7, 2) + repeat(7, 2) + repeat(7, 2) + repeat(7, 2) + repeat(1, 2) + seq![63nat]
    } else {
        seq![6nat] + repeat(5, 4) + repeat(5, 4) + repeat(5, 4) + repeat(5, 4) + repeat(1, 4)
            + seq![30nat]
    }
}

/// The mode prefix and the fields of every mode fill exactly the 128 bits of a block.
pub proof fn lemma_layout_total(mode: nat)
    requires
        mode < 8,
    ensures
        total_width(layout(mode)) + mode + 1 == 128,
{
    if mode == 0 {
        lemma_total_width_one(4);
        lemma_total_width_repeat(4, 6);
        lemma_total_width_repeat(4, 6);
        lemma_total_width_repeat(4, 6);
        lemma_total_width_repeat(1, 6);
        lemma_total_width_one(45);
        lemma_total_width_concat(seq![4nat], repeat(4, 6));
        lemma_total_width_concat(seq![4nat] + repeat(4, 6), repeat(4, 6));
        lemma_total_width_concat(seq![4nat] + repeat(4, 6) + repeat(4, 6), repeat(4, 6));
        lemma_total_width_concat(seq![4nat] + repeat(4, 6) + repeat(4, 6) + repeat(4, 6), repeat(1, 6));
        lemma_total_width_concat(seq![4nat] + repeat(4, 6) + repeat(4, 6) + repeat(4, 6) + repeat(1, 6), seq![45nat]);
    } else if mode == 1 {
        lemma_total_width_one(6);
        lemma_total_width_repeat(6, 4);
        lemma_total_width_repeat(6, 4);
        lemma_total_width_repeat(6, 4);
        lemma_total_width_repeat(1, 2);
        lemma_total_width_one(46);
        lemma_total_width_concat(seq![6nat], repeat(6, 4));
        lemma_total_width_concat(seq![6nat] + repeat(6, 4), repeat(6, 4));
        lemma_total_width_concat(seq![6nat] + repeat(6, 4) + repeat(6, 4), repeat(6, 4));
        lemma_total_width_concat(seq![6nat] + repeat(6, 4) + repeat(6, 4) + repeat(6, 4), repeat(1, 2));
        lemma_total_width_concat(seq![6nat] + repeat(6, 4) + repeat(6, 4) + repeat(6, 4) + repeat(1, 2), seq![46nat]);
    } else if mode == 2 {
        lemma_total_width_one(6);
        lemma_total_width_repeat(5, 6);
        lemma_total_width_repeat(5, 6);
        lemma_total_width_repeat(5, 6);
        lemma_total_width_one(29);
        lemma_total_width_concat(seq![6nat], repeat(5, 6));
        lemma_total_width_concat(seq![6nat] + repeat(5, 6), repeat(5, 6));
        lemma_total_width_concat(seq![6nat] + repeat(5, 6) + repeat(5, 6), repeat(5, 6));
        lemma_total_width_concat(seq![6nat] + repeat(5, 6) + repeat(5, 6) + repeat(5, 6), seq![29nat]);
    } else if mode == 3 {
        lemma_total_width_one(6);
        lemma_total_width_repeat(7, 4);
        lemma_total_width_repeat(7, 4);
        lemma_total_width_repeat(7, 4);
        lemma_total_width_repeat(1, 4);
        lemma_total_width_one(30);
        lemma_total_width_concat(seq![6nat], repeat(7, 4));
        lemma_total_width_concat(seq![6nat] + repeat(7, 4), repeat(7, 4));
        lemma_total_width_concat(seq![6nat] + repeat(7, 4) + repeat(7, 4), repeat(7, 4));
        lemma_total_width_concat(seq![6nat] + repeat(7, 4) + repeat(7, 4) + repeat(7, 4), repeat(1, 4));
        lemma_total_width_concat(seq![6nat] + repeat(7, 4) + repeat(7, 4) + repeat(7, 4) + repeat(1, 4), seq![30nat]);
    } else if mode == 4 {
        lemma_total_width_two(2, 1);
        lemma_total_width_repeat(5, 2);
        lemma_total_width_repeat(5, 2);
        lemma_total_width_repeat(5, 2);
        lemma_total_width_repeat(6, 2);
        lemma_total_width_two(31, 47);
        lemma_total_width_concat(seq![2nat, 1nat], repeat(5, 2));
        lemma_total_width_concat(seq![2nat, 1nat] + repeat(5, 2), repeat(5, 2));
        lemma_total_width_concat(seq![2nat, 1nat] + repeat(5, 2) + repeat(5, 2), repeat(5, 2));
        lemma_total_width_concat(seq![2nat, 1nat] + repeat(5, 2) + repeat(5, 2) + repeat(5, 2), repeat(6, 2));
        lemma_total_width_concat(seq![2nat, 1nat] + repeat(5, 2) + repeat(5, 2) + repeat(5, 2) + repeat(6, 2), seq![31nat, 47nat]);
    } else if mode == 5 {
        lemma_total_width_one(2);
        lemma_total_width_repeat(7, 2);
        lemma_total_width_repeat(7, 2);
        lemma_total_width_repeat(7, 2);
        lemma_total_width_repeat(8, 2);
        lemma_total_width_two(31, 31);
        lemma_total_width_concat(seq![2nat], repeat(7, 2));
        lemma_total_width_concat(seq![2nat] + repeat(7, 2), repeat(7, 2));
        lemma_total_width_concat(seq![2nat] + repeat(7, 2) + repeat(7, 2), repeat(7, 2));
        lemma_total_width_concat(seq![2nat] + repeat(7, 2) + repeat(7, 2) + repeat(7, 2), repeat(8, 2));
        lemma_total_width_concat(seq![2nat] + repeat(7, 2) + repeat(7, 2) + repeat(7, 2) + repeat(8, 2), seq![31nat, 31nat]);
    } else if mode == 6 {
        lemma_total_width_repeat(7, 2);
        lemma_total_width_repeat(7, 2);
        lemma_total_width_repeat(7, 2);
        lemma_total_width_repeat(7, 2);
        lemma_total_width_repeat(1, 2);
        lemma_total_width_one(63);
        lemma_total_width_concat(repeat(7, 2), repeat(7, 2));
        lemma_total_width_concat(repeat(7, 2) + repeat(7, 2), repeat(7, 2));
        lemma_total_width_concat(repeat(7, 2) + repeat(7, 2) + repeat(7, 2), repeat(7, 2));
        lemma_total_width_concat(repeat(7, 2) + repeat(7, 2) + repeat(7, 2) + repeat(7, 2), repeat(1, 2));
        lemma_total_width_concat(repeat(7, 2) + repeat(7, 2) + repeat(7, 2) + repeat(7, 2) + repeat(1, 2), seq![63nat]);
    } else if mode == 7 {
        lemma_total_width_one(6);
        lemma_total_width_repeat(5, 4);
        lemma_total_width_repeat(5, 4);
        lemma_total_width_repeat(5, 4);
        lemma_total_width_repeat(5, 4);
        lemma_total_width_repeat(1, 4);
        lemma_total_width_one(30);
        lemma_total_width_concat(seq![6nat], repeat(5, 4));
        lemma_total_width_concat(seq![6nat] + repeat(5, 4), repeat(5, 4));
        lemma_total_width_concat(seq![6nat] + repeat(5, 4) + repeat(5, 4), repeat(5, 4));
        lemma_total_width_concat(seq![6nat] + repeat(5, 4) + repeat(5, 4) + repeat(5, 4), repeat(5, 4));
        lemma_total_width_concat(seq![6nat] + repeat(5, 4) + repeat(5, 4) + repeat(5, 4) + repeat(5, 4), repeat(1, 4));
        lemma_total_width_concat(seq![6nat] + repeat(5, 4) + repeat(5, 4) + repeat(5, 4) + repeat(5, 4) + repeat(1, 4), seq![30nat]);
    }
}

proof fn lemma_total_width_one(a: nat)
    ensures
        total_width(seq![a]) == a,
{
    assert(seq![a].drop_first() =~= Seq::<nat>::empty());
    assert(total_width(seq![a].drop_first()) == 0);
    assert(seq![a][0] == a);
}

proof fn lemma_total_width_two(a: nat, b: nat)
    ensures
        total_width(seq![a, b]) == a + b,
{
    assert(seq![a, b].drop_first() =~= seq![b]);
    lemma_total_width_one(b);
    assert(seq![a, b][0] == a);
}

/// The 128-bit value of a block of the given mode with the given fields: `mode` zero
/// bits, a one bit, then the fields packed along the mode's layout.
pub open spec fn encoded(mode: nat, fields: Seq<nat>) -> nat {
    pow2(mode) + pow2(mode + 1) * pack(fields, layout(mode))
}

impl View for Block0 {
    type V = Seq<nat>;

    /// The fields in layout order.
    open spec fn view(&self) -> Seq<nat> {
        seq![self.partition as nat] + nats(self.r@) + nats(self.g@) + nats(self.b@) + nats(self.p@)
            + seq![self.index_data as nat]
    }
}

impl View for Block1 {
    type V = Seq<nat>;

    open spec fn view(&self) -> Seq<nat> {
        seq![self.partition as nat] + nats(self.r@) + nats(self.g@) + nats(self.b@) + nats(self.p@)
            + seq![self.index_data as nat]
    }
}

impl View for Block2 {
    type V = Seq<nat>;

    open spec fn view(&self) -> Seq<nat> {
        seq![self.partition as nat] + nats(self.r@) + nats(self.g@) + nats(self.b@) + seq![
            self.index_data as nat,
        ]
    }
}

impl View for Block3 {
    type V = Seq<nat>;

    open spec fn view(&self) -> Seq<nat> {
        seq![self.partition as nat] + nats(self.r@) + nats(self.g@) + nats(self.b@) + nats(self.p@)
            + seq![self.index_data as nat]
    }
}

impl View for Block4 {
    type V = Seq<nat>;

    open spec fn view(&self) -> Seq<nat> {
        seq![self.rot.code(), if self.idx_mode { 1nat } else { 0nat }] + nats(self.r@) + nats(
            self.g@,
        ) + nats(self.b@) + nats(self.a@) + seq![self.index_data0 as nat, self.index_data1 as nat]
    }
}

impl View for Block5 {
    type V = Seq<nat>;

    open spec fn view(&self) -> Seq<nat> {
        seq![self.rot.code()] + nats(self.r@) + nats(self.g@) + nats(self.b@) + nats(self.a@)
            + seq![self.colors as nat, self.alpha as nat]
    }
}

impl View for Block6 {
    type V = Seq<nat>;

    open spec fn view(&self) -> Seq<nat> {
        nats(self.r@) + nats(self.g@) + nats(self.b@) + nats(self.a@) + nats(self.p@) + seq![
            self.index_data as nat,
        ]
    }
}

impl View for Block7 {
    type V = Seq<nat>;

    open spec fn view(&self) -> Seq<nat> {
        seq![self.partition as nat] + nats(self.r@) + nats(self.g@) + nats(self.b@) + nats(self.a@)
            + nats(self.p@) + seq![self.index_data as nat]
    }
}

/// Subset of each texel, for each of the 64 two-subset partitions.
pub const PARTITIONS_2: [[usize; 16]; 64] = [
    [0, 0, 1, 1, 0, 0, 1, 1, 0, 0, 1, 1, 0, 0, 1, 1],
    [0, 0, 0, 1, 0, 0, 0, 1, 0, 0, 0, 1, 0, 0, 0, 1],
    [0, 1, 1, 1, 0, 1, 1, 1, 0, 1, 1, 1, 0, 1, 1, 1],
    [0, 0, 0, 1, 0, 0, 1, 1, 0, 0, 1, 1, 0, 1, 1, 1],
    [0, 0, 0, 0, 0, 0, 0, 1, 0, 0, 0, 1, 0, 0, 1, 1],
    [0, 0, 1, 1, 0, 1, 1, 1, 0, 1, 1, 1, 1, 1, 1, 1],
    [0, 0, 0, 1, 0, 0, 1, 1, 0, 1, 1, 1, 1, 1, 1, 1],
    [0, 0, 0, 0, 0, 0, 0, 1, 0, 0, 1, 1, 0, 1, 1, 1],
    [0, 0, 0, 0, 0, 0, 0, 0, 0, 0, 0, 1, 0, 0, 1, 1],
    [0, 0, 1, 1, 0, 1, 1, 1, 1, 1, 1, 1, 1, 1, 1, 1],
    [0, 0, 0, 0, 0, 0, 0, 1, 0, 1, 1, 1, 1, 1, 1, 1],
    [0, 0, 0, 0, 0, 0, 0, 0, 0, 0, 0, 1, 0, 1, 1, 1],
    [0, 0, 0, 1, 0, 1, 1, 1, 1, 1, 1, 1, 1, 1, 1, 1],
    [0, 0, 0, 0, 0, 0, 0, 0, 1, 1, 1, 1, 1, 1, 1, 1],
    [0, 0, 0, 0, 1, 1, 1, 1, 1, 1, 1, 1, 1, 1, 1, 1],
    [0, 0, 0, 0, 0, 0, 0, 0, 0, 0, 0, 0, 1, 1, 1, 1],
    [0, 0, 0, 0, 1, 0, 0, 0, 1, 1, 1, 0, 1, 1, 1, 1],
    [0, 1, 1, 1, 0, 0, 0, 1, 0, 0, 0, 0, 0, 0, 0, 0],
    [0, 0, 0, 0, 0, 0, 0, 0, 1, 0, 0, 0, 1, 1, 1, 0],
    [0, 1, 1, 1, 0, 0, 1, 1, 0, 0, 0, 1, 0, 0, 0, 0],
    [0, 0, 1, 1, 0, 0, 0, 1, 0, 0, 0, 0, 0, 0, 0, 0],
    [0, 0, 0, 0, 1, 0, 0, 0, 1, 1, 0, 0, 1, 1, 1, 0],
    [0, 0, 0, 0, 0, 0, 0, 0, 1, 0, 0, 0, 1, 1, 0, 0],
    [0, 1, 1, 1, 0, 0, 1, 1, 0, 0, 1, 1, 0, 0, 0, 1],
    [0, 0, 1, 1, 0, 0, 0, 1, 0, 0, 0, 1, 0, 0, 0, 0],
    [0, 0, 0, 0, 1, 0, 0, 0, 1, 0, 0, 0, 1, 1, 0, 0],
    [0, 1, 1, 0, 0, 1, 1, 0, 0, 1, 1, 0, 0, 1, 1, 0],
    [0, 0, 1, 1, 0, 1, 1, 0, 0, 1, 1, 0, 1, 1, 0, 0],
    [0, 0, 0, 1, 0, 1, 1, 1, 1, 1, 1, 0, 1, 0, 0, 0],
    [0, 0, 0, 0, 1, 1, 1, 1, 1, 1, 1, 1, 0, 0, 0, 0],
    [0, 1, 1, 1, 0, 0, 0, 1, 1, 0, 0, 0, 1, 1, 1, 0],
    [0, 0, 1, 1, 1, 0, 0, 1, 1, 0, 0, 1, 1, 1, 0, 0],
    [0, 1, 0, 1, 0, 1, 0, 1, 0, 1, 0, 1, 0, 1, 0, 1],
    [0, 0, 0, 0, 1, 1, 1, 1, 0, 0, 0, 0, 1, 1, 1, 1],
    [0, 1, 0, 1, 1, 0, 1, 0, 0, 1, 0, 1, 1, 0, 1, 0],
    [0, 0, 1, 1, 0, 0, 1, 1, 1, 1, 0, 0, 1, 1, 0, 0],
    [0, 0, 1, 1, 1, 1, 0, 0, 0, 0, 1, 1, 1, 1, 0, 0],
    [0, 1, 0, 1, 0, 1, 0, 1, 1, 0, 1, 0, 1, 0, 1, 0],
    [0, 1, 1, 0, 1, 0, 0, 1, 0, 1, 1, 0, 1, 0, 0, 1],
    [0, 1, 0, 1, 1, 0, 1, 0, 1, 0, 1, 0, 0, 1, 0, 1],
    [0, 1, 1, 1, 0, 0, 1, 1, 1, 1, 0, 0, 1, 1, 1, 0],
    [0, 0, 0, 1, 0, 0, 1, 1, 1, 1, 0, 0, 1, 0, 0, 0],
    [0, 0, 1, 1, 0, 0, 1, 0, 0, 1, 0, 0, 1, 1, 0, 0],
    [0, 0, 1, 1, 1, 0, 1, 1, 1, 1, 0, 1, 1, 1, 0, 0],
    [0, 1, 1, 0, 1, 0, 0, 1, 1, 0, 0, 1, 0, 1, 1, 0],
    [0, 0, 1, 1, 1, 1, 0, 0, 1, 1, 0, 0, 0, 0, 1, 1],
    [0, 1, 1, 0, 0, 1, 1, 0, 1, 0, 0, 1, 1, 0, 0, 1],
    [0, 0, 0, 0, 0, 1, 1, 0, 0, 1, 1, 0, 0, 0, 0, 0],
    [0, 1, 0, 0, 1, 1, 1, 0, 0, 1, 0, 0, 0, 0, 0, 0],
    [0, 0, 1, 0, 0, 1, 1, 1, 0, 0, 1, 0, 0, 0, 0, 0],
    [0, 0, 0, 0, 0, 0, 1, 0, 0, 1, 1, 1, 0, 0, 1, 0],
    [0, 0, 0, 0, 0, 1, 0, 0, 1, 1, 1, 0, 0, 1, 0, 0],
    [0, 1, 1, 0, 1, 1, 0, 0, 1, 0, 0, 1, 0, 0, 1, 1],
    [0, 0, 1, 1, 0, 1, 1, 0, 1, 1, 0, 0, 1, 0, 0, 1],
    [0, 1, 1, 0, 0, 0, 1, 1, 1, 0, 0, 1, 1, 1, 0, 0],
    [0, 0, 1, 1, 1, 0, 0, 1, 1, 1, 0, 0, 0, 1, 1, 0],
    [0, 1, 1, 0, 1, 1, 0, 0, 1, 1, 0, 0, 1, 0, 0, 1],
    [0, 1, 1, 0, 0, 0, 1, 1, 0, 0, 1, 1, 1, 0, 0, 1],
    [0, 1, 1, 1, 1, 1, 1, 0, 1, 0, 0, 0, 0, 0, 0, 1],
    [0, 0, 0, 1, 1, 0, 0, 0, 1, 1, 1, 0, 0, 1, 1, 1],
    [0, 0, 0, 0, 1, 1, 1, 1, 0, 0, 1, 1, 0, 0, 1, 1],
    [0, 0, 1, 1, 0, 0, 1, 1, 1, 1, 1, 1, 0, 0, 0, 0],
    [0, 0, 1, 0, 0, 0, 1, 0, 1, 1, 1, 0, 1, 1, 1, 0],
    [0, 1, 0, 0, 0, 1, 0, 0, 0, 1, 1, 1, 0, 1, 1, 1],
];

/// Subset of each texel, for each of the 64 three-subset partitions.
pub const PARTITIONS_3: [[usize; 16]; 64] = [
    [0, 0, 1, 1, 0, 0, 1, 1, 0, 2, 2, 1, 2, 2, 2, 2],
    [0, 0, 0, 1, 0, 0, 1, 1, 2, 2, 1, 1, 2, 2, 2, 1],
    [0, 0, 0, 0, 2, 0, 0, 1, 2, 2, 1, 1, 2, 2, 1, 1],
    [0, 2, 2, 2, 0, 0, 2, 2, 0, 0, 1, 1, 0, 1, 1, 1],
    [0, 0, 0, 0, 0, 0, 0, 0, 1, 1, 2, 2, 1, 1, 2, 2],
    [0, 0, 1, 1, 0, 0, 1, 1, 0, 0, 2, 2, 0, 0, 2, 2],
    [0, 0, 2, 2, 0, 0, 2, 2, 1, 1, 1, 1, 1, 1, 1, 1],
    [0, 0, 1, 1, 0, 0, 1, 1, 2, 2, 1, 1, 2, 2, 1, 1],
    [0, 0, 0, 0, 0, 0, 0, 0, 1, 1, 1, 1, 2, 2, 2, 2],
    [0, 0, 0, 0, 1, 1, 1, 1, 1, 1, 1, 1, 2, 2, 2, 2],
    [0, 0, 0, 0, 1, 1, 1, 1, 2, 2, 2, 2, 2, 2, 2, 2],
    [0, 0, 1, 2, 0, 0, 1, 2, 0, 0, 1, 2, 0, 0, 1, 2],
    [0, 1, 1, 2, 0, 1, 1, 2, 0, 1, 1, 2, 0, 1, 1, 2],
    [0, 1, 2, 2, 0, 1, 2, 2, 0, 1, 2, 2, 0, 1, 2, 2],
    [0, 0, 1, 1, 0, 1, 1, 2, 1, 1, 2, 2, 1, 2, 2, 2],
    [0, 0, 1, 1, 2, 0, 0, 1, 2, 2, 0, 0, 2, 2, 2, 0],
    [0, 0, 0, 1, 0, 0, 1, 1, 0, 1, 1, 2, 1, 1, 2, 2],
    [0, 1, 1, 1, 0, 0, 1, 1, 2, 0, 0, 1, 2, 2, 0, 0],
    [0, 0, 0, 0, 1, 1, 2, 2, 1, 1, 2, 2, 1, 1, 2, 2],
    [0, 0, 2, 2, 0, 0, 2, 2, 0, 0, 2, 2, 1, 1, 1, 1],
    [0, 1, 1, 1, 0, 1, 1, 1, 0, 2, 2, 2, 0, 2, 2, 2],
    [0, 0, 0, 1, 0, 0, 0, 1, 2, 2, 2, 1, 2, 2, 2, 1],
    [0, 0, 0, 0, 0, 0, 1, 1, 0, 1, 2, 2, 0, 1, 2, 2],
    [0, 0, 0, 0, 1, 1, 0, 0, 2, 2, 1, 0, 2, 2, 1, 0],
    [0, 1, 2, 2, 0, 1, 2, 2, 0, 0, 1, 1, 0, 0, 0, 0],
    [0, 0, 1, 2, 0, 0, 1, 2, 1, 1, 2, 2, 2, 2, 2, 2],
    [0, 1, 1, 0, 1, 2, 2, 1, 1, 2, 2, 1, 0, 1, 1, 0],
    [0, 0, 0, 0, 0, 1, 1, 0, 1, 2, 2, 1, 1, 2, 2, 1],
    [0, 0, 2, 2, 1, 1, 0, 2, 1, 1, 0, 2, 0, 0, 2, 2],
    [0, 1, 1, 0, 0, 1, 1, 0, 2, 0, 0, 2, 2, 2, 2, 2],
    [0, 0, 1, 1, 0, 1, 2, 2, 0, 1, 2, 2, 0, 0, 1, 1],
    [0, 0, 0, 0, 2, 0, 0, 0, 2, 2, 1, 1, 2, 2, 2, 1],
    [0, 0, 0, 0, 0, 0, 0, 2, 1, 1, 2, 2, 1, 2, 2, 2],
    [0, 2, 2, 2, 0, 0, 2, 2, 0, 0, 1, 2, 0, 0, 1, 1],
    [0, 0, 1, 1, 0, 0, 1, 2, 0, 0, 2, 2, 0, 2, 2, 2],
    [0, 1, 2, 0, 0, 1, 2, 0, 0, 1, 2, 0, 0, 1, 2, 0],
    [0, 0, 0, 0, 1, 1, 1, 1, 2, 2, 2, 2, 0, 0, 0, 0],
    [0, 1, 2, 0, 1, 2, 0, 1, 2, 0, 1, 2, 0, 1, 2, 0],
    [0, 1, 2, 0, 2, 0, 1, 2, 1, 2, 0, 1, 0, 1, 2, 0],
    [0, 0, 1, 1, 2, 2, 0, 0, 1, 1, 2, 2, 0, 0, 1, 1],
    [0, 0, 1, 1, 1, 1, 2, 2, 2, 2, 0, 0, 0, 0, 1, 1],
    [0, 1, 0, 1, 0, 1, 0, 1, 2, 2, 2, 2, 2, 2, 2, 2],
    [0, 0, 0, 0, 0, 0, 0, 0, 2, 1, 2, 1, 2, 1, 2, 1],
    [0, 0, 2, 2, 1, 1, 2, 2, 0, 0, 2, 2, 1, 1, 2, 2],
    [0, 0, 2, 2, 0, 0, 1, 1, 0, 0, 2, 2, 0, 0, 1, 1],
    [0, 2, 2, 0, 1, 2, 2, 1, 0, 2, 2, 0, 1, 2, 2, 1],
    [0, 1, 0, 1, 2, 2, 2, 2, 2, 2, 2, 2, 0, 1, 0, 1],
    [0, 0, 0, 0, 2, 1, 2, 1, 2, 1, 2, 1, 2, 1, 2, 1],
    [0, 1, 0, 1, 0, 1, 0, 1, 0, 1, 0, 1, 2, 2, 2, 2],
    [0, 2, 2, 2, 0, 1, 1, 1, 0, 2, 2, 2, 0, 1, 1, 1],
    [0, 0, 0, 2, 1, 1, 1, 2, 0, 0, 0, 2, 1, 1, 1, 2],
    [0, 0, 0, 0, 2, 1, 1, 2, 2, 1, 1, 2, 2, 1, 1, 2],
    [0, 2, 2, 2, 0, 1, 1, 1, 0, 1, 1, 1, 0, 2, 2, 2],
    [0, 0, 0, 2, 1, 1, 1, 2, 1, 1, 1, 2, 0, 0, 0, 2],
    [0, 1, 1, 0, 0, 1, 1, 0, 0, 1, 1, 0, 2, 2, 2, 2],
    [0, 0, 0, 0, 0, 0, 0, 0, 2, 1, 1, 2, 2, 1, 1, 2],
    [0, 1, 1, 0, 0, 1, 1, 0, 2, 2, 2, 2, 2, 2, 2, 2],
    [0, 0, 2, 2, 0, 0, 1, 1, 0, 0, 1, 1, 0, 0, 2, 2],
    [0, 0, 2, 2, 1, 1, 2, 2, 1, 1, 2, 2, 0, 0, 2, 2],
    [0, 0, 0, 0, 0, 0, 0, 0, 0, 0, 0, 0, 2, 1, 1, 2],
    [0, 0, 0, 2, 0, 0, 0, 1, 0, 0, 0, 2, 0, 0, 0, 1],
    [0, 2, 2, 2, 1, 2, 2, 2, 0, 2, 2, 2, 1, 2, 2, 2],
    [0, 1, 0, 1, 2, 2, 2, 2, 2, 2, 2, 2, 2, 2, 2, 2],
    [0, 1, 1, 1, 2, 0, 1, 1, 2, 2, 0, 1, 2, 2, 2, 0],
];

/// Anchor texel of the second subset of each two-subset partition.
pub const ANCHOR_INDEX_2: [usize; 64] = [
    15, 15, 15, 15, 15, 15, 15, 15, 15, 15, 15, 15, 15, 15, 15, 15, 15, 2, 8,
    2, 2, 8, 8, 15, 2, 8, 2, 2, 8, 8, 2, 2, 15, 15, 6, 8, 2, 8, 15, 15, 2, 8,
    2, 2, 2, 15, 15, 6, 6, 2, 6, 8, 15, 15, 2, 2, 15, 15, 15, 15, 15, 2, 2, 15,
];

/// Anchor texel of the second subset of each three-subset partition.
pub const ANCHOR_INDEX_3_2: [usize; 64] = [
    3, 3, 15, 15, 8, 3, 15, 15, 8, 8, 6, 6, 6, 5, 3, 3, 3, 3, 8, 15, 3, 3, 6,
    10, 5, 8, 8, 6, 8, 5, 15, 15, 8, 15, 3, 5, 6, 10, 8, 15, 15, 3, 15, 5, 15,
    15, 15, 15, 3, 15, 5, 5, 5, 8, 5, 10, 5, 10, 8, 13, 15, 12, 3, 3,
];

/// Anchor texel of the third subset of each three-subset partition.
pub const ANCHOR_INDEX_3_3: [usize; 64] = [
    15, 8, 8, 3, 15, 15, 3, 8, 15, 15, 15, 15, 15, 15, 15, 8, 15, 8, 15, 3, 15,
    8, 15, 8, 3, 15, 6, 10, 15, 15, 10, 8, 15, 3, 15, 10, 10, 8, 9, 10, 6, 15,
    8, 15, 3, 6, 6, 8, 15, 3, 15, 15, 15, 15, 15, 15, 15, 15, 15, 15, 3, 15,
    15, 8,
];


/// Every entry of the partition and anchor tables is a valid subset or texel.
pub proof fn lemma_tables_in_range(p: int, t: int)
    requires
        0 <= p < 64,
        0 <= t < 16,
    ensures
        PARTITIONS_2[p][t] < 2,
        PARTITIONS_3[p][t] < 3,
        ANCHOR_INDEX_2[p] < 16,
        ANCHOR_INDEX_3_2[p] < 16,
        ANCHOR_INDEX_3_3[p] < 16,
{
}

/// The subset that texel `t` belongs to.
#[verifier::opaque]
pub open spec fn subset_of(subsets: nat, partition: nat, t: nat) -> nat {
    if subsets == 3 {
        PARTITIONS_3[partition as int][t as int] as nat
    } else if subsets == 2 {
        PARTITIONS_2[partition as int][t as int] as nat
    } else {
        0
    }
}

/// Whether texel `t` is the anchor of its subset, whose index is stored one bit shorter.
#[verifier::opaque]
pub open spec fn is_anchor(subsets: nat, partition: nat, t: nat) -> bool {
    ||| t == 0
    ||| subsets == 2 && t == ANCHOR_INDEX_2[partition as int]
    ||| subsets == 3 && (t == ANCHOR_INDEX_3_2[partition as int] || t == ANCHOR_INDEX_3_3[
        partition as int
    ])
}

/// The subset of texel `t` under the given partition.
pub fn subset_exec(subsets: usize, partition: usize, t: usize) -> (s: usize)
    requires
        partition < 64,
        t < 16,
        1 <= subsets <= 3,
    ensures
        s == subset_of(subsets as nat, partition as nat, t as nat),
        s < subsets,
{
    proof {
        lemma_tables_in_range(partition as int, t as int);
        reveal(subset_of);
    }
    if subsets == 3 {
        PARTITIONS_3[partition][t]
    } else if subsets == 2 {
        PARTITIONS_2[partition][t]
    } else {
        0
    }
}

/// Whether texel `t` is an anchor under the given partition.
pub fn is_anchor_exec(subsets: usize, partition: usize, t: usize) -> (r: bool)
    requires
        partition < 64,
    ensures
        r == is_anchor(subsets as nat, partition as nat, t as nat),
{
    proof {
        reveal(is_anchor);
    }
    t == 0 || (subsets == 2 && t == ANCHOR_INDEX_2[partition]) || (subsets == 3 && (t
        == ANCHOR_INDEX_3_2[partition] || t == ANCHOR_INDEX_3_3[partition]))
}

/// Decoding the fields of an encoded block gives back the fields it was encoded from,
/// for every mode and every field that fits its width.
pub proof fn lemma_block_round_trip(mode: nat, fields: Seq<nat>)
    requires
        mode < 8,
        fits(fields, layout(mode)),
    ensures
        unpack(encoded(mode, fields) / pow2(mode + 1), layout(mode)) == fields,
{
    let p = pack(fields, layout(mode));
    vstd::arithmetic::power2::lemma_pow2_strictly_increases(mode, mode + 1);
    vstd::arithmetic::power2::lemma_pow2_pos(mode);
    vstd::arithmetic::div_mod::lemma_fundamental_div_mod_converse(
        encoded(mode, fields) as int,
        pow2(mode + 1) as int,
        p as int,
        pow2(mode) as int,
    );
    lemma_unpack_pack(fields, layout(mode));
}


/// Encoding a mode 0 block whose fields fit their widths and decoding the result gives
/// back the same fields.
pub proof fn lemma_block0_round_trip(b: Block0)
    requires
        b.partition < 0x10,
        forall|i: int| 0 <= i < b.r@.len() ==> b.r@[i] < 0x10,
        forall|i: int| 0 <= i < b.g@.len() ==> b.g@[i] < 0x10,
        forall|i: int| 0 <= i < b.b@.len() ==> b.b@[i] < 0x10,
        forall|i: int| 0 <= i < b.p@.len() ==> b.p@[i] < 0x2,
        b.index_data < 0x200000000000,
    ensures
        unpack(encoded(0, b@) / pow2(1), layout(0)) == b@,
{
    vstd::arithmetic::power2::lemma2_to64();
    vstd::arithmetic::power2::lemma2_to64_rest();
    lemma_fits_one(b.partition as nat, 4);
    lemma_fits_array(b.r@, 4);
    lemma_fits_array(b.g@, 4);
    lemma_fits_array(b.b@, 4);
    lemma_fits_array(b.p@, 1);
    lemma_fits_one(b.index_data as nat, 45);
    lemma_fits_concat(seq![b.partition as nat], seq![4nat], nats(b.r@), repeat(4, b.r@.len()));
    lemma_fits_concat(seq![b.partition as nat] + nats(b.r@), seq![4nat] + repeat(4, b.r@.len()), nats(b.g@), repeat(4, b.g@.len()));
    lemma_fits_concat(seq![b.partition as nat] + nats(b.r@) + nats(b.g@), seq![4nat] + repeat(4, b.r@.len()) + repeat(4, b.g@.len()), nats(b.b@), repeat(4, b.b@.len()));
    lemma_fits_concat(seq![b.partition as nat] + nats(b.r@) + nats(b.g@) + nats(b.b@), seq![4nat] + repeat(4, b.r@.len()) + repeat(4, b.g@.len()) + repeat(4, b.b@.len()), nats(b.p@), repeat(1, b.p@.len()));
    lemma_fits_concat(seq![b.partition as nat] + nats(b.r@) + nats(b.g@) + nats(b.b@) + nats(b.p@), seq![4nat] + repeat(4, b.r@.len()) + repeat(4, b.g@.len()) + repeat(4, b.b@.len()) + repeat(1, b.p@.len()), seq![b.index_data as nat], seq![45nat]);
    assert(seq![b.partition as nat] + nats(b.r@) + nats(b.g@) + nats(b.b@) + nats(b.p@) + seq![b.index_data as nat] =~= b@);
    assert(seq![4nat] + repeat(4, b.r@.len()) + repeat(4, b.g@.len()) + repeat(4, b.b@.len()) + repeat(1, b.p@.len()) + seq![45nat] =~= layout(0));
    lemma_block_round_trip(0, b@);
}

/// Encoding a mode 1 block whose fields fit their widths and decoding the result gives
/// back the same fields.
pub proof fn lemma_block1_round_trip(b: Block1)
    requires
        b.partition < 0x40,
        forall|i: int| 0 <= i < b.r@.len() ==> b.r@[i] < 0x40,
        forall|i: int| 0 <= i < b.g@.len() ==> b.g@[i] < 0x40,
        forall|i: int| 0 <= i < b.b@.len() ==> b.b@[i] < 0x40,
        forall|i: int| 0 <= i < b.p@.len() ==> b.p@[i] < 0x2,
        b.index_data < 0x400000000000,
    ensures
        unpack(encoded(1, b@) / pow2(2), layout(1)) == b@,
{
    vstd::arithmetic::power2::lemma2_to64();
    vstd::arithmetic::power2::lemma2_to64_rest();
    lemma_fits_one(b.partition as nat, 6);
    lemma_fits_array(b.r@, 6);
    lemma_fits_array(b.g@, 6);
    lemma_fits_array(b.b@, 6);
    lemma_fits_array(b.p@, 1);
    lemma_fits_one(b.index_data as nat, 46);
    lemma_fits_concat(seq![b.partition as nat], seq![6nat], nats(b.r@), repeat(6, b.r@.len()));
    lemma_fits_concat(seq![b.partition as nat] + nats(b.r@), seq![6nat] + repeat(6, b.r@.len()), nats(b.g@), repeat(6, b.g@.len()));
    lemma_fits_concat(seq![b.partition as nat] + nats(b.r@) + nats(b.g@), seq![6nat] + repeat(6, b.r@.len()) + repeat(6, b.g@.len()), nats(b.b@), repeat(6, b.b@.len()));
    lemma_fits_concat(seq![b.partition as nat] + nats(b.r@) + nats(b.g@) + nats(b.b@), seq![6nat] + repeat(6, b.r@.len()) + repeat(6, b.g@.len()) + repeat(6, b.b@.len()), nats(b.p@), repeat(1, b.p@.len()));
    lemma_fits_concat(seq![b.partition as nat] + nats(b.r@) + nats(b.g@) + nats(b.b@) + nats(b.p@), seq![6nat] + repeat(6, b.r@.len()) + repeat(6, b.g@.len()) + repeat(6, b.b@.len()) + repeat(1, b.p@.len()), seq![b.index_data as nat], seq![46nat]);
    assert(seq![b.partition as nat] + nats(b.r@) + nats(b.g@) + nats(b.b@) + nats(b.p@) + seq![b.index_data as nat] =~= b@);
    assert(seq![6nat] + repeat(6, b.r@.len()) + repeat(6, b.g@.len()) + repeat(6, b.b@.len()) + repeat(1, b.p@.len()) + seq![46nat] =~= layout(1));
    lemma_block_round_trip(1, b@);
}

/// Encoding a mode 2 block whose fields fit their widths and decoding the result gives
/// back the same fields.
pub proof fn lemma_block2_round_trip(b: Block2)
    requires
        b.partition < 0x40,
        forall|i: int| 0 <= i < b.r@.len() ==> b.r@[i] < 0x20,
        forall|i: int| 0 <= i < b.g@.len() ==> b.g@[i] < 0x20,
        forall|i: int| 0 <= i < b.b@.len() ==> b.b@[i] < 0x20,
        b.index_data < 0x20000000,
    ensures
        unpack(encoded(2, b@) / pow2(3), layout(2)) == b@,
{
    vstd::arithmetic::power2::lemma2_to64();
    vstd::arithmetic::power2::lemma2_to64_rest();
    lemma_fits_one(b.partition as nat, 6);
    lemma_fits_array(b.r@, 5);
    lemma_fits_array(b.g@, 5);
    lemma_fits_array(b.b@, 5);
    lemma_fits_one(b.index_data as nat, 29);
    lemma_fits_concat(seq![b.partition as nat], seq![6nat], nats(b.r@), repeat(5, b.r@.len()));
    lemma_fits_concat(seq![b.partition as nat] + nats(b.r@), seq![6nat] + repeat(5, b.r@.len()), nats(b.g@), repeat(5, b.g@.len()));
    lemma_fits_concat(seq![b.partition as nat] + nats(b.r@) + nats(b.g@), seq![6nat] + repeat(5, b.r@.len()) + repeat(5, b.g@.len()), nats(b.b@), repeat(5, b.b@.len()));
    lemma_fits_concat(seq![b.partition as nat] + nats(b.r@) + nats(b.g@) + nats(b.b@), seq![6nat] + repeat(5, b.r@.len()) + repeat(5, b.g@.len()) + repeat(5, b.b@.len()), seq![b.index_data as nat], seq![29nat]);
    assert(seq![b.partition as nat] + nats(b.r@) + nats(b.g@) + nats(b.b@) + seq![b.index_data as nat] =~= b@);
    assert(seq![6nat] + repeat(5, b.r@.len()) + repeat(5, b.g@.len()) + repeat(5, b.b@.len()) + seq![29nat] =~= layout(2));
    lemma_block_round_trip(2, b@);
}

/// Encoding a mode 3 block whose fields fit their widths and decoding the result gives
/// back the same fields.
pub proof fn lemma_block3_round_trip(b: Block3)
    requires
        b.partition < 0x40,
        forall|i: int| 0 <= i < b.r@.len() ==> b.r@[i] < 0x80,
        forall|i: int| 0 <= i < b.g@.len() ==> b.g@[i] < 0x80,
        forall|i: int| 0 <= i < b.b@.len() ==> b.b@[i] < 0x80,
        forall|i: int| 0 <= i < b.p@.len() ==> b.p@[i] < 0x2,
        b.index_data < 0x40000000,
    ensures
        unpack(encoded(3, b@) / pow2(4), layout(3)) == b@,
{
    vstd::arithmetic::power2::lemma2_to64();
    vstd::arithmetic::power2::lemma2_to64_rest();
    lemma_fits_one(b.partition as nat, 6);
    lemma_fits_array(b.r@, 7);
    lemma_fits_array(b.g@, 7);
    lemma_fits_array(b.b@, 7);
    lemma_fits_array(b.p@, 1);
    lemma_fits_one(b.index_data as nat, 30);
    lemma_fits_concat(seq![b.partition as nat], seq![6nat], nats(b.r@), repeat(7, b.r@.len()));
    lemma_fits_concat(seq![b.partition as nat] + nats(b.r@), seq![6nat] + repeat(7, b.r@.len()), nats(b.g@), repeat(7, b.g@.len()));
    lemma_fits_concat(seq![b.partition as nat] + nats(b.r@) + nats(b.g@), seq![6nat] + repeat(7, b.r@.len()) + repeat(7, b.g@.len()), nats(b.b@), repeat(7, b.b@.len()));
    lemma_fits_concat(seq![b.partition as nat] + nats(b.r@) + nats(b.g@) + nats(b.b@), seq![6nat] + repeat(7, b.r@.len()) + repeat(7, b.g@.len()) + repeat(7, b.b@.len()), nats(b.p@), repeat(1, b.p@.len()));
    lemma_fits_concat(seq![b.partition as nat] + nats(b.r@) + nats(b.g@) + nats(b.b@) + nats(b.p@), seq![6nat] + repeat(7, b.r@.len()) + repeat(7, b.g@.len()) + repeat(7, b.b@.len()) + repeat(1, b.p@.len()), seq![b.index_data as nat], seq![30nat]);
    assert(seq![b.partition as nat] + nats(b.r@) + nats(b.g@) + nats(b.b@) + nats(b.p@) + seq![b.index_data as nat] =~= b@);
    assert(seq![6nat] + repeat(7, b.r@.len()) + repeat(7, b.g@.len()) + repeat(7, b.b@.len()) + repeat(1, b.p@.len()) + seq![30nat] =~= layout(3));
    lemma_block_round_trip(3, b@);
}

/// Encoding a mode 4 block whose fields fit their widths and decoding the result gives
/// back the same fields.
pub proof fn lemma_block4_round_trip(b: Block4)
    requires
        forall|i: int| 0 <= i < b.r@.len() ==> b.r@[i] < 0x20,
        forall|i: int| 0 <= i < b.g@.len() ==> b.g@[i] < 0x20,
        forall|i: int| 0 <= i < b.b@.len() ==> b.b@[i] < 0x20,
        forall|i: int| 0 <= i < b.a@.len() ==> b.a@[i] < 0x40,
        b.index_data0 < 0x80000000,
        b.index_data1 < 0x800000000000,
    ensures
        unpack(encoded(4, b@) / pow2(5), layout(4)) == b@,
{
    vstd::arithmetic::power2::lemma2_to64();
    vstd::arithmetic::power2::lemma2_to64_rest();
    lemma_fits_one(b.rot.code(), 2);
    lemma_fits_one(if b.idx_mode { 1nat } else { 0nat }, 1);
    lemma_fits_array(b.r@, 5);
    lemma_fits_array(b.g@, 5);
    lemma_fits_array(b.b@, 5);
    lemma_fits_array(b.a@, 6);
    lemma_fits_one(b.index_data0 as nat, 31);
    lemma_fits_one(b.index_data1 as nat, 47);
    lemma_fits_concat(seq![b.rot.code()], seq![2nat], seq![if b.idx_mode { 1nat } else { 0nat }], seq![1nat]);
    lemma_fits_concat(seq![b.rot.code()] + seq![if b.idx_mode { 1nat } else { 0nat }], seq![2nat] + seq![1nat], nats(b.r@), repeat(5, b.r@.len()));
    lemma_fits_concat(seq![b.rot.code()] + seq![if b.idx_mode { 1nat } else { 0nat }] + nats(b.r@), seq![2nat] + seq![1nat] + repeat(5, b.r@.len()), nats(b.g@), repeat(5, b.g@.len()));
    lemma_fits_concat(seq![b.rot.code()] + seq![if b.idx_mode { 1nat } else { 0nat }] + nats(b.r@) + nats(b.g@), seq![2nat] + seq![1nat] + repeat(5, b.r@.len()) + repeat(5, b.g@.len()), nats(b.b@), repeat(5, b.b@.len()));
    lemma_fits_concat(seq![b.rot.code()] + seq![if b.idx_mode { 1nat } else { 0nat }] + nats(b.r@) + nats(b.g@) + nats(b.b@), seq![2nat] + seq![1nat] + repeat(5, b.r@.len()) + repeat(5, b.g@.len()) + repeat(5, b.b@.len()), nats(b.a@), repeat(6, b.a@.len()));
    lemma_fits_concat(seq![b.rot.code()] + seq![if b.idx_mode { 1nat } else { 0nat }] + nats(b.r@) + nats(b.g@) + nats(b.b@) + nats(b.a@), seq![2nat] + seq![1nat] + repeat(5, b.r@.len()) + repeat(5, b.g@.len()) + repeat(5, b.b@.len()) + repeat(6, b.a@.len()), seq![b.index_data0 as nat], seq![31nat]);
    lemma_fits_concat(seq![b.rot.code()] + seq![if b.idx_mode { 1nat } else { 0nat }] + nats(b.r@) + nats(b.g@) + nats(b.b@) + nats(b.a@) + seq![b.index_data0 as nat], seq![2nat] + seq![1nat] + repeat(5, b.r@.len()) + repeat(5, b.g@.len()) + repeat(5, b.b@.len()) + repeat(6, b.a@.len()) + seq![31nat], seq![b.index_data1 as nat], seq![47nat]);
    assert(seq![b.rot.code()] + seq![if b.idx_mode { 1nat } else { 0nat }] + nats(b.r@) + nats(b.g@) + nats(b.b@) + nats(b.a@) + seq![b.index_data0 as nat] + seq![b.index_data1 as nat] =~= b@);
    assert(seq![2nat] + seq![1nat] + repeat(5, b.r@.len()) + repeat(5, b.g@.len()) + repeat(5, b.b@.len()) + repeat(6, b.a@.len()) + seq![31nat] + seq![47nat] =~= layout(4));
    lemma_block_round_trip(4, b@);
}

/// Encoding a mode 5 block whose fields fit their widths and decoding the result gives
/// back the same fields.
pub proof fn lemma_block5_round_trip(b: Block5)
    requires
        forall|i: int| 0 <= i < b.r@.len() ==> b.r@[i] < 0x80,
        forall|i: int| 0 <= i < b.g@.len() ==> b.g@[i] < 0x80,
        forall|i: int| 0 <= i < b.b@.len() ==> b.b@[i] < 0x80,
        forall|i: int| 0 <= i < b.a@.len() ==> b.a@[i] < 0x100,
        b.colors < 0x80000000,
        b.alpha < 0x80000000,
    ensures
        unpack(encoded(5, b@) / pow2(6), layout(5)) == b@,
{
    vstd::arithmetic::power2::lemma2_to64();
    vstd::arithmetic::power2::lemma2_to64_rest();
    lemma_fits_one(b.rot.code(), 2);
    lemma_fits_array(b.r@, 7);
    lemma_fits_array(b.g@, 7);
    lemma_fits_array(b.b@, 7);
    lemma_fits_array(b.a@, 8);
    lemma_fits_one(b.colors as nat, 31);
    lemma_fits_one(b.alpha as nat, 31);
    lemma_fits_concat(seq![b.rot.code()], seq![2nat], nats(b.r@), repeat(7, b.r@.len()));
    lemma_fits_concat(seq![b.rot.code()] + nats(b.r@), seq![2nat] + repeat(7, b.r@.len()), nats(b.g@), repeat(7, b.g@.len()));
    lemma_fits_concat(seq![b.rot.code()] + nats(b.r@) + nats(b.g@), seq![2nat] + repeat(7, b.r@.len()) + repeat(7, b.g@.len()), nats(b.b@), repeat(7, b.b@.len()));
    lemma_fits_concat(seq![b.rot.code()] + nats(b.r@) + nats(b.g@) + nats(b.b@), seq![2nat] + repeat(7, b.r@.len()) + repeat(7, b.g@.len()) + repeat(7, b.b@.len()), nats(b.a@), repeat(8, b.a@.len()));
    lemma_fits_concat(seq![b.rot.code()] + nats(b.r@) + nats(b.g@) + nats(b.b@) + nats(b.a@), seq![2nat] + repeat(7, b.r@.len()) + repeat(7, b.g@.len()) + repeat(7, b.b@.len()) + repeat(8, b.a@.len()), seq![b.colors as nat], seq![31nat]);
    lemma_fits_concat(seq![b.rot.code()] + nats(b.r@) + nats(b.g@) + nats(b.b@) + nats(b.a@) + seq![b.colors as nat], seq![2nat] + repeat(7, b.r@.len()) + repeat(7, b.g@.len()) + repeat(7, b.b@.len()) + repeat(8, b.a@.len()) + seq![31nat], seq![b.alpha as nat], seq![31nat]);
    assert(seq![b.rot.code()] + nats(b.r@) + nats(b.g@) + nats(b.b@) + nats(b.a@) + seq![b.colors as nat] + seq![b.alpha as nat] =~= b@);
    assert(seq![2nat] + repeat(7, b.r@.len()) + repeat(7, b.g@.len()) + repeat(7, b.b@.len()) + repeat(8, b.a@.len()) + seq![31nat] + seq![31nat] =~= layout(5));
    lemma_block_round_trip(5, b@);
}

/// Encoding a mode 6 block whose fields fit their widths and decoding the result gives
/// back the same fields.
pub proof fn lemma_block6_round_trip(b: Block6)
    requires
        forall|i: int| 0 <= i < b.r@.len() ==> b.r@[i] < 0x80,
        forall|i: int| 0 <= i < b.g@.len() ==> b.g@[i] < 0x80,
        forall|i: int| 0 <= i < b.b@.len() ==> b.b@[i] < 0x80,
        forall|i: int| 0 <= i < b.a@.len() ==> b.a@[i] < 0x80,
        forall|i: int| 0 <= i < b.p@.len() ==> b.p@[i] < 0x2,
        b.index_data < 0x8000000000000000,
    ensures
        unpack(encoded(6, b@) / pow2(7), layout(6)) == b@,
{
    vstd::arithmetic::power2::lemma2_to64();
    vstd::arithmetic::power2::lemma2_to64_rest();
    lemma_fits_array(b.r@, 7);
    lemma_fits_array(b.g@, 7);
    lemma_fits_array(b.b@, 7);
    lemma_fits_array(b.a@, 7);
    lemma_fits_array(b.p@, 1);
    lemma_fits_one(b.index_data as nat, 63);
    lemma_fits_concat(nats(b.r@), repeat(7, b.r@.len()), nats(b.g@), repeat(7, b.g@.len()));
    lemma_fits_concat(nats(b.r@) + nats(b.g@), repeat(7, b.r@.len()) + repeat(7, b.g@.len()), nats(b.b@), repeat(7, b.b@.len()));
    lemma_fits_concat(nats(b.r@) + nats(b.g@) + nats(b.b@), repeat(7, b.r@.len()) + repeat(7, b.g@.len()) + repeat(7, b.b@.len()), nats(b.a@), repeat(7, b.a@.len()));
    lemma_fits_concat(nats(b.r@) + nats(b.g@) + nats(b.b@) + nats(b.a@), repeat(7, b.r@.len()) + repeat(7, b.g@.len()) + repeat(7, b.b@.len()) + repeat(7, b.a@.len()), nats(b.p@), repeat(1, b.p@.len()));
    lemma_fits_concat(nats(b.r@) + nats(b.g@) + nats(b.b@) + nats(b.a@) + nats(b.p@), repeat(7, b.r@.len()) + repeat(7, b.g@.len()) + repeat(7, b.b@.len()) + repeat(7, b.a@.len()) + repeat(1, b.p@.len()), seq![b.index_data as nat], seq![63nat]);
    assert(nats(b.r@) + nats(b.g@) + nats(b.b@) + nats(b.a@) + nats(b.p@) + seq![b.index_data as nat] =~= b@);
    assert(repeat(7, b.r@.len()) + repeat(7, b.g@.len()) + repeat(7, b.b@.len()) + repeat(7, b.a@.len()) + repeat(1, b.p@.len()) + seq![63nat] =~= layout(6));
    lemma_block_round_trip(6, b@);
}

/// Encoding a mode 7 block whose fields fit their widths and decoding the result gives
/// back the same fields.
pub proof fn lemma_block7_round_trip(b: Block7)
    requires
        b.partition < 0x40,
        forall|i: int| 0 <= i < b.r@.len() ==> b.r@[i] < 0x20,
        forall|i: int| 0 <= i < b.g@.len() ==> b.g@[i] < 0x20,
        forall|i: int| 0 <= i < b.b@.len() ==> b.b@[i] < 0x20,
        forall|i: int| 0 <= i < b.a@.len() ==> b.a@[i] < 0x20,
        forall|i: int| 0 <= i < b.p@.len() ==> b.p@[i] < 0x2,
        b.index_data < 0x40000000,
    ensures
        unpack(encoded(7, b@) / pow2(8), layout(7)) == b@,
{
    vstd::arithmetic::power2::lemma2_to64();
    vstd::arithmetic::power2::lemma2_to64_rest();
    lemma_fits_one(b.partition as nat, 6);
    lemma_fits_array(b.r@, 5);
    lemma_fits_array(b.g@, 5);
    lemma_fits_array(b.b@, 5);
    lemma_fits_array(b.a@, 5);
    lemma_fits_array(b.p@, 1);
    lemma_fits_one(b.index_data as nat, 30);
    lemma_fits_concat(seq![b.partition as nat], seq![6nat], nats(b.r@), repeat(5, b.r@.len()));
    lemma_fits_concat(seq![b.partition as nat] + nats(b.r@), seq![6nat] + repeat(5, b.r@.len()), nats(b.g@), repeat(5, b.g@.len()));
    lemma_fits_concat(seq![b.partition as nat] + nats(b.r@) + nats(b.g@), seq![6nat] + repeat(5, b.r@.len()) + repeat(5, b.g@.len()), nats(b.b@), repeat(5, b.b@.len()));
    lemma_fits_concat(seq![b.partition as nat] + nats(b.r@) + nats(b.g@) + nats(b.b@), seq![6nat] + repeat(5, b.r@.len()) + repeat(5, b.g@.len()) + repeat(5, b.b@.len()), nats(b.a@), repeat(5, b.a@.len()));
    lemma_fits_concat(seq![b.partition as nat] + nats(b.r@) + nats(b.g@) + nats(b.b@) + nats(b.a@), seq![6nat] + repeat(5, b.r@.len()) + repeat(5, b.g@.len()) + repeat(5, b.b@.len()) + repeat(5, b.a@.len()), nats(b.p@), repeat(1, b.p@.len()));
    lemma_fits_concat(seq![b.partition as nat] + nats(b.r@) + nats(b.g@) + nats(b.b@) + nats(b.a@) + nats(b.p@), seq![6nat] + repeat(5, b.r@.len()) + repeat(5, b.g@.len()) + repeat(5, b.b@.len()) + repeat(5, b.a@.len()) + repeat(1, b.p@.len()), seq![b.index_data as nat], seq![30nat]);
    assert(seq![b.partition as nat] + nats(b.r@) + nats(b.g@) + nats(b.b@) + nats(b.a@) + nats(b.p@) + seq![b.index_data as nat] =~= b@);
    assert(seq![6nat] + repeat(5, b.r@.len()) + repeat(5, b.g@.len()) + repeat(5, b.b@.len()) + repeat(5, b.a@.len()) + repeat(1, b.p@.len()) + seq![30nat] =~= layout(7));
    lemma_block_round_trip(7, b@);
}

} // verus!
