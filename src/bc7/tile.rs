//! Decoding a 128-bit BC7 block into a 4x4 tile of RGBA texels.
use crate::bc7::{
    interp, layout, lemma_layout_total, rotated_channel, subset_of, weight, Block0, Block1, Block2, Block3, Block4, Block5, Block6, Block7, Rotation,
};
use crate::bc7::index::texel_index;
use crate::bitstream::{field_at, lemma_div_pow2_step, lemma_field_at_bound, total_width};
use crate::bc7::render::{render, TileParams};
use crate::surface::Rgba;
use vstd::arithmetic::power2::{lemma2_to64, lemma2_to64_rest, lemma_pow2_pos, pow2};
use vstd::prelude::*;

verus! {

/// The position of the lowest set bit of `x` at or above bit `m`, looking no higher than
/// bit 7; 8 when there is none.
pub open spec fn first_set_bit(x: nat, m: nat) -> nat
    decreases 8 - m,
{
    if m >= 8 {
        8
    } else if (x / pow2(m)) % 2 == 1 {
        m
    } else {
        first_set_bit(x, m + 1)
    }
}

/// The mode of a block: the number of zero bits below its lowest set bit; 8 and above
/// mark an invalid block.
pub open spec fn block_mode(block: u128) -> nat {
    first_set_bit(block as nat, 0)
}

/// The bits of a block above its mode prefix, where the fields of its layout start.
pub open spec fn payload(block: u128) -> nat {
    block as nat / pow2(block_mode(block) + 1)
}

pub open spec fn subset_count(m: nat) -> nat {
    if m == 0 || m == 2 {
        3
    } else if m == 1 || m == 3 || m == 7 {
        2
    } else {
        1
    }
}

/// Bits in front of the endpoints: the partition, or the rotation and index mode.
pub open spec fn header_bits(m: nat) -> nat {
    if m == 0 {
        4
    } else if m == 4 {
        3
    } else if m == 5 {
        2
    } else if m == 6 {
        0
    } else {
        6
    }
}

/// Stored bits of each color channel of an endpoint.
pub open spec fn color_width(m: nat) -> nat {
    if m == 0 {
        4
    } else if m == 1 {
        6
    } else if m == 3 || m == 5 || m == 6 {
        7
    } else {
        5
    }
}

/// Stored bits of the alpha channel of an endpoint; 0 where the mode stores no alpha.
pub open spec fn alpha_width(m: nat) -> nat {
    if m == 4 {
        6
    } else if m == 5 {
        8
    } else if m == 6 {
        7
    } else if m == 7 {
        5
    } else {
        0
    }
}

pub open spec fn has_pbits(m: nat) -> bool {
    m == 0 || m == 1 || m == 3 || m == 6 || m == 7
}

pub open spec fn partition_of(m: nat, x: nat) -> nat {
    if subset_count(m) > 1 {
        field_at(x, 0, header_bits(m))
    } else {
        0
    }
}

/// The stored value of channel `c` of endpoint `e`: the color channels of all endpoints
/// come first, channel after channel, then the alpha values.
pub open spec fn raw_endpoint(m: nat, x: nat, e: nat, c: nat) -> nat {
    let n = 2 * subset_count(m);
    if c < 3 {
        field_at(x, header_bits(m) + (c * n + e) * color_width(m), color_width(m))
    } else {
        field_at(x, header_bits(m) + 3 * n * color_width(m) + e * alpha_width(m), alpha_width(m))
    }
}

/// Where the p-bits start: right after the endpoints.
pub open spec fn pbit_start(m: nat) -> nat {
    let n = 2 * subset_count(m);
    header_bits(m) + 3 * n * color_width(m) + n * alpha_width(m)
}

/// The p-bit of endpoint `e`; in mode 1 both endpoints of a subset share one.
pub open spec fn pbit(m: nat, x: nat, e: nat) -> nat {
    if m == 1 {
        field_at(x, pbit_start(m) + e / 2, 1)
    } else {
        field_at(x, pbit_start(m) + e, 1)
    }
}

/// Where the index data starts: after the p-bits.
pub open spec fn index_start(m: nat) -> nat {
    if m == 1 {
        pbit_start(m) + 2
    } else if has_pbits(m) {
        pbit_start(m) + 2 * subset_count(m)
    } else {
        pbit_start(m)
    }
}

/// Bits of precision of channel `c` of an endpoint once its p-bit is appended.
pub open spec fn precision(m: nat, c: nat) -> nat {
    if c == 3 && alpha_width(m) > 0 {
        alpha_width(m) + if has_pbits(m) { 1nat } else { 0nat }
    } else {
        color_width(m) + if has_pbits(m) { 1nat } else { 0nat }
    }
}

/// Widens a `k`-bit value to 8 bits: shifted to the high bits, with its own high bits
/// replicated into the low bits.
#[verifier::opaque]
pub open spec fn expand(v: nat, k: nat) -> nat {
    let s = v * pow2((8 - k) as nat);
    s + s / pow2(k)
}

/// Channel `c` of endpoint `e`, widened to 8 bits.
#[verifier::opaque]
pub open spec fn endpoint(m: nat, x: nat, e: nat, c: nat) -> nat {
    let raw = raw_endpoint(m, x, e, c);
    let v = if has_pbits(m) {
        raw * 2 + pbit(m, x, e)
    } else {
        raw
    };
    expand(v, precision(m, c))
}

pub open spec fn index_mode_set(m: nat, x: nat) -> bool {
    m == 4 && field_at(x, 2, 1) == 1
}

/// Modes 4 and 5 carry two index streams, the first 31 bits long; with the index mode
/// bit clear (and always in mode 5) colors read the first one and alpha the second.
pub open spec fn colors_read_first_stream(m: nat, x: nat) -> bool {
    m == 5 || (m == 4 && !index_mode_set(m, x))
}

/// Bits of index data: everything from the index start to the end of the block.
pub open spec fn index_data_bits(m: nat) -> nat {
    (127 - m - index_start(m)) as nat
}

pub open spec fn first_stream(m: nat, x: nat) -> nat {
    if m == 4 || m == 5 {
        field_at(x, index_start(m), 31)
    } else {
        field_at(x, index_start(m), index_data_bits(m))
    }
}

pub open spec fn second_stream(m: nat, x: nat) -> nat {
    field_at(x, index_start(m) + 31, (index_data_bits(m) - 31) as nat)
}

pub open spec fn color_stream(m: nat, x: nat) -> nat {
    if m == 4 && index_mode_set(m, x) {
        second_stream(m, x)
    } else {
        first_stream(m, x)
    }
}

pub open spec fn alpha_stream(m: nat, x: nat) -> nat {
    if colors_read_first_stream(m, x) {
        second_stream(m, x)
    } else {
        first_stream(m, x)
    }
}

pub open spec fn color_index_bits(m: nat, x: nat) -> nat {
    if m == 0 || m == 1 {
        3
    } else if m == 6 {
        4
    } else if index_mode_set(m, x) {
        3
    } else {
        2
    }
}

pub open spec fn alpha_index_bits(m: nat, x: nat) -> nat {
    if m == 4 && !index_mode_set(m, x) {
        3
    } else {
        2
    }
}

pub open spec fn rotation_of(m: nat, x: nat) -> nat {
    if m == 4 || m == 5 {
        field_at(x, 0, 2)
    } else {
        0
    }
}

/// Channel `c` of texel `t` before the rotation of modes 4 and 5 is applied.
#[verifier::opaque]
pub open spec fn texel_value(m: nat, x: nat, t: nat, c: nat) -> nat {
    let ns = subset_count(m);
    let p = partition_of(m, x);
    let s = subset_of(ns, p, t);
    let cb = color_index_bits(m, x);
    let ci = texel_index(color_stream(m, x), cb, ns, p, t);
    if c < 3 || m == 6 || m == 7 {
        interp(endpoint(m, x, 2 * s, c), endpoint(m, x, 2 * s + 1, c), weight(cb, ci))
    } else if m <= 3 {
        255
    } else {
        let ab = alpha_index_bits(m, x);
        let ai = texel_index(alpha_stream(m, x), ab, 1, 0, t);
        interp(endpoint(m, x, 0, 3), endpoint(m, x, 1, 3), weight(ab, ai))
    }
}

/// Channel `c` (red, green, blue, alpha) of texel `t` (row-major) of the decoded tile;
/// an invalid block decodes to transparent black.
pub open spec fn decoded_texel(block: u128, t: nat, c: nat) -> nat {
    let m = block_mode(block);
    if m >= 8 {
        0
    } else {
        let x = payload(block);
        texel_value(m, x, t, rotated_channel(rotation_of(m, x), c))
    }
}

/// The mode of `block`: its number of trailing zero bits, 8 when its low byte is zero.
fn mode_of(block: u128) -> (m: u32)
    ensures
        m == block_mode(block),
{
    let mut rest = block;
    let mut m: u32 = 0;
    proof {
        lemma2_to64();
    }
    while m < 8 && rest % 2 == 0
        invariant
            m <= 8,
            rest as nat == block as nat / pow2(m as nat),
            first_set_bit(block as nat, 0) == first_set_bit(block as nat, m as nat),
        decreases 8 - m,
    {
        proof {
            lemma_div_pow2_step(block as nat, m as nat, 1);
            lemma2_to64();
        }
        rest = rest / 2;
        m = m + 1;
    }
    m
}

/// Widens the `k`-bit value `v` to 8 bits by replicating its high bits below it.
fn expand_bits(v: u8, k: u32) -> (r: u8)
    requires
        4 <= k <= 8,
        v < pow2(k as nat),
    ensures
        r == expand(v as nat, k as nat),
{
    let shift: u32 = 8 - k;
    let m = 1u32 << shift;
    proof {
        lemma2_to64();
        vstd::bits::lemma_u32_shl_is_mul(1, shift);
        assert(v as nat * m as nat <= 255 && m == pow2(shift as nat)) by {
            if k == 4 {
                assert(m == 16 && v < 16);
            } else if k == 5 {
                assert(m == 8 && v < 32);
            } else if k == 6 {
                assert(m == 4 && v < 64);
            } else if k == 7 {
                assert(m == 2 && v < 128);
            } else {
                assert(m == 1);
            }
        }
    }
    let s: u32 = (v as u32) * m;
    let t: u32 = s >> k;
    proof {
        vstd::bits::lemma_u32_shr_is_div(s, k);
        assert(s + t <= 255) by {
            if k == 4 {
                assert(m == 16 && v < 16 && pow2(4) == 16 && t == s / 16);
            } else if k == 5 {
                assert(m == 8 && v < 32 && pow2(5) == 32 && t == s / 32);
            } else if k == 6 {
                assert(m == 4 && v < 64 && pow2(6) == 64 && t == s / 64);
            } else if k == 7 {
                assert(m == 2 && v < 128 && pow2(7) == 128 && t == s / 128);
            } else {
                assert(m == 1 && pow2(8) == 256 && t == s / 256);
            }
        }
        reveal(expand);
    }
    (s + t) as u8
}

/// Whether the mode appends a p-bit to each endpoint (shared per subset in mode 1).
fn has_pbits_exec(m: u32) -> (r: bool)
    ensures
        r == has_pbits(m as nat),
{
    m == 0 || m == 1 || m == 3 || m == 6 || m == 7
}

fn precision_exec(m: u32, c: u32) -> (r: u32)
    requires
        m < 8,
    ensures
        r == precision(m as nat, c as nat),
        4 <= r <= 8,
{
    let pb: u32 = if has_pbits_exec(m) { 1 } else { 0 };
    let aw: u32 = if m == 4 { 6 } else if m == 5 { 8 } else if m == 6 { 7 } else if m == 7 { 5 } else { 0 };
    let cw: u32 = if m == 0 { 4 } else if m == 1 { 6 } else if m == 3 || m == 5 || m == 6 { 7 } else { 5 };
    if c == 3 && aw > 0 {
        aw + pb
    } else {
        cw + pb
    }
}

/// Channel `c` of endpoint `e`, from its stored value and p-bit.
fn endpoint_channel(raw: u8, p: u8, m: u32, c: u32, Ghost(x): Ghost<nat>, Ghost(e): Ghost<nat>) -> (r: u8)
    requires
        m < 8,
        c < 4,
        c == 3 ==> m >= 4,
        raw == raw_endpoint(m as nat, x, e, c as nat),
        has_pbits(m as nat) ==> p == pbit(m as nat, x, e),
    ensures
        r == endpoint(m as nat, x, e, c as nat),
{
    proof {
        reveal(endpoint);
        lemma2_to64();
        let mm = m as nat;
        let cc = c as nat;
        let n = 2 * subset_count(mm);
        let w = if c < 3 { color_width(mm) } else { alpha_width(mm) };
        if c < 3 {
            lemma_field_at_bound(x, header_bits(mm) + (cc * n + e) * color_width(mm), w);
        } else {
            lemma_field_at_bound(x, header_bits(mm) + 3 * n * color_width(mm) + e * alpha_width(mm), w);
        }
        if m == 1 {
            lemma_field_at_bound(x, pbit_start(m as nat) + e / 2, 1);
        } else {
            lemma_field_at_bound(x, pbit_start(m as nat) + e, 1);
        }
        vstd::arithmetic::power2::lemma_pow2_adds(w, 1);
    }
    let k = precision_exec(m, c);
    let v: u8 = if has_pbits_exec(m) { raw * 2 + p } else { raw };
    expand_bits(v, k)
}

/// The rendering parameters of a mode 0 block.
fn params0(block: u128) -> (r: TileParams)
    requires
        block_mode(block) == 0,
    ensures
        r.describes(0, payload(block)),
        2 <= r.color_bits <= 4,
        r.separate_alpha ==> 2 <= r.alpha_bits <= 4,
{
    let d = Block0::decode(block);
    let ghost x = payload(block);
    proof {
        lemma2_to64();
        lemma_field_at_bound(x, 0, 4);
    }
    let mut eps = [[0u8; 4]; 6];
    let mut e: usize = 0;
    while e < 6
        invariant
            e <= 6,
            x == payload(block),
            block_mode(block) == 0,
            d.partition as nat == field_at(x, 0, 4),
            forall|i: int| 0 <= i < 6 ==> d.r[i] as nat == field_at(x, (4 + 4 * i) as nat, 4),
            forall|i: int| 0 <= i < 6 ==> d.g[i] as nat == field_at(x, (28 + 4 * i) as nat, 4),
            forall|i: int| 0 <= i < 6 ==> d.b[i] as nat == field_at(x, (52 + 4 * i) as nat, 4),
            forall|i: int| 0 <= i < 6 ==> d.p[i] as nat == field_at(x, (76 + 1 * i) as nat, 1),
            d.index_data as nat == field_at(x, 82, 45),
            forall|j: int, c: int|
                0 <= j < e && 0 <= c < 3 ==> eps[j][c] == endpoint(0, x, j as nat, c as nat),
        decreases 6 - e,
    {
        eps[e] = [endpoint_channel(d.r[e], d.p[e], 0, 0, Ghost(x), Ghost(e as nat)), endpoint_channel(d.g[e], d.p[e], 0, 1, Ghost(x), Ghost(e as nat)), endpoint_channel(d.b[e], d.p[e], 0, 2, Ghost(x), Ghost(e as nat)), 255];
        e = e + 1;
    }
    TileParams {
        subsets: 3,
        partition: d.partition as usize,
        endpoints: eps,
        color_stream: d.index_data as u128,
        color_bits: 3,
        alpha_stream: 0,
        alpha_bits: 2,
        opaque: true,
        separate_alpha: false,
        rotation: Rotation::No,
    }
}

/// The rendering parameters of a mode 1 block.
fn params1(block: u128) -> (r: TileParams)
    requires
        block_mode(block) == 1,
    ensures
        r.describes(1, payload(block)),
        2 <= r.color_bits <= 4,
        r.separate_alpha ==> 2 <= r.alpha_bits <= 4,
{
    let d = Block1::decode(block);
    let ghost x = payload(block);
    proof {
        lemma2_to64();
        lemma_field_at_bound(x, 0, 6);
    }
    let mut eps = [[0u8; 4]; 6];
    let mut e: usize = 0;
    while e < 4
        invariant
            e <= 4,
            x == payload(block),
            block_mode(block) == 1,
            d.partition as nat == field_at(x, 0, 6),
            forall|i: int| 0 <= i < 4 ==> d.r[i] as nat == field_at(x, (6 + 6 * i) as nat, 6),
            forall|i: int| 0 <= i < 4 ==> d.g[i] as nat == field_at(x, (30 + 6 * i) as nat, 6),
            forall|i: int| 0 <= i < 4 ==> d.b[i] as nat == field_at(x, (54 + 6 * i) as nat, 6),
            forall|i: int| 0 <= i < 2 ==> d.p[i] as nat == field_at(x, (78 + 1 * i) as nat, 1),
            d.index_data as nat == field_at(x, 80, 46),
            forall|j: int, c: int|
                0 <= j < e && 0 <= c < 3 ==> eps[j][c] == endpoint(1, x, j as nat, c as nat),
        decreases 4 - e,
    {
        eps[e] = [endpoint_channel(d.r[e], d.p[e / 2], 1, 0, Ghost(x), Ghost(e as nat)), endpoint_channel(d.g[e], d.p[e / 2], 1, 1, Ghost(x), Ghost(e as nat)), endpoint_channel(d.b[e], d.p[e / 2], 1, 2, Ghost(x), Ghost(e as nat)), 255];
        e = e + 1;
    }
    TileParams {
        subsets: 2,
        partition: d.partition as usize,
        endpoints: eps,
        color_stream: d.index_data as u128,
        color_bits: 3,
        alpha_stream: 0,
        alpha_bits: 2,
        opaque: true,
        separate_alpha: false,
        rotation: Rotation::No,
    }
}

/// The rendering parameters of a mode 2 block.
fn params2(block: u128) -> (r: TileParams)
    requires
        block_mode(block) == 2,
    ensures
        r.describes(2, payload(block)),
        2 <= r.color_bits <= 4,
        r.separate_alpha ==> 2 <= r.alpha_bits <= 4,
{
    let d = Block2::decode(block);
    let ghost x = payload(block);
    proof {
        lemma2_to64();
        lemma_field_at_bound(x, 0, 6);
    }
    let mut eps = [[0u8; 4]; 6];
    let mut e: usize = 0;
    while e < 6
        invariant
            e <= 6,
            x == payload(block),
            block_mode(block) == 2,
            d.partition as nat == field_at(x, 0, 6),
            forall|i: int| 0 <= i < 6 ==> d.r[i] as nat == field_at(x, (6 + 5 * i) as nat, 5),
            forall|i: int| 0 <= i < 6 ==> d.g[i] as nat == field_at(x, (36 + 5 * i) as nat, 5),
            forall|i: int| 0 <= i < 6 ==> d.b[i] as nat == field_at(x, (66 + 5 * i) as nat, 5),
            d.index_data as nat == field_at(x, 96, 29),
            forall|j: int, c: int|
                0 <= j < e && 0 <= c < 3 ==> eps[j][c] == endpoint(2, x, j as nat, c as nat),
        decreases 6 - e,
    {
        eps[e] = [endpoint_channel(d.r[e], 0, 2, 0, Ghost(x), Ghost(e as nat)), endpoint_channel(d.g[e], 0, 2, 1, Ghost(x), Ghost(e as nat)), endpoint_channel(d.b[e], 0, 2, 2, Ghost(x), Ghost(e as nat)), 255];
        e = e + 1;
    }
    TileParams {
        subsets: 3,
        partition: d.partition as usize,
        endpoints: eps,
        color_stream: d.index_data as u128,
        color_bits: 2,
        alpha_stream: 0,
        alpha_bits: 2,
        opaque: true,
        separate_alpha: false,
        rotation: Rotation::No,
    }
}

/// The rendering parameters of a mode 3 block.
fn params3(block: u128) -> (r: TileParams)
    requires
        block_mode(block) == 3,
    ensures
        r.describes(3, payload(block)),
        2 <= r.color_bits <= 4,
        r.separate_alpha ==> 2 <= r.alpha_bits <= 4,
{
    let d = Block3::decode(block);
    let ghost x = payload(block);
    proof {
        lemma2_to64();
        lemma_field_at_bound(x, 0, 6);
    }
    let mut eps = [[0u8; 4]; 6];
    let mut e: usize = 0;
    while e < 4
        invariant
            e <= 4,
            x == payload(block),
            block_mode(block) == 3,
            d.partition as nat == field_at(x, 0, 6),
            forall|i: int| 0 <= i < 4 ==> d.r[i] as nat == field_at(x, (6 + 7 * i) as nat, 7),
            forall|i: int| 0 <= i < 4 ==> d.g[i] as nat == field_at(x, (34 + 7 * i) as nat, 7),
            forall|i: int| 0 <= i < 4 ==> d.b[i] as nat == field_at(x, (62 + 7 * i) as nat, 7),
            forall|i: int| 0 <= i < 4 ==> d.p[i] as nat == field_at(x, (90 + 1 * i) as nat, 1),
            d.index_data as nat == field_at(x, 94, 30),
            forall|j: int, c: int|
                0 <= j < e && 0 <= c < 3 ==> eps[j][c] == endpoint(3, x, j as nat, c as nat),
        decreases 4 - e,
    {
        eps[e] = [endpoint_channel(d.r[e], d.p[e], 3, 0, Ghost(x), Ghost(e as nat)), endpoint_channel(d.g[e], d.p[e], 3, 1, Ghost(x), Ghost(e as nat)), endpoint_channel(d.b[e], d.p[e], 3, 2, Ghost(x), Ghost(e as nat)), 255];
        e = e + 1;
    }
    TileParams {
        subsets: 2,
        partition: d.partition as usize,
        endpoints: eps,
        color_stream: d.index_data as u128,
        color_bits: 2,
        alpha_stream: 0,
        alpha_bits: 2,
        opaque: true,
        separate_alpha: false,
        rotation: Rotation::No,
    }
}

/// The rendering parameters of a mode 4 block.
fn params4(block: u128) -> (r: TileParams)
    requires
        block_mode(block) == 4,
    ensures
        r.describes(4, payload(block)),
        2 <= r.color_bits <= 4,
        r.separate_alpha ==> 2 <= r.alpha_bits <= 4,
{
    let d = Block4::decode(block);
    let ghost x = payload(block);
    proof {
        lemma2_to64();
    }
    let mut eps = [[0u8; 4]; 6];
    let mut e: usize = 0;
    while e < 2
        invariant
            e <= 2,
            x == payload(block),
            block_mode(block) == 4,
            d.rot.code() == field_at(x, 0, 2),
            d.idx_mode == (field_at(x, 2, 1) == 1),
            forall|i: int| 0 <= i < 2 ==> d.r[i] as nat == field_at(x, (3 + 5 * i) as nat, 5),
            forall|i: int| 0 <= i < 2 ==> d.g[i] as nat == field_at(x, (13 + 5 * i) as nat, 5),
            forall|i: int| 0 <= i < 2 ==> d.b[i] as nat == field_at(x, (23 + 5 * i) as nat, 5),
            forall|i: int| 0 <= i < 2 ==> d.a[i] as nat == field_at(x, (33 + 6 * i) as nat, 6),
            d.index_data0 as nat == field_at(x, 45, 31),
            d.index_data1 as nat == field_at(x, 76, 47),
            forall|j: int, c: int|
                0 <= j < e && 0 <= c < 4 ==> eps[j][c] == endpoint(4, x, j as nat, c as nat),
        decreases 2 - e,
    {
        eps[e] = [endpoint_channel(d.r[e], 0, 4, 0, Ghost(x), Ghost(e as nat)), endpoint_channel(d.g[e], 0, 4, 1, Ghost(x), Ghost(e as nat)), endpoint_channel(d.b[e], 0, 4, 2, Ghost(x), Ghost(e as nat)), endpoint_channel(d.a[e], 0, 4, 3, Ghost(x), Ghost(e as nat))];
        e = e + 1;
    }
    TileParams {
        subsets: 1,
        partition: 0,
        endpoints: eps,
        color_stream: if d.idx_mode { d.index_data1 as u128 } else { d.index_data0 as u128 },
        color_bits: if d.idx_mode { 3 } else { 2 },
        alpha_stream: if d.idx_mode { d.index_data0 as u128 } else { d.index_data1 as u128 },
        alpha_bits: if d.idx_mode { 2 } else { 3 },
        opaque: false,
        separate_alpha: true,
        rotation: d.rot,
    }
}

/// The rendering parameters of a mode 5 block.
fn params5(block: u128) -> (r: TileParams)
    requires
        block_mode(block) == 5,
    ensures
        r.describes(5, payload(block)),
        2 <= r.color_bits <= 4,
        r.separate_alpha ==> 2 <= r.alpha_bits <= 4,
{
    let d = Block5::decode(block);
    let ghost x = payload(block);
    proof {
        lemma2_to64();
    }
    let mut eps = [[0u8; 4]; 6];
    let mut e: usize = 0;
    while e < 2
        invariant
            e <= 2,
            x == payload(block),
            block_mode(block) == 5,
            d.rot.code() == field_at(x, 0, 2),
            forall|i: int| 0 <= i < 2 ==> d.r[i] as nat == field_at(x, (2 + 7 * i) as nat, 7),
            forall|i: int| 0 <= i < 2 ==> d.g[i] as nat == field_at(x, (16 + 7 * i) as nat, 7),
            forall|i: int| 0 <= i < 2 ==> d.b[i] as nat == field_at(x, (30 + 7 * i) as nat, 7),
            forall|i: int| 0 <= i < 2 ==> d.a[i] as nat == field_at(x, (44 + 8 * i) as nat, 8),
            d.colors as nat == field_at(x, 60, 31),
            d.alpha as nat == field_at(x, 91, 31),
            forall|j: int, c: int|
                0 <= j < e && 0 <= c < 4 ==> eps[j][c] == endpoint(5, x, j as nat, c as nat),
        decreases 2 - e,
    {
        eps[e] = [endpoint_channel(d.r[e], 0, 5, 0, Ghost(x), Ghost(e as nat)), endpoint_channel(d.g[e], 0, 5, 1, Ghost(x), Ghost(e as nat)), endpoint_channel(d.b[e], 0, 5, 2, Ghost(x), Ghost(e as nat)), endpoint_channel(d.a[e], 0, 5, 3, Ghost(x), Ghost(e as nat))];
        e = e + 1;
    }
    TileParams {
        subsets: 1,
        partition: 0,
        endpoints: eps,
        color_stream: d.colors as u128,
        color_bits: 2,
        alpha_stream: d.alpha as u128,
        alpha_bits: 2,
        opaque: false,
        separate_alpha: true,
        rotation: d.rot,
    }
}

/// The rendering parameters of a mode 6 block.
fn params6(block: u128) -> (r: TileParams)
    requires
        block_mode(block) == 6,
    ensures
        r.describes(6, payload(block)),
        2 <= r.color_bits <= 4,
        r.separate_alpha ==> 2 <= r.alpha_bits <= 4,
{
    let d = Block6::decode(block);
    let ghost x = payload(block);
    proof {
        lemma2_to64();
    }
    let mut eps = [[0u8; 4]; 6];
    let mut e: usize = 0;
    while e < 2
        invariant
            e <= 2,
            x == payload(block),
            block_mode(block) == 6,
            forall|i: int| 0 <= i < 2 ==> d.r[i] as nat == field_at(x, (0 + 7 * i) as nat, 7),
            forall|i: int| 0 <= i < 2 ==> d.g[i] as nat == field_at(x, (14 + 7 * i) as nat, 7),
            forall|i: int| 0 <= i < 2 ==> d.b[i] as nat == field_at(x, (28 + 7 * i) as nat, 7),
            forall|i: int| 0 <= i < 2 ==> d.a[i] as nat == field_at(x, (42 + 7 * i) as nat, 7),
            forall|i: int| 0 <= i < 2 ==> d.p[i] as nat == field_at(x, (56 + 1 * i) as nat, 1),
            d.index_data as nat == field_at(x, 58, 63),
            forall|j: int, c: int|
                0 <= j < e && 0 <= c < 4 ==> eps[j][c] == endpoint(6, x, j as nat, c as nat),
        decreases 2 - e,
    {
        eps[e] = [endpoint_channel(d.r[e], d.p[e], 6, 0, Ghost(x), Ghost(e as nat)), endpoint_channel(d.g[e], d.p[e], 6, 1, Ghost(x), Ghost(e as nat)), endpoint_channel(d.b[e], d.p[e], 6, 2, Ghost(x), Ghost(e as nat)), endpoint_channel(d.a[e], d.p[e], 6, 3, Ghost(x), Ghost(e as nat))];
        e = e + 1;
    }
    TileParams {
        subsets: 1,
        partition: 0,
        endpoints: eps,
        color_stream: d.index_data as u128,
        color_bits: 4,
        alpha_stream: 0,
        alpha_bits: 2,
        opaque: false,
        separate_alpha: false,
        rotation: Rotation::No,
    }
}

/// The rendering parameters of a mode 7 block.
fn params7(block: u128) -> (r: TileParams)
    requires
        block_mode(block) == 7,
    ensures
        r.describes(7, payload(block)),
        2 <= r.color_bits <= 4,
        r.separate_alpha ==> 2 <= r.alpha_bits <= 4,
{
    let d = Block7::decode(block);
    let ghost x = payload(block);
    proof {
        lemma2_to64();
        lemma_field_at_bound(x, 0, 6);
    }
    let mut eps = [[0u8; 4]; 6];
    let mut e: usize = 0;
    while e < 4
        invariant
            e <= 4,
            x == payload(block),
            block_mode(block) == 7,
            d.partition as nat == field_at(x, 0, 6),
            forall|i: int| 0 <= i < 4 ==> d.r[i] as nat == field_at(x, (6 + 5 * i) as nat, 5),
            forall|i: int| 0 <= i < 4 ==> d.g[i] as nat == field_at(x, (26 + 5 * i) as nat, 5),
            forall|i: int| 0 <= i < 4 ==> d.b[i] as nat == field_at(x, (46 + 5 * i) as nat, 5),
            forall|i: int| 0 <= i < 4 ==> d.a[i] as nat == field_at(x, (66 + 5 * i) as nat, 5),
            forall|i: int| 0 <= i < 4 ==> d.p[i] as nat == field_at(x, (86 + 1 * i) as nat, 1),
            d.index_data as nat == field_at(x, 90, 30),
            forall|j: int, c: int|
                0 <= j < e && 0 <= c < 4 ==> eps[j][c] == endpoint(7, x, j as nat, c as nat),
        decreases 4 - e,
    {
        eps[e] = [endpoint_channel(d.r[e], d.p[e], 7, 0, Ghost(x), Ghost(e as nat)), endpoint_channel(d.g[e], d.p[e], 7, 1, Ghost(x), Ghost(e as nat)), endpoint_channel(d.b[e], d.p[e], 7, 2, Ghost(x), Ghost(e as nat)), endpoint_channel(d.a[e], d.p[e], 7, 3, Ghost(x), Ghost(e as nat))];
        e = e + 1;
    }
    TileParams {
        subsets: 2,
        partition: d.partition as usize,
        endpoints: eps,
        color_stream: d.index_data as u128,
        color_bits: 2,
        alpha_stream: 0,
        alpha_bits: 2,
        opaque: false,
        separate_alpha: false,
        rotation: Rotation::No,
    }
}

/// Decodes one 128-bit block into its 4x4 tile of texels, rows top to bottom.
pub fn decode_bc7_block(block: u128) -> (r: [[Rgba; 4]; 4])
    ensures
        forall|y: int, x: int, c: int|
            0 <= y < 4 && 0 <= x < 4 && 0 <= c < 4 ==> r[y][x].0[c] == decoded_texel(
                block,
                (4 * y + x) as nat,
                c as nat,
            ),
{
    let mode = mode_of(block);
    if mode >= 8 {
        let z = Rgba([0u8; 4]);
        return [[z; 4]; 4];
    }
    let p = if mode == 0 {
        params0(block)
    } else if mode == 1 {
        params1(block)
    } else if mode == 2 {
        params2(block)
    } else if mode == 3 {
        params3(block)
    } else if mode == 4 {
        params4(block)
    } else if mode == 5 {
        params5(block)
    } else if mode == 6 {
        params6(block)
    } else {
        params7(block)
    };
    let tx = render(&p, Ghost(mode as nat), Ghost(payload(block)));
    [
        [tx[0], tx[1], tx[2], tx[3]],
        [tx[4], tx[5], tx[6], tx[7]],
        [tx[8], tx[9], tx[10], tx[11]],
        [tx[12], tx[13], tx[14], tx[15]],
    ]
}

/// A block of a valid mode fills exactly 128 bits, and in modes 0 to 3 every texel is
/// opaque.
pub proof fn lemma_decoded_alpha(block: u128, t: nat)
    requires
        block_mode(block) < 8,
    ensures
        total_width(layout(block_mode(block))) + block_mode(block) + 1 == 128,
        block_mode(block) <= 3 ==> decoded_texel(block, t, 3) == 255,
{
    lemma_layout_total(block_mode(block));
    reveal(texel_value);
}

/// In modes 0 to 3 each color channel of a texel interpolates the two endpoints of the
/// texel's subset with the weight of its anchor-adjusted index.
pub proof fn lemma_decoded_color(block: u128, t: nat, c: nat)
    requires
        block_mode(block) <= 3,
        c < 3,
    ensures
        ({
            let m = block_mode(block);
            let x = payload(block);
            let ns = subset_count(m);
            let p = partition_of(m, x);
            let s = subset_of(ns, p, t);
            let cb = color_index_bits(m, x);
            decoded_texel(block, t, c) == interp(
                endpoint(m, x, 2 * s, c),
                endpoint(m, x, 2 * s + 1, c),
                weight(cb, texel_index(color_stream(m, x), cb, ns, p, t)),
            )
        }),
{
    reveal(texel_value);
}

} // verus!
