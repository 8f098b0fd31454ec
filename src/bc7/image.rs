//! Whole images: BC7 data decoded tile by tile into RGBA surfaces.
use crate::bc7::encode::{all_transparent, encode_bc7_block, placeholder_fields, uses_transparency, TRANSPARENT_BLOCK};
use crate::bc7::encoded;
use crate::bc7::tile::{decode_bc7_block, decoded_texel};
use crate::surface::{lemma_pixel_index, Rgba, Surface};
use crate::{align_up, aligned};
use vstd::bytes::{spec_u128_from_le_bytes, spec_u128_to_le_bytes, u128_from_le_bytes, u128_to_le_bytes};
use vstd::prelude::*;
use vstd::slice::slice_subrange;

verus! {

/// Tiles per row of an image `w` pixels wide.
pub open spec fn blocks_across(w: nat) -> nat {
    aligned(w, 4) / 4
}

/// The `k`-th 16-byte block of `d`, read as a little-endian number.
pub open spec fn block_value(d: Seq<u8>, k: nat) -> u128 {
    spec_u128_from_le_bytes(d.subrange((16 * k) as int, (16 * k + 16) as int))
}

/// Channel `c` of pixel (`x`, `y`) of the image that `d` encodes: tiles come row-major;
/// a pixel whose tile lies past the end of the data stays zero.
pub open spec fn decoded_pixel(d: Seq<u8>, w: nat, x: nat, y: nat, c: nat) -> nat {
    let k = (y / 4) * blocks_across(w) + x / 4;
    if k < d.len() / 16 {
        decoded_texel(block_value(d, k), 4 * (y % 4) + x % 4, c)
    } else {
        0
    }
}

/// The tiles of tile row `by`: decoded where the data holds them, left empty past its end.
fn decode_tile_row(data: &[u8], by: u64, bw: u64) -> (r: Vec<[[Rgba; 4]; 4]>)
    requires
        by < 0x4000_0000,
        bw < 0x4000_0000,
    ensures
        r@.len() == bw,
        forall|bx: int, dy: int, dx: int, c: int|
            0 <= bx < bw && 0 <= dy < 4 && 0 <= dx < 4 && 0 <= c < 4 && by * bw + bx < data@.len() / 16 ==> #[trigger] r@[bx][dy][dx].0[c] == decoded_texel(block_value(data@, (by * bw + bx) as nat), (4 * dy + dx) as nat, c as nat),
{
    let dl = data.len();
    let n = (dl / 16) as u64;
    let mut row: Vec<[[Rgba; 4]; 4]> = Vec::new();
    let mut bx: u64 = 0;
    while bx < bw
        invariant
            bx <= bw,
            by < 0x4000_0000,
            bw < 0x4000_0000,
            n == data@.len() / 16,
            dl == data@.len(),
            row@.len() == bx,
            forall|j: int, dy: int, dx: int, c: int|
                0 <= j < bx && 0 <= dy < 4 && 0 <= dx < 4 && 0 <= c < 4 && by * bw + j < data@.len() / 16 ==> #[trigger] row@[j][dy][dx].0[c] == decoded_texel(block_value(data@, (by * bw + j) as nat), (4 * dy + dx) as nat, c as nat),
        decreases bw - bx,
    {
        assert(by * bw <= 0x4000_0000 * 0x4000_0000) by (nonlinear_arith)
            requires by < 0x4000_0000, bw < 0x4000_0000;
        let k = by * bw + bx;
        if k < n {
            assert(16 * k + 16 <= data@.len()) by (nonlinear_arith)
                requires k < n, n == data@.len() / 16;
            let start = (16 * k) as usize;
            let bytes = slice_subrange(data, start, start + 16);
            let tile = decode_bc7_block(u128_from_le_bytes(bytes));
            row.push(tile);
        } else {
            row.push([[Rgba([0u8; 4]); 4]; 4]);
        }
        bx = bx + 1;
    }
    row
}

/// Decodes `width` x `height` pixels of BC7 data; tiles past the end of the data leave
/// their pixels zero.
pub fn decode_bc7(data: &[u8], width: u32, height: u32) -> (r: Surface)
    requires
        width + 3 <= u32::MAX,
        height + 3 <= u32::MAX,
        4 * width * height <= usize::MAX,
    ensures
        r.width == width,
        r.height == height,
        r.wf(),
        forall|x: nat, y: nat, c: nat|
            x < width && y < height && c < 4 ==> #[trigger] r.at(x, y, c) == decoded_pixel(data@, width as nat, x, y, c),
{
    let bw = (align_up::<4>(width) / 4) as u64;
    let n = (data.len() / 16) as u64;
    let mut pixels: Vec<u8> = Vec::new();
    let mut row: Vec<[[Rgba; 4]; 4]> = Vec::new();
    let mut y: u32 = 0;
    while y < height
        invariant
            y <= height,
            width + 3 <= u32::MAX,
            4 * width * height <= usize::MAX,
            bw == blocks_across(width as nat),
            bw < 0x4000_0000,
            n == data@.len() / 16,
            pixels@.len() == 4 * (y * width),
            y % 4 != 0 ==> row@.len() == bw,
            y % 4 != 0 ==> forall|bx: int, dy: int, dx: int, c: int|
                0 <= bx < bw && 0 <= dy < 4 && 0 <= dx < 4 && 0 <= c < 4 && (y / 4) * bw + bx < data@.len() / 16 ==> #[trigger] row@[bx][dy][dx].0[c] == decoded_texel(block_value(data@, ((y / 4) * bw + bx) as nat), (4 * dy + dx) as nat, c as nat),
            forall|xx: nat, yy: nat, c: nat|
                xx < width && yy < y && c < 4 ==> #[trigger] pixels@[4 * (yy * width + xx) + c] == decoded_pixel(data@, width as nat, xx, yy, c),
        decreases height - y,
    {
        if y % 4 == 0 {
            row = decode_tile_row(data, (y / 4) as u64, bw);
        }
        let ghost row_start = pixels@.len();
        let mut x: u32 = 0;
        while x < width
            invariant
                x <= width,
                y < height,
                width + 3 <= u32::MAX,
                4 * width * height <= usize::MAX,
                bw == blocks_across(width as nat),
                    n == data@.len() / 16,
                row@.len() == bw,
                forall|bx: int, dy: int, dx: int, c: int|
                    0 <= bx < bw && 0 <= dy < 4 && 0 <= dx < 4 && 0 <= c < 4 && (y / 4) * bw + bx < data@.len() / 16 ==> #[trigger] row@[bx][dy][dx].0[c] == decoded_texel(block_value(data@, ((y / 4) * bw + bx) as nat), (4 * dy + dx) as nat, c as nat),
                pixels@.len() == 4 * (y * width + x),
                forall|xx: nat, yy: nat, c: nat|
                    ((yy < y && xx < width) || (yy == y && xx < x)) && c < 4 ==> #[trigger] pixels@[4 * (yy * width + xx) + c] == decoded_pixel(data@, width as nat, xx, yy, c),
            decreases width - x,
        {
            let bx = (x / 4) as u64;
            proof {
                lemma_pixel_index(x as nat, y as nat, width as nat, 0, height as nat);
                assert(bx < bw);
            }
            assert((y / 4) as u64 * bw <= 0x4000_0000 * 0x4000_0000) by (nonlinear_arith)
                requires y / 4 < 0x4000_0000, bw < 0x4000_0000;
            let k = (y / 4) as u64 * bw + bx;
            let ghost before = pixels@;
            if k < n {
                let t = row[bx as usize][(y % 4) as usize][(x % 4) as usize];
                pixels.push(t.0[0]);
                pixels.push(t.0[1]);
                pixels.push(t.0[2]);
                pixels.push(t.0[3]);
            } else {
                pixels.push(0);
                pixels.push(0);
                pixels.push(0);
                pixels.push(0);
            }
            proof {
                assert forall|xx: nat, yy: nat, c: nat|
                    ((yy < y && xx < width) || (yy == y && xx < x + 1)) && c < 4 implies #[trigger] pixels@[4 * (yy * width + xx) + c] == decoded_pixel(data@, width as nat, xx, yy, c) by {
                    if yy == y && xx == x {
                        assert(4 * (yy * width + xx) + c == before.len() + c);
                    } else {
                        assert(yy * width + xx < y * width + x) by (nonlinear_arith)
                            requires (yy < y && xx < width) || (yy == y && xx < x);
                        assert(pixels@[4 * (yy * width + xx) + c] == before[4 * (yy * width + xx) + c]);
                    }
                }
            }
            x = x + 1;
        }
        proof {
            assert((y + 1) * width == y * width + width) by (nonlinear_arith);
            assert((y + 1) % 4 != 0 ==> (y + 1) / 4 == y / 4);
        }
        y = y + 1;
    }
    proof {
        assert forall|x: nat, yy: nat, c: nat| x < width && yy < height && c < 4 implies #[trigger] pixels@[4 * (yy * width + x) + c] == decoded_pixel(data@, width as nat, x, yy, c) by {
        }
        assert(4 * (height * width) == 4 * width * height) by (nonlinear_arith);
    }
    Surface { width, height, pixels }
}

/// Alpha of the texel at (`dx`, `dy`) in tile (`bx`, `by`) of a `w` x `h` image; zero
/// outside the image.
pub open spec fn tile_alpha(px: Seq<u8>, w: nat, h: nat, bx: nat, by: nat, dx: nat, dy: nat) -> u8 {
    let x = 4 * bx + dx;
    let y = 4 * by + dy;
    if x < w && y < h {
        px[(4 * (y * w + x) + 3) as int]
    } else {
        0
    }
}

/// The block that the encoder emits for tile (`bx`, `by`).
pub open spec fn tile_code(px: Seq<u8>, w: nat, h: nat, bx: nat, by: nat) -> u128 {
    if forall|dx: nat, dy: nat| dx < 4 && dy < 4 ==> #[trigger] tile_alpha(px, w, h, bx, by, dx, dy) == 0 {
        TRANSPARENT_BLOCK
    } else if exists|dx: nat, dy: nat| dx < 4 && dy < 4 && #[trigger] tile_alpha(px, w, h, bx, by, dx, dy) != 255 {
        encoded(6, placeholder_fields(31)) as u128
    } else {
        encoded(6, placeholder_fields(127)) as u128
    }
}

/// The BC7 data of one image: the blocks of its tiles, row-major, 16 little-endian bytes
/// each.
pub open spec fn image_blocks(px: Seq<u8>, w: nat, h: nat) -> Seq<u8> {
    let bw = blocks_across(w);
    Seq::new(16 * bw * blocks_across(h), |j: int| spec_u128_to_le_bytes(tile_code(px, w, h, ((j / 16) % bw as int) as nat, ((j / 16) / bw as int) as nat))[j % 16])
}

/// Gathers tile (`bx`, `by`); texels outside the image stay zero.
fn gather_tile(img: &Surface, bx: u32, by: u32) -> (r: [[Rgba; 4]; 4])
    requires
        img.wf(),
        bx < 0x4000_0000,
        by < 0x4000_0000,
    ensures
        forall|dy: int, dx: int| 0 <= dy < 4 && 0 <= dx < 4 ==> #[trigger] r[dy][dx].0[3] == tile_alpha(img.pixels@, img.width as nat, img.height as nat, bx as nat, by as nat, dx as nat, dy as nat),
{
    let mut tile = [[Rgba([0u8; 4]); 4]; 4];
    let mut dy: u32 = 0;
    while dy < 4
        invariant
            dy <= 4,
            img.wf(),
            bx < 0x4000_0000,
            by < 0x4000_0000,
            forall|yy: int, xx: int| 0 <= yy < dy && 0 <= xx < 4 ==> #[trigger] tile[yy][xx].0[3] == tile_alpha(img.pixels@, img.width as nat, img.height as nat, bx as nat, by as nat, xx as nat, yy as nat),
        decreases 4 - dy,
    {
        let mut row = [Rgba([0u8; 4]); 4];
        let mut dx: u32 = 0;
        while dx < 4
            invariant
                dx <= 4,
                dy < 4,
                img.wf(),
                bx < 0x4000_0000,
                by < 0x4000_0000,
                forall|xx: int| 0 <= xx < dx ==> #[trigger] row[xx].0[3] == tile_alpha(img.pixels@, img.width as nat, img.height as nat, bx as nat, by as nat, xx as nat, dy as nat),
                forall|xx: int| dx <= xx < 4 ==> #[trigger] row[xx].0[3] == 0,
            decreases 4 - dx,
        {
            let x = 4 * bx + dx;
            let y = 4 * by + dy;
            if x < img.width && y < img.height {
                let pl = img.pixels.len();
                proof {
                    lemma_pixel_index(x as nat, y as nat, img.width as nat, 3, img.height as nat);
                    assert(y * img.width <= y * img.width + x);
                }
                let base = 4 * (y as usize * img.width as usize + x as usize);
                row[dx as usize] = Rgba([img.pixels[base], img.pixels[base + 1], img.pixels[base + 2], img.pixels[base + 3]]);
                assert(base + 3 == 4 * ((4 * by + dy) * img.width + (4 * bx + dx)) + 3);
            }
            dx = dx + 1;
        }
        tile[dy as usize] = row;
        dy = dy + 1;
    }
    tile
}

/// Encodes the tiles of one image, row-major, into BC7 blocks of 16 little-endian bytes.
pub fn encode_image(img: &Surface) -> (r: Vec<u8>)
    requires
        img.wf(),
        img.width + 3 <= u32::MAX,
        img.height + 3 <= u32::MAX,
        aligned(img.width as nat, 4) * aligned(img.height as nat, 4) <= usize::MAX,
    ensures
        r@ == image_blocks(img.pixels@, img.width as nat, img.height as nat),
{
    let bw = align_up::<4>(img.width) / 4;
    let bh = align_up::<4>(img.height) / 4;
    let ghost w = img.width as nat;
    let ghost h = img.height as nat;
    let ghost total = 16 * blocks_across(w) * blocks_across(h);
    let mut out: Vec<u8> = Vec::new();
    let mut by: u32 = 0;
    while by < bh
        invariant
            by <= bh,
            img.wf(),
            w == img.width,
            h == img.height,
            bw == blocks_across(w),
            bh == blocks_across(h),
            bw < 0x4000_0000,
            bh < 0x4000_0000,
            out@.len() == 16 * (by * bw),
            forall|j: int| 0 <= j < out@.len() ==> #[trigger] out@[j] == image_blocks(img.pixels@, w, h)[j],
        decreases bh - by,
    {
        let mut bx: u32 = 0;
        while bx < bw
            invariant
                bx <= bw,
                by < bh,
                img.wf(),
                w == img.width,
                h == img.height,
                bw == blocks_across(w),
                bh == blocks_across(h),
                bw < 0x4000_0000,
                bh < 0x4000_0000,
                out@.len() == 16 * (by * bw + bx),
                forall|j: int| 0 <= j < out@.len() ==> #[trigger] out@[j] == image_blocks(img.pixels@, w, h)[j],
            decreases bw - bx,
        {
            let tile = gather_tile(img, bx, by);
            let code = encode_bc7_block(tile);
            proof {
                let all0 = forall|dx: nat, dy: nat| dx < 4 && dy < 4 ==> #[trigger] tile_alpha(img.pixels@, w, h, bx as nat, by as nat, dx, dy) == 0;
                if all0 {
                    assert(all_transparent(tile)) by {
                        assert forall|y: int, x: int| 0 <= y < 4 && 0 <= x < 4 implies tile[y][x].0[3] == 0 by {
                            assert(tile_alpha(img.pixels@, w, h, bx as nat, by as nat, x as nat, y as nat) == 0);
                        }
                    }
                } else {
                    assert(!all_transparent(tile)) by {
                        let (dx, dy) = choose|dx: nat, dy: nat| !(dx < 4 && dy < 4 ==> #[trigger] tile_alpha(img.pixels@, w, h, bx as nat, by as nat, dx, dy) == 0);
                        assert(tile[dy as int][dx as int].0[3] != 0);
                    }
                }
                if uses_transparency(tile) {
                    let (y, x) = choose|y: int, x: int| 0 <= y < 4 && 0 <= x < 4 && tile[y][x].0[3] != 255;
                    assert(tile_alpha(img.pixels@, w, h, bx as nat, by as nat, x as nat, y as nat) != 255);
                } else {
                    assert forall|dx: nat, dy: nat| dx < 4 && dy < 4 implies #[trigger] tile_alpha(img.pixels@, w, h, bx as nat, by as nat, dx, dy) == 255 by {
                        assert(tile[dy as int][dx as int].0[3] == 255);
                    }
                }
                assert(code == tile_code(img.pixels@, w, h, bx as nat, by as nat));
            }
            let bytes = u128_to_le_bytes(code);
            let ghost before = out@;
            let ghost k = by * bw + bx;
            let mut i: usize = 0;
            while i < 16
                invariant
                    i <= 16,
                    bytes@ == spec_u128_to_le_bytes(code),
                    bytes@.len() == 16,
                    out@.len() == before.len() + i,
                    forall|j: int| 0 <= j < before.len() ==> #[trigger] out@[j] == before[j],
                    forall|j: int| 0 <= j < i ==> #[trigger] out@[before.len() + j] == bytes@[j],
                decreases 16 - i,
            {
                out.push(bytes[i]);
                i = i + 1;
            }
            proof {
                assert forall|j: int| 0 <= j < out@.len() implies #[trigger] out@[j] == image_blocks(img.pixels@, w, h)[j] by {
                    if j >= before.len() {
                        let q = j - before.len();
                        assert(out@[before.len() + q] == bytes@[q]);
                        assert(j / 16 == k && j % 16 == q) by (nonlinear_arith)
                            requires j == 16 * k + q, 0 <= q < 16;
                        assert(k % bw as int == bx && k / bw as int == by) by (nonlinear_arith)
                            requires k == by * bw + bx, bx < bw;
                        assert(k < bw * bh) by (nonlinear_arith)
                            requires k == by * bw + bx, bx < bw, by < bh;
                        assert(j < 16 * bw * bh) by (nonlinear_arith)
                            requires j == 16 * k + q, 0 <= q < 16, k < bw * bh;
                        assert(image_blocks(img.pixels@, w, h)[j] == spec_u128_to_le_bytes(tile_code(img.pixels@, w, h, bx as nat, by as nat))[q]);
                    }
                }
                assert(16 * (by * bw + bx) + 16 == 16 * (by * bw + (bx + 1)));
            }
            bx = bx + 1;
        }
        proof {
            assert(by * bw + bw == (by + 1) * bw) by (nonlinear_arith);
        }
        by = by + 1;
    }
    proof {
        assert(16 * (bh * bw) == 16 * blocks_across(w) * blocks_across(h)) by (nonlinear_arith)
            requires bw == blocks_across(w), bh == blocks_across(h);
        assert(out@ =~= image_blocks(img.pixels@, w, h));
    }
    out
}

/// Relies on `image::imageops::resize` with `FilterType::CatmullRom`: an `nw` x `nh` RGBA
/// buffer. Its pixels come from floating-point arithmetic and are left unstated.
#[verifier::external_body]
fn resize_catmull_rom(img: &Surface, nw: u32, nh: u32) -> (r: Surface)
    requires
        img.wf(),
        4 * nw * nh <= usize::MAX,
    ensures
        r.width == nw,
        r.height == nh,
        r.wf(),
{
    let src = image::RgbaImage::from_raw(img.width, img.height, img.pixels.clone()).unwrap();
    let out = image::imageops::resize(&src, nw, nh, image::imageops::FilterType::CatmullRom);
    Surface { width: nw, height: nh, pixels: out.into_raw() }
}

/// The next mipmap side: half, rounded down, but at least 1.
pub open spec fn halve(n: nat) -> nat {
    if n / 2 >= 1 {
        n / 2
    } else {
        1
    }
}

/// `levels` lead from a `w` x `h` image down to `cw` x `ch`: each halves the sides of the
/// one before it, and none follows a 1x1 level.
pub open spec fn mip_path(levels: Seq<Surface>, w: nat, h: nat, cw: nat, ch: nat) -> bool
    decreases levels.len(),
{
    if levels.len() == 0 {
        w == cw && h == ch
    } else {
        &&& !(w == 1 && h == 1)
        &&& levels[0].width == halve(w)
        &&& levels[0].height == halve(h)
        &&& mip_path(levels.drop_first(), halve(w), halve(h), cw, ch)
    }
}

/// `levels` are the mipmaps of a `w` x `h` image, down to 1x1 and no further: none at all
/// for a 1x1 image.
pub open spec fn mip_sizes_ok(levels: Seq<Surface>, w: nat, h: nat) -> bool {
    &&& mip_path(levels, w, h, 1, 1)
    &&& forall|k: int| 0 <= k < levels.len() ==> (#[trigger] levels[k]).wf()
}

/// The BC7 data of the levels, one after the other.
pub open spec fn levels_blocks(levels: Seq<Surface>) -> Seq<u8>
    decreases levels.len(),
{
    if levels.len() == 0 {
        Seq::empty()
    } else {
        image_blocks(levels[0].pixels@, levels[0].width as nat, levels[0].height as nat) + levels_blocks(
            levels.drop_first(),
        )
    }
}

/// `bytes` are the BC7 data of `image` followed by those of some chain of its mipmaps down
/// to 1x1.
pub open spec fn is_bc7_with_mipmaps(bytes: Seq<u8>, image: Surface) -> bool {
    exists|levels: Seq<Surface>|
        #[trigger] mip_sizes_ok(levels, image.width as nat, image.height as nat) && bytes == image_blocks(
            image.pixels@,
            image.width as nat,
            image.height as nat,
        ) + levels_blocks(levels)
}

proof fn lemma_mip_path_push(levels: Seq<Surface>, w: nat, h: nat, cw: nat, ch: nat, s: Surface)
    requires
        mip_path(levels, w, h, cw, ch),
        !(cw == 1 && ch == 1),
        s.width == halve(cw),
        s.height == halve(ch),
    ensures
        mip_path(levels.push(s), w, h, halve(cw), halve(ch)),
    decreases levels.len(),
{
    if levels.len() == 0 {
        assert(levels.push(s).drop_first() =~= Seq::<Surface>::empty());
        assert(levels.push(s)[0] == s);
        assert(mip_path(Seq::<Surface>::empty(), halve(w), halve(h), halve(cw), halve(ch)));
        assert(levels.push(s).len() == 1);
    } else {
        assert(levels.push(s).drop_first() =~= levels.drop_first().push(s));
        assert(levels.push(s)[0] == levels[0]);
        lemma_mip_path_push(levels.drop_first(), halve(w), halve(h), cw, ch, s);
        assert(levels.push(s).len() > 0);
    }
}

/// The sides along a mipmap path stay within the first level's (or are 1).
proof fn lemma_mip_path_small(levels: Seq<Surface>, w: nat, h: nat, cw: nat, ch: nat, bw: nat, bh: nat)
    requires
        mip_path(levels, w, h, cw, ch),
        w <= bw || w == 1,
        h <= bh || h == 1,
    ensures
        forall|k: int| 0 <= k < levels.len() ==> (#[trigger] levels[k]).width <= bw || levels[k].width == 1,
        forall|k: int| 0 <= k < levels.len() ==> (#[trigger] levels[k]).height <= bh || levels[k].height == 1,
    decreases levels.len(),
{
    if levels.len() > 0 {
        lemma_mip_path_small(levels.drop_first(), halve(w), halve(h), cw, ch, bw, bh);
        assert forall|k: int| 0 <= k < levels.len() implies (#[trigger] levels[k]).width <= bw || levels[k].width == 1 by {
            if k > 0 {
                assert(levels[k] == levels.drop_first()[k - 1]);
            }
        }
        assert forall|k: int| 0 <= k < levels.len() implies (#[trigger] levels[k]).height <= bh || levels[k].height == 1 by {
            if k > 0 {
                assert(levels[k] == levels.drop_first()[k - 1]);
            }
        }
    }
}

proof fn lemma_levels_blocks_push(levels: Seq<Surface>, s: Surface)
    ensures
        levels_blocks(levels.push(s)) == levels_blocks(levels) + image_blocks(s.pixels@, s.width as nat, s.height as nat),
    decreases levels.len(),
{
    let b = image_blocks(s.pixels@, s.width as nat, s.height as nat);
    if levels.len() == 0 {
        assert(levels.push(s).drop_first() =~= Seq::<Surface>::empty());
        assert(levels.push(s)[0] == s);
        assert(levels_blocks(Seq::<Surface>::empty()) == Seq::<u8>::empty());
        assert(levels_blocks(levels.push(s)) =~= levels_blocks(levels) + b);
    } else {
        assert(levels.push(s).drop_first() =~= levels.drop_first().push(s));
        assert(levels.push(s)[0] == levels[0]);
        lemma_levels_blocks_push(levels.drop_first(), s);
        let l0 = levels[0];
        assert(levels_blocks(levels.push(s)) =~= levels_blocks(levels) + b);
    }
}

/// The BC7 data of an image followed by that of its mipmaps, which the caller resampled.
pub fn encode_levels(image: &Surface, levels: &Vec<Surface>) -> (r: Vec<u8>)
    requires
        image.wf(),
        image.width + 3 <= u32::MAX,
        image.height + 3 <= u32::MAX,
        16 * (image.width + 4) * (image.height + 4) <= usize::MAX,
        mip_sizes_ok(levels@, image.width as nat, image.height as nat),
    ensures
        r@ == image_blocks(image.pixels@, image.width as nat, image.height as nat) + levels_blocks(levels@),
{
    proof {
        lemma_mip_bounds(image.width as nat, image.height as nat, image.width as nat, image.height as nat);
        lemma_mip_path_small(levels@, image.width as nat, image.height as nat, 1, 1, image.width as nat, image.height as nat);
    }
    let mut res = encode_image(image);
    let ghost first = res@;
    let mut k: usize = 0;
    while k < levels.len()
        invariant
            k <= levels@.len(),
            16 * (image.width + 4) * (image.height + 4) <= usize::MAX,
            image.width + 3 <= u32::MAX,
            image.height + 3 <= u32::MAX,
            mip_sizes_ok(levels@, image.width as nat, image.height as nat),
            forall|j: int| 0 <= j < levels@.len() ==> (#[trigger] levels@[j]).width <= image.width || levels@[j].width == 1,
            forall|j: int| 0 <= j < levels@.len() ==> (#[trigger] levels@[j]).height <= image.height || levels@[j].height == 1,
            first == image_blocks(image.pixels@, image.width as nat, image.height as nat),
            res@ == first + levels_blocks(levels@.take(k as int)),
        decreases levels@.len() - k,
    {
        let lv = &levels[k];
        proof {
            assert(levels@[k as int].wf());
            lemma_mip_bounds(lv.width as nat, lv.height as nat, image.width as nat, image.height as nat);
        }
        let mut enc = encode_image(lv);
        proof {
            lemma_levels_blocks_push(levels@.take(k as int), *lv);
            assert(levels@.take(k as int).push(*lv) =~= levels@.take(k + 1));
        }
        res.append(&mut enc);
        k = k + 1;
    }
    proof {
        assert(levels@.take(levels@.len() as int) =~= levels@);
    }
    res
}

/// Encodes an image and its mipmaps, each resampled from the image with a Catmull-Rom
/// filter: every level halves the sides of the one before, down to 1x1 and no further.
pub fn encode_bc7(image: Surface) -> (r: Vec<u8>)
    requires
        image.wf(),
        image.width + 3 <= u32::MAX,
        image.height + 3 <= u32::MAX,
        16 * (image.width + 4) * (image.height + 4) <= usize::MAX,
    ensures
        is_bc7_with_mipmaps(r@, image),
{
    let ghost w0 = image.width as nat;
    let ghost h0 = image.height as nat;
    let mut levels: Vec<Surface> = Vec::new();
    let mut w = image.width;
    let mut h = image.height;
    while !(w == 1 && h == 1)
        invariant
            image.wf(),
            w0 == image.width,
            h0 == image.height,
            16 * (image.width + 4) * (image.height + 4) <= usize::MAX,
            w <= image.width || w == 1,
            h <= image.height || h == 1,
            mip_path(levels@, w0, h0, w as nat, h as nat),
            forall|k: int| 0 <= k < levels@.len() ==> (#[trigger] levels@[k]).wf(),
        decreases (if w >= h { w as int } else { h as int }) + if w == 0 || h == 0 { 2int } else { 0int },
    {
        let nw = if w / 2 >= 1 { w / 2 } else { 1 };
        let nh = if h / 2 >= 1 { h / 2 } else { 1 };
        proof {
            lemma_mip_bounds(nw as nat, nh as nat, image.width as nat, image.height as nat);
        }
        let level = resize_catmull_rom(&image, nw, nh);
        proof {
            lemma_mip_path_push(levels@, w0, h0, w as nat, h as nat, level);
        }
        levels.push(level);
        w = nw;
        h = nh;
    }
    let r = encode_levels(&image, &levels);
    proof {
        assert(mip_sizes_ok(levels@, w0, h0));
    }
    r
}

/// A side rounded up to a multiple of 4 grows by at most 3.
proof fn lemma_aligned4_bound(n: nat)
    ensures
        aligned(n, 4) <= n + 3,
{
    vstd::arithmetic::div_mod::lemma_fundamental_div_mod((n + 3) as int, 4);
}

/// A mipmap level no larger than the source image (or 1) fits where the source did.
proof fn lemma_mip_bounds(nw: nat, nh: nat, w: nat, h: nat)
    requires
        nw <= w || nw == 1,
        nh <= h || nh == 1,
        16 * (w + 4) * (h + 4) <= usize::MAX,
    ensures
        aligned(nw, 4) * aligned(nh, 4) <= usize::MAX,
        4 * nw * nh <= usize::MAX,
{
    lemma_aligned4_bound(nw);
    lemma_aligned4_bound(nh);
    let a = aligned(nw, 4);
    let c = aligned(nh, 4);
    assert(a * c <= 16 * (w + 4) * (h + 4)) by (nonlinear_arith)
        requires a <= w + 4, c <= h + 4;
    assert(4 * nw * nh <= 16 * (w + 4) * (h + 4)) by (nonlinear_arith)
        requires nw <= w + 4, nh <= h + 4;
}

} // verus!
