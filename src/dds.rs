//! The DDS header, DX10 extension included, for BC7 surfaces.
use crate::le::{le_bytes, le_u32_at, lemma_le_round_trip, push_u32_le, read_u32_le};
use crate::{align_up, aligned};
use vstd::prelude::*;

verus! {

/// "DDS " read as a little-endian number.
pub const DDS_MAGIC: u32 = 0x2053_4444;

/// Size of the header structure that follows the magic.
pub const DDS_HEADER_SIZE: u32 = 124;

/// Size of the pixel format structure.
pub const PIXEL_FORMAT_SIZE: u32 = 32;

/// "DX10" read as a little-endian number.
pub const FOURCC_DX10: u32 = 0x3031_5844;

pub const DXGI_FORMAT_BC7_UNORM: u32 = 98;

/// CAPS | HEIGHT | WIDTH | PIXELFORMAT | MIPMAPCOUNT | LINEARSIZE.
pub const HEADER_FLAGS: u32 = 0x000A_1007;

/// COMPLEX | MIPMAP | TEXTURE.
pub const HEADER_CAPS: u32 = 0x0040_1008;

/// The pixel format flag that says a FourCC is present.
pub const PIXEL_FORMAT_FOURCC: u32 = 0x4;

/// Bytes of magic, header and DX10 extension.
pub const DDS_TOTAL_BYTES: usize = 148;

#[derive(Debug, PartialEq, Eq, Clone, Copy, Structural)]
pub enum ParseError {
    /// The data ends inside the header.
    UnexpectedEof,
    WrongDDSMagic,
    WrongDDSHeaderSize,
    WrongPixelFormatSize,
    UnknownFourCC,
    UnknownFormat,
    UnknownResourceDimension,
    UnknownAlphaMode,
}

#[derive(Debug, PartialEq, Eq, Clone, Copy, Structural)]
pub enum FourCC {
    DX10,
}

#[derive(Debug, PartialEq, Eq, Clone, Copy, Structural)]
pub struct PixelFormat {
    pub four_cc: FourCC,
}

#[derive(Debug, PartialEq, Eq, Clone, Copy, Structural)]
pub enum ResourceDimension {
    Texture1D,
    Texture2D,
    Texture3D,
}

#[derive(Debug, PartialEq, Eq, Clone, Copy, Structural)]
pub enum AlphaMode {
    Unknown,
    Straight,
    Premultiplied,
    Opaque,
    Custom,
}

#[derive(Debug, PartialEq, Eq, Clone, Copy, Structural)]
pub struct Dx10Header {
    pub resource_dimension: ResourceDimension,
    pub alpha_mode: AlphaMode,
}

#[derive(Debug, PartialEq, Eq, Clone, Copy, Structural)]
pub struct DdsHeader {
    pub height: u32,
    pub width: u32,
    pub pitch_or_linear_size: u32,
    pub depth: u32,
    pub mipmap_count: u32,
    pub pixel_format: PixelFormat,
    pub dx10_header: Option<Dx10Header>,
}

impl ResourceDimension {
    pub open spec fn code(self) -> u32 {
        match self {
            ResourceDimension::Texture1D => 2,
            ResourceDimension::Texture2D => 3,
            ResourceDimension::Texture3D => 4,
        }
    }

    pub fn to_u32(&self) -> (r: u32)
        ensures
            r == self.code(),
    {
        match self {
            ResourceDimension::Texture1D => 2,
            ResourceDimension::Texture2D => 3,
            ResourceDimension::Texture3D => 4,
        }
    }
}

impl AlphaMode {
    pub open spec fn code(self) -> u32 {
        match self {
            AlphaMode::Unknown => 0,
            AlphaMode::Straight => 1,
            AlphaMode::Premultiplied => 2,
            AlphaMode::Opaque => 3,
            AlphaMode::Custom => 4,
        }
    }

    pub fn to_u32(&self) -> (r: u32)
        ensures
            r == self.code(),
    {
        match self {
            AlphaMode::Unknown => 0,
            AlphaMode::Straight => 1,
            AlphaMode::Premultiplied => 2,
            AlphaMode::Opaque => 3,
            AlphaMode::Custom => 4,
        }
    }
}

/// Number of halvings (rounding down) that take `n` to zero: its bit length.
pub open spec fn bit_length(n: nat) -> nat
    decreases n,
{
    if n == 0 {
        0
    } else {
        1 + bit_length(n / 2)
    }
}

/// Number of mipmap levels from `width` x `height` down to 1x1, each level halving both
/// sides (rounding down, never below 1).
pub open spec fn mipmap_levels(width: nat, height: nat) -> nat {
    if width >= height {
        bit_length(width)
    } else {
        bit_length(height)
    }
}

pub fn calculate_mipmap_count(width: u32, height: u32) -> (r: u32)
    ensures
        r == mipmap_levels(width as nat, height as nat),
{
    let mut n = if width >= height {
        width
    } else {
        height
    };
    let mut count: u32 = 0;
    proof {
        lemma_bit_length_u32(n);
    }
    while n > 0
        invariant
            count + bit_length(n as nat) == mipmap_levels(width as nat, height as nat),
            count <= 32 - bit_length(n as nat),
            bit_length(n as nat) <= 32,
        decreases n,
    {
        proof {
            lemma_bit_length_u32(n);
        }
        n = n / 2;
        count = count + 1;
    }
    count
}

proof fn lemma_bit_length_u32(n: u32)
    ensures
        bit_length(n as nat) <= 32,
{
    vstd::arithmetic::power2::lemma2_to64();
    lemma_bit_length_bound(n as nat, 32);
}

proof fn lemma_bit_length_bound(n: nat, k: nat)
    requires
        n < vstd::arithmetic::power2::pow2(k),
    ensures
        bit_length(n) <= k,
    decreases k,
{
    if n > 0 {
        if k > 0 {
            vstd::arithmetic::power2::lemma_pow2_unfold(k);
            lemma_bit_length_bound(n / 2, (k - 1) as nat);
        } else {
            vstd::arithmetic::power2::lemma2_to64();
        }
    }
}

/// The header of a BC7 texture of the given size: DX10 extension, 2D, straight alpha, and
/// a full mipmap chain.
pub fn create_dds_header(width: u32, height: u32) -> (r: DdsHeader)
    requires
        width + 3 <= u32::MAX,
        height + 3 <= u32::MAX,
        aligned(width as nat, 4) * aligned(height as nat, 4) <= u32::MAX,
    ensures
        r.width == width,
        r.height == height,
        r.mipmap_count == mipmap_levels(width as nat, height as nat),
        r.pitch_or_linear_size == aligned(width as nat, 4) * aligned(height as nat, 4),
        r.depth == 0,
        r.dx10_header == Some(
            Dx10Header { resource_dimension: ResourceDimension::Texture2D, alpha_mode: AlphaMode::Straight },
        ),
{
    let mipmap_count = calculate_mipmap_count(width, height);
    let aw = align_up::<4>(width);
    let ah = align_up::<4>(height);
    DdsHeader {
        height,
        width,
        pitch_or_linear_size: aw * ah,
        depth: 0,
        mipmap_count,
        pixel_format: PixelFormat { four_cc: FourCC::DX10 },
        dx10_header: Some(
            Dx10Header { resource_dimension: ResourceDimension::Texture2D, alpha_mode: AlphaMode::Straight },
        ),
    }
}

/// The 32-bit words of a written header, in file order.
pub open spec fn header_words(h: DdsHeader) -> Seq<u32> {
    let base = seq![DDS_MAGIC, DDS_HEADER_SIZE, HEADER_FLAGS, h.height, h.width, h.pitch_or_linear_size, h.depth, h.mipmap_count]
        + Seq::new(11, |_i: int| 0u32) + seq![PIXEL_FORMAT_SIZE, PIXEL_FORMAT_FOURCC, FOURCC_DX10, 0u32, 0u32, 0u32, 0u32, 0u32]
        + seq![HEADER_CAPS, 0u32, 0u32, 0u32, 0u32];
    match h.dx10_header {
        Some(x) => base + seq![DXGI_FORMAT_BC7_UNORM, x.resource_dimension.code(), 0u32, 1u32, x.alpha_mode.code()],
        None => base,
    }
}

/// The little-endian bytes of a sequence of words.
pub open spec fn words_le(ws: Seq<u32>) -> Seq<u8> {
    Seq::new(4 * ws.len(), |j: int| le_bytes(ws[j / 4])[j % 4])
}

/// Writing a word after others puts its bytes after theirs.
pub proof fn lemma_words_le_push(ws: Seq<u32>, w: u32)
    ensures
        words_le(ws.push(w)) == words_le(ws) + le_bytes(w),
{
    assert forall|j: int| 0 <= j < 4 * ws.len() + 4 implies #[trigger] words_le(ws.push(w))[j] == (words_le(ws) + le_bytes(w))[j] by {
        if j < 4 * ws.len() {
            assert(j / 4 < ws.len()) by (nonlinear_arith)
                requires 0 <= j < 4 * ws.len();
        } else {
            assert(j / 4 == ws.len() && j % 4 == j - 4 * ws.len()) by (nonlinear_arith)
                requires 4 * ws.len() <= j < 4 * ws.len() + 4;
        }
    }
    assert(words_le(ws.push(w)) =~= words_le(ws) + le_bytes(w));
}

/// The word at index `i` reads back from the bytes.
pub proof fn lemma_words_le_read(ws: Seq<u32>, i: nat)
    requires
        i < ws.len(),
    ensures
        le_u32_at(words_le(ws), 4 * i) == ws[i as int],
        words_le(ws).len() == 4 * ws.len(),
{
    let b = words_le(ws);
    lemma_le_round_trip(ws[i as int]);
    assert forall|k: int| 0 <= k < 4 implies b[4 * i + k] == le_bytes(ws[i as int])[k] by {
        assert((4 * i + k) / 4 == i && (4 * i + k) % 4 == k) by (nonlinear_arith)
            requires 0 <= k < 4;
    }
}

impl DdsHeader {
    /// The header's bytes: magic, header structure and, when present, the DX10 extension.
    pub fn write(&self) -> (r: Vec<u8>)
        ensures
            r@ == words_le(header_words(*self)),
    {
        let mut out: Vec<u8> = Vec::new();
        let mut words: Vec<u32> = Vec::new();
        words.push(DDS_MAGIC);
        words.push(DDS_HEADER_SIZE);
        words.push(HEADER_FLAGS);
        words.push(self.height);
        words.push(self.width);
        words.push(self.pitch_or_linear_size);
        words.push(self.depth);
        words.push(self.mipmap_count);
        let mut k: usize = 0;
        proof {
            assert(words@.subrange(0, 8) =~= seq![DDS_MAGIC, DDS_HEADER_SIZE, HEADER_FLAGS, self.height, self.width, self.pitch_or_linear_size, self.depth, self.mipmap_count]);
        }
        while k < 11
            invariant
                k <= 11,
                words@.len() == 8 + k,
                forall|j: int| 8 <= j < 8 + k ==> words@[j] == 0,
                words@.subrange(0, 8) == seq![DDS_MAGIC, DDS_HEADER_SIZE, HEADER_FLAGS, self.height, self.width, self.pitch_or_linear_size, self.depth, self.mipmap_count],
            decreases 11 - k,
        {
            let ghost prev = words@;
            words.push(0);
            k = k + 1;
            proof {
                assert(words@.subrange(0, 8) =~= prev.subrange(0, 8));
            }
        }
        words.push(PIXEL_FORMAT_SIZE);
        words.push(PIXEL_FORMAT_FOURCC);
        words.push(FOURCC_DX10);
        words.push(0);
        words.push(0);
        words.push(0);
        words.push(0);
        words.push(0);
        words.push(HEADER_CAPS);
        words.push(0);
        words.push(0);
        words.push(0);
        words.push(0);
        match &self.dx10_header {
            Some(x) => {
                words.push(DXGI_FORMAT_BC7_UNORM);
                words.push(x.resource_dimension.to_u32());
                words.push(0);
                words.push(1);
                words.push(x.alpha_mode.to_u32());
            },
            None => {},
        }
        proof {
            assert(words@ =~= header_words(*self));
        }
        let mut i: usize = 0;
        while i < words.len()
            invariant
                i <= words@.len(),
                words@ == header_words(*self),
                out@ == words_le(words@.subrange(0, i as int)),
            decreases words@.len() - i,
        {
            proof {
                lemma_words_le_push(words@.subrange(0, i as int), words@[i as int]);
                assert(words@.subrange(0, i as int).push(words@[i as int]) =~= words@.subrange(0, i + 1));
            }
            push_u32_le(&mut out, words[i]);
            i = i + 1;
        }
        proof {
            assert(words@.subrange(0, words@.len() as int) =~= words@);
        }
        out
    }
}

/// The first error a reader meets in `d`, taking the fields in file order; none when the
/// whole header, DX10 extension included, is there and valid.
pub open spec fn dds_error(d: Seq<u8>) -> Option<ParseError> {
    if d.len() < 4 {
        Some(ParseError::UnexpectedEof)
    } else if le_u32_at(d, 0) != DDS_MAGIC {
        Some(ParseError::WrongDDSMagic)
    } else if d.len() < 8 {
        Some(ParseError::UnexpectedEof)
    } else if le_u32_at(d, 4) != DDS_HEADER_SIZE {
        Some(ParseError::WrongDDSHeaderSize)
    } else if d.len() < 80 {
        Some(ParseError::UnexpectedEof)
    } else if le_u32_at(d, 76) != PIXEL_FORMAT_SIZE {
        Some(ParseError::WrongPixelFormatSize)
    } else if d.len() < 88 {
        Some(ParseError::UnexpectedEof)
    } else if le_u32_at(d, 84) != FOURCC_DX10 {
        Some(ParseError::UnknownFourCC)
    } else if d.len() < 132 {
        Some(ParseError::UnexpectedEof)
    } else if le_u32_at(d, 128) != DXGI_FORMAT_BC7_UNORM {
        Some(ParseError::UnknownFormat)
    } else if d.len() < 136 {
        Some(ParseError::UnexpectedEof)
    } else if !(2 <= le_u32_at(d, 132) <= 4) {
        Some(ParseError::UnknownResourceDimension)
    } else if d.len() < 148 {
        Some(ParseError::UnexpectedEof)
    } else if !(le_u32_at(d, 144) <= 4) {
        Some(ParseError::UnknownAlphaMode)
    } else {
        None
    }
}

fn word(d: &[u8], pos: usize) -> (r: u32)
    requires
        pos + 4 <= d@.len(),
    ensures
        r == le_u32_at(d@, pos as nat),
{
    read_u32_le(d, pos).unwrap()
}

/// Parses a DDS header with its DX10 extension; on success also returns the data that
/// follows it.
pub fn parse_dds(d: &[u8]) -> (r: Result<(DdsHeader, Vec<u8>), ParseError>)
    ensures
        r is Err <==> dds_error(d@) is Some,
        r matches Err(e) ==> dds_error(d@) == Some(e),
        r matches Ok((h, rest)) ==> {
            &&& h.height == le_u32_at(d@, 12)
            &&& h.width == le_u32_at(d@, 16)
            &&& h.pitch_or_linear_size == le_u32_at(d@, 20)
            &&& h.depth == le_u32_at(d@, 24)
            &&& h.mipmap_count == le_u32_at(d@, 28)
            &&& h.dx10_header matches Some(x) && x.resource_dimension.code() == le_u32_at(d@, 132)
                && x.alpha_mode.code() == le_u32_at(d@, 144)
            &&& rest@ == d@.subrange(148, d@.len() as int)
        },
{
    let n = d.len();
    if n < 4 {
        return Err(ParseError::UnexpectedEof);
    }
    if word(d, 0) != DDS_MAGIC {
        return Err(ParseError::WrongDDSMagic);
    }
    if n < 8 {
        return Err(ParseError::UnexpectedEof);
    }
    if word(d, 4) != DDS_HEADER_SIZE {
        return Err(ParseError::WrongDDSHeaderSize);
    }
    if n < 80 {
        return Err(ParseError::UnexpectedEof);
    }
    let height = word(d, 12);
    let width = word(d, 16);
    let pitch_or_linear_size = word(d, 20);
    let depth = word(d, 24);
    let mipmap_count = word(d, 28);
    if word(d, 76) != PIXEL_FORMAT_SIZE {
        return Err(ParseError::WrongPixelFormatSize);
    }
    if n < 88 {
        return Err(ParseError::UnexpectedEof);
    }
    if word(d, 84) != FOURCC_DX10 {
        return Err(ParseError::UnknownFourCC);
    }
    if n < 132 {
        return Err(ParseError::UnexpectedEof);
    }
    if word(d, 128) != DXGI_FORMAT_BC7_UNORM {
        return Err(ParseError::UnknownFormat);
    }
    if n < 136 {
        return Err(ParseError::UnexpectedEof);
    }
    let resource_dimension = match word(d, 132) {
        2 => ResourceDimension::Texture1D,
        3 => ResourceDimension::Texture2D,
        4 => ResourceDimension::Texture3D,
        _ => return Err(ParseError::UnknownResourceDimension),
    };
    if n < 148 {
        return Err(ParseError::UnexpectedEof);
    }
    let alpha_mode = match word(d, 144) {
        0 => AlphaMode::Unknown,
        1 => AlphaMode::Straight,
        2 => AlphaMode::Premultiplied,
        3 => AlphaMode::Opaque,
        4 => AlphaMode::Custom,
        _ => return Err(ParseError::UnknownAlphaMode),
    };
    let mut rest: Vec<u8> = Vec::new();
    let mut i: usize = DDS_TOTAL_BYTES;
    while i < n
        invariant
            DDS_TOTAL_BYTES <= i <= n,
            n == d@.len(),
            rest@ == d@.subrange(148, i as int),
        decreases n - i,
    {
        rest.push(d[i]);
        i = i + 1;
        proof {
            assert(rest@ =~= d@.subrange(148, i as int));
        }
    }
    let header = DdsHeader {
        height,
        width,
        pitch_or_linear_size,
        depth,
        mipmap_count,
        pixel_format: PixelFormat { four_cc: FourCC::DX10 },
        dx10_header: Some(Dx10Header { resource_dimension, alpha_mode }),
    };
    Ok((header, rest))
}

/// Parsing what writing a header with a DX10 extension gives returns its width, height,
/// mipmap count, resource dimension and alpha mode.
pub proof fn lemma_dds_write_parse(h: DdsHeader)
    requires
        h.dx10_header is Some,
    ensures
        dds_error(words_le(header_words(h))) is None,
        le_u32_at(words_le(header_words(h)), 12) == h.height,
        le_u32_at(words_le(header_words(h)), 16) == h.width,
        le_u32_at(words_le(header_words(h)), 28) == h.mipmap_count,
        le_u32_at(words_le(header_words(h)), 132) == h.dx10_header->Some_0.resource_dimension.code(),
        le_u32_at(words_le(header_words(h)), 144) == h.dx10_header->Some_0.alpha_mode.code(),
        words_le(header_words(h)).len() == 148,
{
    let ws = header_words(h);
    assert(ws.len() == 37);
    lemma_words_le_read(ws, 0);
    lemma_words_le_read(ws, 1);
    lemma_words_le_read(ws, 3);
    lemma_words_le_read(ws, 4);
    lemma_words_le_read(ws, 7);
    lemma_words_le_read(ws, 19);
    lemma_words_le_read(ws, 21);
    lemma_words_le_read(ws, 32);
    lemma_words_le_read(ws, 33);
    lemma_words_le_read(ws, 36);
    assert(ws[0] == DDS_MAGIC && ws[1] == DDS_HEADER_SIZE && ws[3] == h.height && ws[4] == h.width);
    assert(ws[7] == h.mipmap_count && ws[19] == PIXEL_FORMAT_SIZE && ws[21] == FOURCC_DX10);
    assert(ws[32] == DXGI_FORMAT_BC7_UNORM);
    assert(ws[33] == h.dx10_header->Some_0.resource_dimension.code());
    assert(ws[36] == h.dx10_header->Some_0.alpha_mode.code());
}

proof fn lemma_bit_length_pow2(a: nat)
    ensures
        bit_length(vstd::arithmetic::power2::pow2(a)) == a + 1,
    decreases a,
{
    vstd::arithmetic::power2::lemma_pow2_pos(a);
    if a == 0 {
        vstd::arithmetic::power2::lemma2_to64();
        assert(bit_length(0) == 0);
    } else {
        vstd::arithmetic::power2::lemma_pow2_unfold(a);
        lemma_bit_length_pow2((a - 1) as nat);
    }
}

/// Halving a positive side one time fewer than its bit length leaves 1: the chain of
/// mipmaps ends at 1x1.
pub proof fn lemma_halvings_reach_one(n: nat)
    requires
        n >= 1,
    ensures
        bit_length(n) >= 1,
        n / vstd::arithmetic::power2::pow2((bit_length(n) - 1) as nat) == 1,
    decreases n,
{
    vstd::arithmetic::power2::lemma2_to64();
    if n >= 2 {
        lemma_halvings_reach_one(n / 2);
        let k = (bit_length(n / 2) - 1) as nat;
        vstd::arithmetic::power2::lemma_pow2_pos(k);
        vstd::arithmetic::power2::lemma_pow2_adds(1, k);
        vstd::arithmetic::div_mod::lemma_div_denominator(n as int, 2, vstd::arithmetic::power2::pow2(k) as int);
        assert(bit_length(n) - 1 == k + 1);
        assert(vstd::arithmetic::power2::pow2((bit_length(n) - 1) as nat) == 2 * vstd::arithmetic::power2::pow2(k));
        assert((n / 2) / vstd::arithmetic::power2::pow2(k) == 1);
        assert(n / (2 * vstd::arithmetic::power2::pow2(k)) == 1);
    } else {
        assert(n == 1);
        assert(bit_length(0) == 0);
        assert(bit_length(1) == 1);
        assert(vstd::arithmetic::power2::pow2(0) == 1);
        assert(1nat / 1 == 1);
    }
}

/// For sides that are powers of two, the mipmap count is the larger base-2 logarithm plus
/// one.
pub proof fn lemma_mipmap_count_pow2(a: nat, b: nat)
    ensures
        mipmap_levels(vstd::arithmetic::power2::pow2(a), vstd::arithmetic::power2::pow2(b)) == (if a >= b {
            a
        } else {
            b
        }) + 1,
{
    lemma_bit_length_pow2(a);
    lemma_bit_length_pow2(b);
    if a > b {
        vstd::arithmetic::power2::lemma_pow2_strictly_increases(b, a);
    } else if b > a {
        vstd::arithmetic::power2::lemma_pow2_strictly_increases(a, b);
    }
}

/// Number of levels in the chain that starts at `w` x `h` and halves both sides (rounding
/// down, never below 1) until it reaches 1x1, both ends included.
pub open spec fn chain_levels(w: nat, h: nat) -> nat
    decreases if w >= h { w } else { h },
{
    if w <= 1 && h <= 1 {
        1
    } else {
        let nw = if w / 2 >= 1 { w / 2 } else { 1 };
        let nh = if h / 2 >= 1 { h / 2 } else { 1 };
        1 + chain_levels(nw, nh)
    }
}

/// For sides of at least 1, the mipmap count is the number of levels of the halving chain
/// down to 1x1.
pub proof fn lemma_mipmap_count_is_chain(w: nat, h: nat)
    requires
        w >= 1,
        h >= 1,
    ensures
        mipmap_levels(w, h) == chain_levels(w, h),
    decreases if w >= h { w } else { h },
{
    let m = if w >= h { w } else { h };
    if w <= 1 && h <= 1 {
        assert(bit_length(0) == 0);
        assert(bit_length(1) == 1);
    } else {
        let nw = if w / 2 >= 1 { w / 2 } else { 1 };
        let nh = if h / 2 >= 1 { h / 2 } else { 1 };
        lemma_mipmap_count_is_chain(nw, nh);
        let nm = if nw >= nh { nw } else { nh };
        assert(nm == m / 2);
        assert(bit_length(m) == 1 + bit_length(m / 2));
    }
}

} // verus!
