//! Editing archive entries: lookup by name, replacement from PNG, DDS or raw content,
//! metadata changes, and the content that extraction writes out.
use crate::bc7::image::{decode_bc7, decoded_pixel, encode_bc7, is_bc7_with_mipmaps};
use crate::dds::{create_dds_header, header_words, mipmap_levels, parse_dds, words_le, ParseError};
use crate::encoding::{Data, Entry, FileType};
use crate::surface::Surface;
use crate::{aligned, DecodedEntry, Format};
use vstd::prelude::*;
use vstd::string::StringSliceAdditionalSpecFns;

verus! {

#[derive(Debug, PartialEq, Eq, Clone, Copy, Structural)]
pub enum ReplaceError {
    /// No entry has the requested name.
    MissingEntry,
    /// Image content was given for an entry that is not an image.
    MismatchedType,
}

/// Whether two strings hold the same bytes.
fn same_text(a: &str, b: &str) -> (r: bool)
    ensures
        r == (a@ == b@),
{
    let x = a.as_bytes();
    let y = b.as_bytes();
    proof {
        vstd::utf8::encode_utf8_decode_utf8(a@);
        vstd::utf8::encode_utf8_decode_utf8(b@);
    }
    if x.len() != y.len() {
        return false;
    }
    let mut i: usize = 0;
    while i < x.len()
        invariant
            i <= x@.len(),
            x@.len() == y@.len(),
            x@ == a.spec_bytes(),
            y@ == b.spec_bytes(),
            x@.subrange(0, i as int) == y@.subrange(0, i as int),
        decreases x@.len() - i,
    {
        if x[i] != y[i] {
            proof {
                if a@ == b@ {
                    assert(x@ == y@);
                }
            }
            return false;
        }
        i = i + 1;
        proof {
            assert(x@.subrange(0, i as int) =~= y@.subrange(0, i as int));
        }
    }
    proof {
        assert(x@ =~= x@.subrange(0, i as int));
        assert(y@ =~= y@.subrange(0, i as int));
    }
    true
}

/// The index of the first entry named `name`; `MissingEntry` when no entry has it.
pub fn find_entry(entries: &[Entry], name: &str) -> (r: Result<usize, ReplaceError>)
    ensures
        r matches Ok(i) ==> i < entries@.len() && entries@[i as int].name@ == name@,
        r matches Ok(i) ==> forall|j: int| 0 <= j < i ==> entries@[j].name@ != name@,
        r is Err ==> r == Err::<usize, ReplaceError>(ReplaceError::MissingEntry),
        r is Err ==> forall|j: int| 0 <= j < entries@.len() ==> entries@[j].name@ != name@,
{
    let mut i: usize = 0;
    while i < entries.len()
        invariant
            i <= entries@.len(),
            forall|j: int| 0 <= j < i ==> entries@[j].name@ != name@,
        decreases entries@.len() - i,
    {
        if same_text(entries[i].name.as_str(), name) {
            return Ok(i);
        }
        i = i + 1;
    }
    Err(ReplaceError::MissingEntry)
}

/// Replaces an image entry by a new image: its size becomes the image's and its data the
/// image's BC7 encoding with mipmaps. Other entries are refused and left as they were.
pub fn replace_with_image(entry: &mut Entry, image: Surface) -> (r: Result<(), ReplaceError>)
    requires
        image.wf(),
        image.width + 3 <= u32::MAX,
        image.height + 3 <= u32::MAX,
        16 * (image.width + 4) * (image.height + 4) <= usize::MAX,
    ensures
        r is Err <==> old(entry).file_type == FileType::Sound,
        r is Err ==> *final(entry) == *old(entry),
        r is Ok ==> {
            &&& final(entry).name == old(entry).name
            &&& old(entry).file_type matches FileType::Image { unks, .. } && final(entry).file_type
                == (FileType::Image { width: image.width, height: image.height, unks })
            &&& final(entry).data matches Data::Raw(d) && is_bc7_with_mipmaps(d@, image)
        },
{
    let unks = match entry.file_type {
        FileType::Image { unks, .. } => unks,
        FileType::Sound => return Err(ReplaceError::MismatchedType),
    };
    let (w, h) = (image.width, image.height);
    let data = encode_bc7(image);
    entry.file_type = FileType::Image { width: w, height: h, unks };
    entry.data = Data::Raw(data);
    Ok(())
}

/// How a DDS replacement went.
#[derive(Debug, PartialEq, Eq, Clone, Copy)]
pub enum DdsReplacement {
    /// The header was stripped; says whether its mipmap chain reaches 1x1.
    Stripped { complete_mipmaps: bool },
    /// The header could not be parsed: the whole file became the entry's data.
    Unparsed(ParseError),
}

/// Replaces an entry by the content of a DDS file: with a valid header the entry must be
/// an image, takes the header's size, and gets the data after the header; otherwise the
/// whole file becomes its data.
pub fn replace_with_dds(entry: &mut Entry, file: &[u8]) -> (r: Result<DdsReplacement, ReplaceError>)
    ensures
        r == Err::<DdsReplacement, ReplaceError>(ReplaceError::MismatchedType) <==> crate::dds::dds_error(file@) is None
            && old(entry).file_type == FileType::Sound,
        r is Err ==> r == Err::<DdsReplacement, ReplaceError>(ReplaceError::MismatchedType),
        r is Err ==> *final(entry) == *old(entry),
        r matches Ok(DdsReplacement::Unparsed(e)) ==> {
            &&& crate::dds::dds_error(file@) == Some(e)
            &&& final(entry).data matches Data::Raw(d) && d@ == file@
            &&& final(entry).file_type == old(entry).file_type
        },
        r matches Ok(DdsReplacement::Stripped { complete_mipmaps }) ==> {
            let w = crate::le::le_u32_at(file@, 16);
            let h = crate::le::le_u32_at(file@, 12);
            &&& crate::dds::dds_error(file@) is None
            &&& old(entry).file_type matches FileType::Image { unks, .. } && final(entry).file_type
                == (FileType::Image { width: w as u32, height: h as u32, unks })
            &&& final(entry).data matches Data::Raw(d) && d@ == file@.subrange(148, file@.len() as int)
            &&& complete_mipmaps == (crate::le::le_u32_at(file@, 28) == mipmap_levels(w, h))
        },
        r is Ok ==> final(entry).name == old(entry).name,
{
    match parse_dds(file) {
        Ok((header, rest)) => {
            let unks = match entry.file_type {
                FileType::Image { unks, .. } => unks,
                FileType::Sound => return Err(ReplaceError::MismatchedType),
            };
            let complete_mipmaps = header.mipmap_count == crate::dds::calculate_mipmap_count(header.width, header.height);
            entry.file_type = FileType::Image { width: header.width, height: header.height, unks };
            entry.data = Data::Raw(rest);
            Ok(DdsReplacement::Stripped { complete_mipmaps })
        },
        Err(e) => {
            entry.data = Data::Raw(vstd::slice::slice_to_vec(file));
            Ok(DdsReplacement::Unparsed(e))
        },
    }
}

/// Replaces an entry's data by raw bytes, compressed when the archive is written.
pub fn replace_with_raw(entry: &mut Entry, data: Vec<u8>)
    ensures
        final(entry).name == old(entry).name,
        final(entry).file_type == old(entry).file_type,
        final(entry).data matches Data::Raw(d) && d@ == data@,
{
    entry.data = Data::Raw(data);
}

/// The offset pair (the second metadata pair) after an edit: each given coordinate
/// replaces the old one, then both are doubled when asked.
pub open spec fn edited_offset(old: (u32, u32), x: Option<u32>, y: Option<u32>, double: bool) -> (nat, nat) {
    let nx = match x {
        Some(v) => v,
        None => old.0,
    };
    let ny = match y {
        Some(v) => v,
        None => old.1,
    };
    if double {
        (2 * nx as nat, 2 * ny as nat)
    } else {
        (nx as nat, ny as nat)
    }
}

/// Width and height of an image entry.
pub open spec fn image_size(t: FileType) -> (u32, u32) {
    match t {
        FileType::Image { width, height, .. } => (width, height),
        FileType::Sound => (0, 0),
    }
}

/// Metadata pair `k` of an image entry.
pub open spec fn metadata(t: FileType, k: int) -> (u32, u32) {
    match t {
        FileType::Image { unks, .. } => unks[k],
        FileType::Sound => (0, 0),
    }
}

/// Sets the offset pair of an image entry; returns false, changing nothing, for any other
/// entry.
pub fn set_offset(entry: &mut Entry, offset_x: Option<u32>, offset_y: Option<u32>, double_offset: bool) -> (r: bool)
    requires
        old(entry).file_type matches FileType::Image { unks, .. } ==> {
            let e = edited_offset(unks[1], offset_x, offset_y, double_offset);
            e.0 <= u32::MAX && e.1 <= u32::MAX
        },
    ensures
        r == (old(entry).file_type is Image),
        !r ==> *final(entry) == *old(entry),
        r ==> final(entry).name == old(entry).name,
        r ==> final(entry).data == old(entry).data,
        r ==> final(entry).file_type is Image && image_size(final(entry).file_type) == image_size(old(entry).file_type)
            && metadata(final(entry).file_type, 0) == metadata(old(entry).file_type, 0)
            && metadata(final(entry).file_type, 2) == metadata(old(entry).file_type, 2)
            && (metadata(final(entry).file_type, 1).0 as nat, metadata(final(entry).file_type, 1).1 as nat) == edited_offset(
            metadata(old(entry).file_type, 1),
            offset_x,
            offset_y,
            double_offset,
        ),
{
    match entry.file_type {
        FileType::Image { width, height, unks } => {
            let mut u = unks;
            let (mut x, mut y) = u[1];
            if let Some(v) = offset_x {
                x = v;
            }
            if let Some(v) = offset_y {
                y = v;
            }
            if double_offset {
                x = x * 2;
                y = y * 2;
            }
            u[1] = (x, y);
            entry.file_type = FileType::Image { width, height, unks: u };
            true
        },
        FileType::Sound => false,
    }
}

/// What LZ4 block decompression into a buffer of `capacity` bytes makes of `data`:
/// nothing when the block is malformed or does not fit.
pub uninterp spec fn lz4_decompressed(data: Seq<u8>, capacity: nat) -> Option<Seq<u8>>;

/// Number of 0xFF bytes in a row after which the decoder's 32-bit length sum can
/// overflow: 255 times this is `u32::MAX`.
pub const LONG_FF_RUN: usize = 16_843_009;

/// The `LONG_FF_RUN` bytes of `d` from `i` on are all 0xFF.
pub open spec fn ff_run_at(d: Seq<u8>, i: int) -> bool {
    forall|j: int| i <= j < i + LONG_FF_RUN ==> #[trigger] d[j] == 0xFF
}

/// Some `LONG_FF_RUN` consecutive bytes of `d` are all 0xFF.
pub open spec fn has_long_ff_run(d: Seq<u8>) -> bool {
    exists|i: int| 0 <= i && i + LONG_FF_RUN <= d.len() && #[trigger] ff_run_at(d, i)
}

/// Looks for `LONG_FF_RUN` consecutive 0xFF bytes.
pub fn find_long_ff_run(d: &[u8]) -> (r: bool)
    ensures
        r == has_long_ff_run(d@),
{
    let mut run: usize = 0;
    let mut k: usize = 0;
    while k < d.len()
        invariant
            k <= d@.len(),
            run <= k,
            run < LONG_FF_RUN,
            forall|j: int| k - run <= j < k ==> d@[j] == 0xFF,
            k - run > 0 ==> d@[k - run - 1] != 0xFF,
            forall|i: int| 0 <= i && i + LONG_FF_RUN <= k ==> !#[trigger] ff_run_at(d@, i),
        decreases d@.len() - k,
    {
        if d[k] == 0xFF {
            if run + 1 == LONG_FF_RUN {
                proof {
                    let i = k + 1 - LONG_FF_RUN;
                    assert forall|j: int| i <= j < i + LONG_FF_RUN implies #[trigger] d@[j] == 0xFF by {
                        if j < k {
                            assert(k - run <= j);
                        }
                    }
                    assert(ff_run_at(d@, i as int));
                }
                return true;
            }
            proof {
                assert forall|i: int| 0 <= i && i + LONG_FF_RUN <= k + 1 implies !#[trigger] ff_run_at(d@, i) by {
                    if i + LONG_FF_RUN == k + 1 {
                        let w = k - run - 1;
                        assert(i <= w < i + LONG_FF_RUN && d@[w] != 0xFF);
                    }
                }
            }
            run = run + 1;
        } else {
            proof {
                assert forall|i: int| 0 <= i && i + LONG_FF_RUN <= k + 1 implies !#[trigger] ff_run_at(d@, i) by {
                    if i + LONG_FF_RUN == k + 1 {
                        assert(i <= k < i + LONG_FF_RUN && d@[k as int] != 0xFF);
                    }
                }
            }
            run = 0;
        }
        k = k + 1;
    }
    proof {
        if has_long_ff_run(d@) {
            let i = choose|i: int| 0 <= i && i + LONG_FF_RUN <= d@.len() && #[trigger] ff_run_at(d@, i);
            assert(!ff_run_at(d@, i));
        }
    }
    false
}

/// Relies on `lz4_flex::block::decompress`: on success, the inflated block, at most
/// `capacity` bytes, which depends on the arguments alone; malformed input or too small a
/// capacity gives an error. Its length fields add up bytes in a `u32`, so input with a
/// run of `LONG_FF_RUN` 0xFF bytes is left out.
#[verifier::external_body]
fn lz4_decompress(data: &[u8], capacity: u32) -> (r: Option<Vec<u8>>)
    requires
        !has_long_ff_run(data@),
    ensures
        r is Some <==> lz4_decompressed(data@, capacity as nat) is Some,
        r matches Some(v) ==> Some(v@) == lz4_decompressed(data@, capacity as nat) && v@.len() <= capacity,
{
    lz4_flex::block::decompress(data, capacity as usize).ok()
}

/// What extracting an entry writes.
#[derive(Debug, Clone)]
pub enum DumpedContent {
    /// A DDS file: header, then the BC7 data.
    Dds(Vec<u8>),
    /// A decoded image, to be saved as PNG.
    Png(Surface),
    /// The inflated bytes, as they are.
    Raw(Vec<u8>),
}

#[derive(Debug, PartialEq, Eq, Clone, Copy, Structural)]
pub enum DumpError {
    /// The payload is not a valid LZ4 block of the recorded size, or holds a run of 0xFF
    /// bytes too long for the decoder's length fields.
    Lz4Decompress,
    /// The image's size does not fit the header or the pixel buffer.
    TooLarge,
}

/// The DDS header written in front of an extracted image.
pub open spec fn dump_header(entry: &DecodedEntry) -> crate::dds::DdsHeader {
    crate::dds::DdsHeader {
        height: entry.height,
        width: entry.width,
        pitch_or_linear_size: (aligned(entry.width as nat, 4) * aligned(entry.height as nat, 4)) as u32,
        depth: 0,
        mipmap_count: mipmap_levels(entry.width as nat, entry.height as nat) as u32,
        pixel_format: crate::dds::PixelFormat { four_cc: crate::dds::FourCC::DX10 },
        dx10_header: Some(crate::dds::Dx10Header {
            resource_dimension: crate::dds::ResourceDimension::Texture2D,
            alpha_mode: crate::dds::AlphaMode::Straight,
        }),
    }
}

/// An image whose size does not fit the DDS header (sides rounded up to multiples of 4,
/// their product in 32 bits) or, for PNG, the pixel buffer.
pub open spec fn image_too_large(entry: &DecodedEntry, format: Format) -> bool {
    let w = entry.width as nat;
    let h = entry.height as nat;
    ||| w + 3 > u32::MAX
    ||| h + 3 > u32::MAX
    ||| format == Format::Dds && aligned(w, 4) * aligned(h, 4) > u32::MAX
    ||| format == Format::Png && w * h > usize::MAX / 4
}

/// `r` holds the inflated bytes as they are.
pub open spec fn is_raw_dump(r: Result<DumpedContent, DumpError>, bytes: Seq<u8>) -> bool {
    match r {
        Ok(DumpedContent::Raw(d)) => d@ == bytes,
        _ => false,
    }
}

/// `r` holds the entry's DDS header followed by the inflated bytes.
pub open spec fn is_dds_dump(r: Result<DumpedContent, DumpError>, entry: &DecodedEntry, bytes: Seq<u8>) -> bool {
    match r {
        Ok(DumpedContent::Dds(d)) => d@ == words_le(header_words(dump_header(entry))) + bytes,
        _ => false,
    }
}

/// `r` holds the image that the inflated BC7 bytes decode to.
pub open spec fn is_png_dump(r: Result<DumpedContent, DumpError>, entry: &DecodedEntry, bytes: Seq<u8>) -> bool {
    match r {
        Ok(DumpedContent::Png(img)) => {
            &&& img.width == entry.width
            &&& img.height == entry.height
            &&& img.wf()
            &&& forall|x: nat, y: nat, c: nat|
                x < entry.width && y < entry.height && c < 4 ==> #[trigger] img.at(x, y, c) == decoded_pixel(
                    bytes,
                    entry.width as nat,
                    x,
                    y,
                    c,
                )
        },
        _ => false,
    }
}

/// The content that extraction writes for an entry whose stored payload is `compressed`:
/// a DDS file or a decoded image for an image entry, the inflated bytes for any other.
pub fn dump_entry_content(entry: &DecodedEntry, compressed: &[u8], format: Format) -> (r: Result<DumpedContent, DumpError>)
    ensures
        has_long_ff_run(compressed@) ==> r == Err::<DumpedContent, DumpError>(DumpError::Lz4Decompress),
        !has_long_ff_run(compressed@) && lz4_decompressed(compressed@, entry.size_decompressed as nat) is None ==> r == Err::<DumpedContent, DumpError>(
            DumpError::Lz4Decompress,
        ),
        !has_long_ff_run(compressed@) && lz4_decompressed(compressed@, entry.size_decompressed as nat) is Some && entry.file_type != crate::FileType::Image
            ==> is_raw_dump(r, lz4_decompressed(compressed@, entry.size_decompressed as nat)->Some_0),
        !has_long_ff_run(compressed@) && lz4_decompressed(compressed@, entry.size_decompressed as nat) is Some && entry.file_type == crate::FileType::Image
            && image_too_large(entry, format) ==> r == Err::<DumpedContent, DumpError>(DumpError::TooLarge),
        !has_long_ff_run(compressed@) && lz4_decompressed(compressed@, entry.size_decompressed as nat) is Some && entry.file_type == crate::FileType::Image
            && !image_too_large(entry, format) && format == Format::Dds ==> is_dds_dump(
            r,
            entry,
            lz4_decompressed(compressed@, entry.size_decompressed as nat)->Some_0,
        ),
        !has_long_ff_run(compressed@) && lz4_decompressed(compressed@, entry.size_decompressed as nat) is Some && entry.file_type == crate::FileType::Image
            && !image_too_large(entry, format) && format == Format::Png ==> is_png_dump(
            r,
            entry,
            lz4_decompressed(compressed@, entry.size_decompressed as nat)->Some_0,
        ),
{
    if find_long_ff_run(compressed) {
        return Err(DumpError::Lz4Decompress);
    }
    let data = match lz4_decompress(compressed, entry.size_decompressed) {
        Some(d) => d,
        None => return Err(DumpError::Lz4Decompress),
    };
    match (entry.file_type, format) {
        (crate::FileType::Image, Format::Dds) => {
            let (w, h) = (entry.width, entry.height);
            if w > u32::MAX - 3 || h > u32::MAX - 3 {
                return Err(DumpError::TooLarge);
            }
            let aw = crate::align_up::<4>(w);
            let ah = crate::align_up::<4>(h);
            if ah > 0 && aw > u32::MAX / ah {
                proof {
                    assert(aw * ah > u32::MAX) by (nonlinear_arith)
                        requires aw > u32::MAX / ah, ah > 0;
                }
                return Err(DumpError::TooLarge);
            }
            proof {
                if ah > 0 {
                    assert(aw * ah <= u32::MAX) by (nonlinear_arith)
                        requires aw <= u32::MAX / ah, ah > 0;
                } else {
                    assert(aw * ah == 0) by (nonlinear_arith)
                        requires ah == 0;
                }
            }
            let header = create_dds_header(w, h);
            let mut out = header.write();
            let mut d = data;
            out.append(&mut d);
            Ok(DumpedContent::Dds(out))
        },
        (crate::FileType::Image, Format::Png) => {
            let (w, h) = (entry.width, entry.height);
            if w > u32::MAX - 3 || h > u32::MAX - 3 {
                return Err(DumpError::TooLarge);
            }
            assert(w as u64 * h as u64 <= u64::MAX) by (nonlinear_arith)
                requires w <= u32::MAX, h <= u32::MAX;
            if w as u64 * h as u64 > (usize::MAX / 4) as u64 {
                return Err(DumpError::TooLarge);
            }
            assert(4 * w * h <= usize::MAX) by (nonlinear_arith)
                requires w * h <= usize::MAX / 4;
            let img = decode_bc7(&data, w, h);
            Ok(DumpedContent::Png(img))
        },
        _ => Ok(DumpedContent::Raw(data)),
    }
}

} // verus!
