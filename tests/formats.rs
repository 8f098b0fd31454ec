use bigblob_decoder::dds::{calculate_mipmap_count, create_dds_header, parse_dds, AlphaMode, ParseError, ResourceDimension};
use bigblob_decoder::encoding::{Archive, ArchiveError, Data, FileType as EntryType};
use bigblob_decoder::{align_up, parse_format, read_toc, FileType, Format, TocError};

#[test]
fn mipmap_counts_and_alignment() {
    assert_eq!(calculate_mipmap_count(1024, 512), 11);
    assert_eq!(calculate_mipmap_count(1, 1), 1);
    assert_eq!(calculate_mipmap_count(1000, 3), 10);
    assert_eq!(calculate_mipmap_count(0, 0), 0);
    assert_eq!(align_up::<4>(1), 4);
    assert_eq!(align_up::<4>(4), 4);
    assert_eq!(align_up::<4>(0), 0);
    assert_eq!(align_up::<4>(align_up::<4>(13)), align_up::<4>(13));
    assert_eq!(align_up::<4>(13), 16);
}

#[test]
fn dds_header_write_then_parse() {
    let h = create_dds_header(100, 60);
    assert_eq!(h.mipmap_count, 7);
    assert_eq!(h.pitch_or_linear_size, 100 * 60);
    let mut bytes = h.write();
    assert_eq!(bytes.len(), 148);
    assert_eq!(&bytes[0..4], b"DDS ");
    assert_eq!(&bytes[84..88], b"DX10");
    bytes.extend_from_slice(&[1, 2, 3]);
    let (p, rest) = parse_dds(&bytes).unwrap();
    assert_eq!(p.width, 100);
    assert_eq!(p.height, 60);
    assert_eq!(p.mipmap_count, 7);
    let x = p.dx10_header.unwrap();
    assert_eq!(x.resource_dimension, ResourceDimension::Texture2D);
    assert_eq!(x.alpha_mode, AlphaMode::Straight);
    assert_eq!(rest, vec![1, 2, 3]);
}

#[test]
fn dds_parse_errors() {
    let good = create_dds_header(8, 8).write();
    assert_eq!(parse_dds(&good[..2]).unwrap_err(), ParseError::UnexpectedEof);
    let mut b = good.clone();
    b[0] = b'X';
    assert_eq!(parse_dds(&b).unwrap_err(), ParseError::WrongDDSMagic);
    let mut b = good.clone();
    b[4] = 0;
    assert_eq!(parse_dds(&b).unwrap_err(), ParseError::WrongDDSHeaderSize);
    let mut b = good.clone();
    b[76] = 0;
    assert_eq!(parse_dds(&b).unwrap_err(), ParseError::WrongPixelFormatSize);
    let mut b = good.clone();
    b[84] = b'Y';
    assert_eq!(parse_dds(&b).unwrap_err(), ParseError::UnknownFourCC);
    let mut b = good.clone();
    b[128] = 71;
    assert_eq!(parse_dds(&b).unwrap_err(), ParseError::UnknownFormat);
    let mut b = good.clone();
    b[132] = 9;
    assert_eq!(parse_dds(&b).unwrap_err(), ParseError::UnknownResourceDimension);
    let mut b = good.clone();
    b[144] = 5;
    assert_eq!(parse_dds(&b).unwrap_err(), ParseError::UnknownAlphaMode);
    assert_eq!(parse_dds(&good[..140]).unwrap_err(), ParseError::UnexpectedEof);
}

#[test]
fn format_names() {
    assert_eq!(parse_format("dds"), Some(Format::Dds));
    assert_eq!(parse_format("PnG"), Some(Format::Png));
    assert_eq!(parse_format("jpg"), None);
    assert_eq!(parse_format("ddss"), None);
    assert_eq!("DDS".parse::<Format>(), Ok(Format::Dds));
}

fn push_u32(out: &mut Vec<u8>, v: u32) {
    out.extend_from_slice(&v.to_le_bytes());
}

fn push_entry(out: &mut Vec<u8>, file_type: u32, dec: u32, size: u32, offset: u32, name: &[u8]) {
    push_u32(out, file_type);
    push_u32(out, dec);
    push_u32(out, size);
    for v in [7, 8, 9, 10, 11, 12] {
        push_u32(out, if file_type == 0 { v } else { 0 });
    }
    push_u32(out, if file_type == 0 { 64 } else { 0 });
    push_u32(out, if file_type == 0 { 32 } else { 0 });
    push_u32(out, offset);
    push_u32(out, name.len() as u32);
    out.extend_from_slice(name);
}

/// An archive with an image "a/img" and a sound "snd", in that order.
fn sample_archive(a_raw: &[u8], b_raw: &[u8]) -> Vec<u8> {
    let a = lz4_flex::block::compress(a_raw);
    let b = lz4_flex::block::compress(b_raw);
    let mut out = Vec::new();
    push_u32(&mut out, (4 + a.len() + b.len()) as u32);
    out.extend_from_slice(&a);
    out.extend_from_slice(&b);
    push_u32(&mut out, 2);
    push_entry(&mut out, 0, a_raw.len() as u32, a.len() as u32, 4, b"a/img");
    push_entry(&mut out, 1, b_raw.len() as u32, b.len() as u32, 4 + a.len() as u32, b"snd");
    out
}

#[test]
fn toc_is_read_in_order() {
    let bytes = sample_archive(&[5u8; 20], &[1, 2, 3, 4, 5, 6, 7, 8]);
    let toc = read_toc(&bytes).unwrap();
    assert_eq!(toc.entries.len(), 2);
    assert_eq!(toc.entries[0].name, "a/img");
    assert_eq!(toc.entries[0].file_type, FileType::Image);
    assert_eq!(toc.entries[0].size_decompressed, 20);
    assert_eq!(toc.entries[0].offset, 4);
    assert_eq!(toc.entries[0].unks, [(7, 8), (9, 10), (11, 12)]);
    assert_eq!((toc.entries[0].width, toc.entries[0].height), (64, 32));
    assert_eq!(toc.entries[1].name, "snd");
    assert_eq!(toc.entries[1].file_type, FileType::Sound);
}

#[test]
fn toc_errors() {
    let bytes = sample_archive(&[5u8; 20], &[1, 2, 3]);
    assert_eq!(read_toc(&bytes[..bytes.len() - 1]).unwrap_err(), TocError::UnexpectedEof);
    assert_eq!(read_toc(&bytes[..3]).unwrap_err(), TocError::UnexpectedEof);
    let mut bad = bytes.clone();
    let n = bad.len();
    bad[n - 1] = 0xff;
    assert_eq!(read_toc(&bad).unwrap_err(), TocError::InvalidName);
}

#[test]
fn parse_then_write_is_identity() {
    let bytes = sample_archive(&[5u8; 20], &[1, 2, 3, 4, 5, 6, 7, 8]);
    let toc = read_toc(&bytes).unwrap();
    let archive = Archive::from_file_and_toc(&bytes, toc).unwrap();
    assert_eq!(archive.write_to_file().unwrap(), bytes);
}

#[test]
fn unknown_entry_type_is_refused() {
    let mut bytes = sample_archive(&[5u8; 20], &[1, 2, 3]);
    let toc_at = u32::from_le_bytes(bytes[0..4].try_into().unwrap()) as usize;
    bytes[toc_at + 4] = 9;
    let toc = read_toc(&bytes).unwrap();
    assert_eq!(toc.entries[0].file_type, FileType::Unknown);
    assert_eq!(Archive::from_file_and_toc(&bytes, toc).unwrap_err(), ArchiveError::UnknownFileType);
}

#[test]
fn replacing_an_entry_moves_the_next_one() {
    let a_raw = [5u8; 20];
    let b_raw = [1u8, 2, 3, 4, 5, 6, 7, 8];
    let bytes = sample_archive(&a_raw, &b_raw);
    let b_size = lz4_flex::block::compress(&b_raw).len();
    let toc = read_toc(&bytes).unwrap();
    let mut archive = Archive::from_file_and_toc(&bytes, toc).unwrap();
    let new_a: Vec<u8> = (0u8..12).collect();
    archive.entries[0].data = Data::Raw(new_a.clone());
    if let EntryType::Image { width, .. } = &mut archive.entries[0].file_type {
        *width = 128;
    }
    let out = archive.write_to_file().unwrap();
    let a_size = lz4_flex::block::compress(&new_a).len();
    let start_of_toc = u32::from_le_bytes(out[0..4].try_into().unwrap()) as usize;
    assert_eq!(start_of_toc, 4 + a_size + b_size);
    let toc = read_toc(&out).unwrap();
    assert_eq!(toc.entries[0].offset, 4);
    assert_eq!(toc.entries[0].size as usize, a_size);
    assert_eq!(toc.entries[0].size_decompressed, 12);
    assert_eq!(toc.entries[0].width, 128);
    assert_eq!(toc.entries[1].offset as usize, 4 + a_size);
    assert_eq!(toc.entries[1].size as usize, b_size);
    let e0 = &toc.entries[0];
    let a = lz4_flex::block::decompress(&out[4..4 + a_size], e0.size_decompressed as usize).unwrap();
    assert_eq!(a, new_a);
    let e1 = &toc.entries[1];
    let o = e1.offset as usize;
    let b = lz4_flex::block::decompress(&out[o..o + e1.size as usize], e1.size_decompressed as usize).unwrap();
    assert_eq!(b.len(), 8);
    assert_eq!(b, b_raw.to_vec());
}
