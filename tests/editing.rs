use bigblob_decoder::bc7::{decode_bc7, encode_bc7};
use bigblob_decoder::bitstream::{put_bits, take_bits};
use bigblob_decoder::dds::create_dds_header;
use bigblob_decoder::encoding::{read_section, Data, Entry, FileType as EntryType};
use bigblob_decoder::replace::{
    dump_entry_content, find_entry, find_long_ff_run, replace_with_dds, replace_with_image, replace_with_raw,
    set_offset, DdsReplacement, DumpError, DumpedContent, ReplaceError,
};
use bigblob_decoder::surface::Surface;
use bigblob_decoder::{DecodedEntry, FileType, Format};

fn image_entry(name: &str) -> Entry {
    Entry {
        name: name.to_string(),
        file_type: EntryType::Image { width: 4, height: 4, unks: [(1, 2), (3, 4), (4, 4)] },
        data: Data::Compressed { data: vec![1, 2, 3], uncompressed_size: 9 },
    }
}

fn sound_entry(name: &str) -> Entry {
    Entry {
        name: name.to_string(),
        file_type: EntryType::Sound,
        data: Data::Compressed { data: vec![4], uncompressed_size: 1 },
    }
}

#[test]
fn bit_stream_inject_then_extract() {
    let mut v = 0u128;
    put_bits(&mut v, 0b101, 3);
    put_bits(&mut v, 0xffff_ffff_ffff, 48);
    put_bits(&mut v, 0x1_2345, 17);
    assert_eq!(take_bits(&mut v, 17), 0x1_2345);
    assert_eq!(take_bits(&mut v, 48), 0xffff_ffff_ffff);
    assert_eq!(take_bits(&mut v, 3), 0b101);
    assert_eq!(v, 0);
    let mut w = u128::MAX;
    assert_eq!(take_bits(&mut w, 128), u128::MAX);
    assert_eq!(w, 0);
    let mut x = 0b1_0110u128;
    assert_eq!(take_bits(&mut x, 2), 0b10);
    assert_eq!(x, 0b101);
}

#[test]
fn entries_are_found_by_name() {
    let entries = vec![image_entry("a/b"), sound_entry("c"), image_entry("c")];
    assert_eq!(find_entry(&entries, "c"), Ok(1));
    assert_eq!(find_entry(&entries, "a/b"), Ok(0));
    assert_eq!(find_entry(&entries, "a"), Err(ReplaceError::MissingEntry));
}

#[test]
fn image_replacement_updates_size_and_data() {
    let mut e = image_entry("img");
    let surface = Surface { width: 2, height: 2, pixels: vec![0; 16] };
    replace_with_image(&mut e, surface).unwrap();
    assert_eq!(e.file_type, EntryType::Image { width: 2, height: 2, unks: [(1, 2), (3, 4), (4, 4)] });
    match e.data {
        // One level of 2x2 then the 1x1 level: two transparent blocks.
        Data::Raw(d) => {
            assert_eq!(d.len(), 32);
            assert_eq!(&d[0..16], &0x20u128.to_le_bytes());
            assert_eq!(&d[16..32], &0x20u128.to_le_bytes());
        }
        _ => panic!("expected raw data"),
    }
    let mut s = sound_entry("snd");
    let surface = Surface { width: 1, height: 1, pixels: vec![0; 4] };
    assert_eq!(replace_with_image(&mut s, surface), Err(ReplaceError::MismatchedType));
    assert_eq!(s.file_type, EntryType::Sound);
}

#[test]
fn dds_replacement_strips_the_header() {
    let mut file = create_dds_header(8, 16).write();
    file.extend_from_slice(&[9, 9, 9]);
    let mut e = image_entry("img");
    let r = replace_with_dds(&mut e, &file).unwrap();
    assert_eq!(r, DdsReplacement::Stripped { complete_mipmaps: true });
    assert_eq!(e.file_type, EntryType::Image { width: 8, height: 16, unks: [(1, 2), (3, 4), (4, 4)] });
    assert!(matches!(&e.data, Data::Raw(d) if d == &vec![9, 9, 9]));

    let mut bad_mips = file.clone();
    bad_mips[28] = 2;
    let mut e = image_entry("img");
    assert_eq!(replace_with_dds(&mut e, &bad_mips).unwrap(), DdsReplacement::Stripped { complete_mipmaps: false });

    let mut e = image_entry("img");
    let r = replace_with_dds(&mut e, b"not a dds").unwrap();
    assert!(matches!(r, DdsReplacement::Unparsed(_)));
    assert!(matches!(&e.data, Data::Raw(d) if d == b"not a dds"));

    let mut s = sound_entry("snd");
    assert_eq!(replace_with_dds(&mut s, &file), Err(ReplaceError::MismatchedType));
}

#[test]
fn raw_replacement_and_offsets() {
    let mut e = sound_entry("snd");
    replace_with_raw(&mut e, vec![7, 7]);
    assert!(matches!(&e.data, Data::Raw(d) if d == &vec![7, 7]));
    assert!(!set_offset(&mut e, Some(1), None, false));

    let mut i = image_entry("img");
    assert!(set_offset(&mut i, Some(10), None, true));
    assert_eq!(i.file_type, EntryType::Image { width: 4, height: 4, unks: [(1, 2), (20, 8), (4, 4)] });
    assert!(set_offset(&mut i, None, Some(5), false));
    assert_eq!(i.file_type, EntryType::Image { width: 4, height: 4, unks: [(1, 2), (20, 5), (4, 4)] });
}

fn decoded(name: &str, file_type: FileType, width: u32, height: u32, size_decompressed: u32) -> DecodedEntry {
    DecodedEntry {
        name: name.to_string(),
        file_type,
        size: 0,
        offset: 0,
        size_decompressed,
        width,
        height,
        unks: [(0, 0); 3],
    }
}

#[test]
fn dumped_content_per_type() {
    let sound = b"some sound bytes, some sound bytes".to_vec();
    let packed = lz4_flex::block::compress(&sound);
    let e = decoded("snd", FileType::Sound, 0, 0, sound.len() as u32);
    match dump_entry_content(&e, &packed, Format::Png).unwrap() {
        DumpedContent::Raw(d) => assert_eq!(d, sound),
        _ => panic!("expected raw content"),
    }
    let e = decoded("snd", FileType::Sound, 0, 0, 4);
    assert_eq!(dump_entry_content(&e, &packed, Format::Png).unwrap_err(), DumpError::Lz4Decompress);

    let blocks: Vec<u8> = [0x20u128, 0x20u128].iter().flat_map(|b| b.to_le_bytes()).collect();
    let packed = lz4_flex::block::compress(&blocks);
    let img = decoded("img", FileType::Image, 8, 4, 32);
    match dump_entry_content(&img, &packed, Format::Dds).unwrap() {
        DumpedContent::Dds(d) => {
            assert_eq!(d.len(), 148 + 32);
            assert_eq!(&d[..148], &create_dds_header(8, 4).write()[..]);
            assert_eq!(&d[148..], &blocks[..]);
        }
        _ => panic!("expected dds content"),
    }
    let huge = decoded("img", FileType::Image, u32::MAX, 4, 32);
    assert_eq!(dump_entry_content(&huge, &packed, Format::Dds).unwrap_err(), DumpError::TooLarge);
    let wide = decoded("img", FileType::Image, 0x1_0000, 0x1_0000, 32);
    assert_eq!(dump_entry_content(&wide, &packed, Format::Dds).unwrap_err(), DumpError::TooLarge);
    match dump_entry_content(&img, &packed, Format::Png).unwrap() {
        DumpedContent::Png(s) => {
            assert_eq!((s.width, s.height), (8, 4));
            assert_eq!(s.pixels, vec![0; 8 * 4 * 4]);
        }
        _ => panic!("expected an image"),
    }
}

#[test]
fn image_codec_round_trip_shapes() {
    // A 5x3 opaque red image: 2x1 tiles, then mipmaps 2x1 and 1x1.
    let mut pixels = Vec::new();
    for _ in 0..15 {
        pixels.extend_from_slice(&[255, 0, 0, 255]);
    }
    let data = encode_bc7(Surface { width: 5, height: 3, pixels });
    assert_eq!(data.len(), 16 * (2 + 1 + 1));
    let first = u128::from_le_bytes(data[0..16].try_into().unwrap());
    assert_eq!(first & 0x7f, 0x40);
    let surface = decode_bc7(&data, 5, 3);
    assert_eq!((surface.width, surface.height), (5, 3));
    // The tiles reach past the image, so they hold transparent texels: translucent blocks.
    assert_eq!(&surface.pixels[0..4], &[255, 1, 255, 63]);
    // Data for one tile only: the second tile of the row stays zero.
    let part = decode_bc7(&data[..16], 5, 3);
    assert_eq!(&part.pixels[16..20], &[0, 0, 0, 0]);
    assert_eq!(&part.pixels[12..16], &[255, 1, 255, 63]);
}

#[test]
fn one_pixel_image_has_no_extra_level() {
    let data = encode_bc7(Surface { width: 1, height: 1, pixels: vec![9, 8, 7, 255] });
    assert_eq!(data.len(), 16);
    let data = encode_bc7(Surface { width: 2, height: 1, pixels: vec![0; 8] });
    assert_eq!(data.len(), 32);
}

#[test]
fn long_ff_runs_are_refused_before_decompression() {
    let run = bigblob_decoder::replace::LONG_FF_RUN;
    let mut payload = vec![0xF0u8];
    payload.extend(std::iter::repeat(0xFFu8).take(run));
    payload.push(0);
    assert!(find_long_ff_run(&payload));
    let e = decoded("snd", FileType::Sound, 0, 0, 16);
    assert_eq!(dump_entry_content(&e, &payload, Format::Png).unwrap_err(), DumpError::Lz4Decompress);
    let short = vec![0xFFu8; run - 1];
    assert!(!find_long_ff_run(&short));
    assert!(!find_long_ff_run(&[1, 0xFF, 0xFF, 2]));
}

#[test]
fn sections_are_cut_at_the_end_of_the_file() {
    let file = [1u8, 2, 3, 4, 5];
    assert_eq!(read_section(&file, 1, 3), vec![2, 3, 4]);
    assert_eq!(read_section(&file, 3, 10), vec![4, 5]);
    assert_eq!(read_section(&file, 9, 2), Vec::<u8>::new());
}
