use bigblob_decoder::bc7::tile::decode_bc7_block;
use bigblob_decoder::bc7::encode::encode_bc7_block;
use bigblob_decoder::bc7::{Block0, Block1, Block2, Block3, Block4, Block5, Block6, Block7, Rotation};
use bigblob_decoder::surface::Rgba;

const B1: u8 = (1 << 1) - 1;
const B4: u8 = (1 << 4) - 1;
const B5: u8 = (1 << 5) - 1;
const B6: u8 = (1 << 6) - 1;
const B7: u8 = (1 << 7) - 1;
const B8: u8 = u8::MAX;

#[test]
fn check_block0_max() {
    let block = u128::MAX;
    let data = Block0::decode(block);
    assert_eq!(data.partition, B4);
    assert_eq!(data.r, [B4; 6]);
    assert_eq!(data.g, [B4; 6]);
    assert_eq!(data.b, [B4; 6]);
    assert_eq!(data.p, [B1; 6]);
    assert_eq!(data.index_data, (1 << 45) - 1);
}

#[test]
fn check_block1_max() {
    let block = u128::MAX;
    let data = Block1::decode(block);
    assert_eq!(data.partition, B6);
    assert_eq!(data.r, [B6; 4]);
    assert_eq!(data.g, [B6; 4]);
    assert_eq!(data.b, [B6; 4]);
    assert_eq!(data.p, [B1; 2]);
    assert_eq!(data.index_data, (1 << 46) - 1);
}

#[test]
fn check_block2_max() {
    let block = u128::MAX;
    let data = Block2::decode(block);
    assert_eq!(data.partition, B6);
    assert_eq!(data.r, [B5; 6]);
    assert_eq!(data.g, [B5; 6]);
    assert_eq!(data.b, [B5; 6]);
    assert_eq!(data.index_data, (1 << 29) - 1);
}

#[test]
fn check_block3_max() {
    let block = u128::MAX;
    let data = Block3::decode(block);
    assert_eq!(data.partition, B6);
    assert_eq!(data.r, [B7; 4]);
    assert_eq!(data.g, [B7; 4]);
    assert_eq!(data.b, [B7; 4]);
    assert_eq!(data.p, [B1; 4]);
    assert_eq!(data.index_data, (1 << 30) - 1);
}

#[test]
fn check_block4_max() {
    let block = u128::MAX;
    let data = Block4::decode(block);
    assert_eq!(data.rot, Rotation::B);
    assert_eq!(data.idx_mode, true);
    assert_eq!(data.r, [B5; 2]);
    assert_eq!(data.g, [B5; 2]);
    assert_eq!(data.b, [B5; 2]);
    assert_eq!(data.a, [B6; 2]);
    assert_eq!(data.index_data0, (1 << 31) - 1);
    assert_eq!(data.index_data1, (1 << 47) - 1);
}

#[test]
fn check_block5_max() {
    let block = u128::MAX;
    let data = Block5::decode(block);
    assert_eq!(data.rot, Rotation::B);
    assert_eq!(data.r, [B7; 2]);
    assert_eq!(data.g, [B7; 2]);
    assert_eq!(data.b, [B7; 2]);
    assert_eq!(data.a, [B8; 2]);
    assert_eq!(data.colors, (1 << 31) - 1);
    assert_eq!(data.alpha, (1 << 31) - 1);
}

#[test]
fn check_block6_max() {
    let block = u128::MAX;
    let data = Block6::decode(block);
    assert_eq!(data.r, [B7; 2]);
    assert_eq!(data.g, [B7; 2]);
    assert_eq!(data.b, [B7; 2]);
    assert_eq!(data.a, [B7; 2]);
    assert_eq!(data.p, [B1; 2]);
    assert_eq!(data.index_data, (1 << 63) - 1);
}

#[test]
fn check_block7_max() {
    let block = u128::MAX;
    let data = Block7::decode(block);
    assert_eq!(data.partition, B6);
    assert_eq!(data.r, [B5; 4]);
    assert_eq!(data.g, [B5; 4]);
    assert_eq!(data.b, [B5; 4]);
    assert_eq!(data.a, [B5; 4]);
    assert_eq!(data.p, [B1; 4]);
    assert_eq!(data.index_data, (1 << 30) - 1);
}

#[test]
fn check_block4_test_content() {
    let block = 0b_101010_101010_11011_11011_11011_11011_11011_11011_0_10_10000_u128;
    let data = Block4::decode(block);
    assert_eq!(data.rot, Rotation::G);
    assert_eq!(data.idx_mode, false);
    assert_eq!(data.r, [0b11011; 2]);
    assert_eq!(data.g, [0b11011; 2]);
    assert_eq!(data.b, [0b11011; 2]);
    assert_eq!(data.a, [0b101010; 2]);
    assert_eq!(data.index_data0, 0);
    assert_eq!(data.index_data1, 0);
}

#[test]
fn check_block4_content_by_bit() {
    for i in 0u8..128 {
        println!("i: {i}");
        let block = 1u128 << i;
        let data = Block4::decode(block);
        match i {
            0..=4 => {
                assert_eq!(data.rot, Rotation::No);
                assert_eq!(data.idx_mode, false);
                assert_eq!(data.r, [0; 2]);
                assert_eq!(data.g, [0; 2]);
                assert_eq!(data.b, [0; 2]);
                assert_eq!(data.a, [0; 2]);
                assert_eq!(data.index_data0, 0);
                assert_eq!(data.index_data1, 0);
            }
            5 => assert_eq!(data.rot, Rotation::R),
            6 => assert_eq!(data.rot, Rotation::G),
            7 => assert_eq!(data.idx_mode, true),
            8..=12 => assert_eq!(data.r[0], 1 << (i - 8)),
            13..=17 => assert_eq!(data.r[1], 1 << (i - 13)),
            18..=22 => assert_eq!(data.g[0], 1 << (i - 18)),
            23..=27 => assert_eq!(data.g[1], 1 << (i - 23)),
            28..=32 => assert_eq!(data.b[0], 1 << (i - 28)),
            33..=37 => assert_eq!(data.b[1], 1 << (i - 33)),
            38..=43 => assert_eq!(data.a[0], 1 << (i - 38)),
            44..=49 => assert_eq!(data.a[1], 1 << (i - 44)),
            50..=80 => assert_eq!(data.index_data0, 1 << (i - 50)),
            81..=127 => assert_eq!(data.index_data1, 1 << (i - 81)),
            128.. => unreachable!(),
        }
    }
}

#[test]
fn check_block8_decoding() {
    let output = decode_bc7_block(0);
    assert_eq!(output, [[Rgba([0; 4]); 4]; 4]);
}

#[test]
fn check_transparent_decoding() {
    let output = decode_bc7_block(0x00000000_aaaaaaac_00000000_00000020_u128);
    assert_eq!(output, [[Rgba([0; 4]); 4]; 4]);
}

#[test]
fn mode6_white_endpoints_decode_white() {
    let block = Block6 { r: [127; 2], g: [127; 2], b: [127; 2], a: [127; 2], p: [1; 2], index_data: 0x1234_5678_9abc_def0 >> 1 }.encode();
    assert_eq!(block & 0x7f, 0x40);
    assert_eq!(decode_bc7_block(block), [[Rgba([255; 4]); 4]; 4]);
}

#[test]
fn mode4_green_rotation_swaps_channels() {
    let block = Block4 {
        rot: Rotation::G,
        idx_mode: false,
        r: [0; 2],
        g: [0; 2],
        b: [0; 2],
        a: [0, 63],
        index_data0: 0,
        index_data1: 0,
    }
    .encode();
    let tile = decode_bc7_block(block);
    for row in tile {
        for t in row {
            assert_eq!(t.0[1], 0);
            assert_eq!(t.0[3], 0);
        }
    }
    // Alpha index 7 on texel 1 selects the second alpha endpoint, 255, which lands in green.
    let block = Block4 {
        rot: Rotation::G,
        idx_mode: false,
        r: [0; 2],
        g: [0; 2],
        b: [0; 2],
        a: [0, 63],
        index_data0: 0,
        index_data1: 0b111 << 2,
    }
    .encode();
    let tile = decode_bc7_block(block);
    assert_eq!(tile[0][1], Rgba([0, 255, 0, 0]));
    assert_eq!(tile[0][0], Rgba([0, 0, 0, 0]));
}

#[test]
fn mode_prefix_is_unary() {
    assert_eq!(Block0 { partition: 0, r: [0; 6], g: [0; 6], b: [0; 6], p: [0; 6], index_data: 0 }.encode(), 1);
    assert_eq!(Block7 { partition: 0, r: [0; 4], g: [0; 4], b: [0; 4], a: [0; 4], p: [0; 4], index_data: 0 }.encode(), 0x80);
}

#[test]
fn block_fields_round_trip() {
    let b = Block1 { partition: 37, r: [1, 2, 3, 63], g: [4, 5, 6, 7], b: [60, 61, 62, 0], p: [1, 0], index_data: 0x2345_6789_abcd };
    let d = Block1::decode(b.encode());
    assert_eq!(d.partition, 37);
    assert_eq!(d.r, [1, 2, 3, 63]);
    assert_eq!(d.g, [4, 5, 6, 7]);
    assert_eq!(d.b, [60, 61, 62, 0]);
    assert_eq!(d.p, [1, 0]);
    assert_eq!(d.index_data, 0x2345_6789_abcd);
    let b = Block5 { rot: Rotation::R, r: [1, 127], g: [2, 3], b: [4, 5], a: [255, 6], colors: 0x7fff_0001, alpha: 0x1234_5678 };
    let d = Block5::decode(b.encode());
    assert_eq!(d.rot, Rotation::R);
    assert_eq!(d.r, [1, 127]);
    assert_eq!(d.a, [255, 6]);
    assert_eq!(d.colors, 0x7fff_0001);
    assert_eq!(d.alpha, 0x1234_5678);
}

#[test]
fn mode0_solid_color_and_opaque_alpha() {
    // Both endpoints of every subset are (15, 0, 15) with p-bit 1: magenta after widening.
    let b = Block0 { partition: 3, r: [15; 6], g: [0; 6], b: [15; 6], p: [1; 6], index_data: 0x1234_5678_9abc };
    let tile = decode_bc7_block(b.encode());
    assert_eq!(tile, [[Rgba([255, 8, 255, 255]); 4]; 4]);
}

#[test]
fn mode7_interpolates_alpha() {
    // Endpoints 0 and 31 (p-bit 1 on the second) widen to 0 and 255; index 1 weighs 21/64.
    let b = Block7 { partition: 0, r: [0, 31, 0, 31], g: [0; 4], b: [0; 4], a: [0, 31, 0, 31], p: [0, 1, 0, 1], index_data: 0b10 };
    let tile = decode_bc7_block(b.encode());
    assert_eq!(tile[0][0], Rgba([0, 0, 0, 0]));
    assert_eq!(tile[0][1], Rgba([84, 1, 1, 84]));
}

#[test]
fn encoder_emits_canonical_transparent_block() {
    assert_eq!(encode_bc7_block([[Rgba([0; 4]); 4]; 4]), 0x20);
    let mut px = [[Rgba([10, 20, 30, 0]); 4]; 4];
    assert_eq!(encode_bc7_block(px), 0x20);
    px[2][3] = Rgba([0, 0, 0, 255]);
    let translucent = encode_bc7_block(px);
    assert_eq!(translucent & 0x7f, 0x40);
    let d = Block6::decode(translucent);
    assert_eq!(d.a, [0b0011111; 2]);
    let opaque = encode_bc7_block([[Rgba([1, 2, 3, 255]); 4]; 4]);
    assert_eq!(Block6::decode(opaque).a, [127; 2]);
    assert_eq!(decode_bc7_block(opaque)[0][0], Rgba([255, 1, 255, 255]));
}
