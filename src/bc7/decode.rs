//! Decoding BC7 blocks into their fields and into 4x4 RGBA tiles.
use crate::bc7::{layout, Block0, Block1, Block2, Block3, Block4, Block5, Block6, Block7, Rotation};
use crate::bitstream::{field_at, nats, repeat, take_bits, unpack, BitReader};
use vstd::arithmetic::power2::{lemma2_to64, lemma2_to64_rest, pow2};
use vstd::prelude::*;

verus! {

impl Block0 {
    /// Reads the fields of a mode 0 block that follow its one-bit mode prefix.
    pub fn decode(block: u128) -> (r: Self)
        ensures
            r@ == unpack(block as nat / pow2(1), layout(0)),
            r.partition as nat == field_at(block as nat / pow2(1), 0, 4),
            forall|i: int| 0 <= i < 6 ==> r.r[i] as nat == field_at(block as nat / pow2(1), (4 + 4 * i) as nat, 4),
            forall|i: int| 0 <= i < 6 ==> r.g[i] as nat == field_at(block as nat / pow2(1), (28 + 4 * i) as nat, 4),
            forall|i: int| 0 <= i < 6 ==> r.b[i] as nat == field_at(block as nat / pow2(1), (52 + 4 * i) as nat, 4),
            forall|i: int| 0 <= i < 6 ==> r.p[i] as nat == field_at(block as nat / pow2(1), (76 + 1 * i) as nat, 1),
            r.index_data as nat == field_at(block as nat / pow2(1), 82, 45),
    {
        let mut block = block;
        let _mode = take_bits(&mut block, 1);
        let mut rd = BitReader::new(block);
        let partition = rd.read(4);
        let r = rd.read_array::<6>(4);
        let g = rd.read_array::<6>(4);
        let b = rd.read_array::<6>(4);
        let p = rd.read_array::<6>(1);
        let index_data = rd.read(45);
        proof {
            lemma2_to64();
            lemma2_to64_rest();
            assert(rd.widths@ =~= layout(0));
        }
        let res = Block0 { partition: partition as u8, r, g, b, p, index_data: index_data as u64 };
        proof {
            assert(res@ =~= seq![partition as nat] + nats(r@) + nats(g@) + nats(b@) + nats(p@) + seq![index_data as nat]);
            assert(rd.fields@ =~= seq![partition as nat] + nats(r@) + nats(g@) + nats(b@) + nats(p@) + seq![index_data as nat]);
        }
        res
    }
}

impl Block1 {
    /// Reads the fields of a mode 1 block that follow its 2-bit mode prefix.
    pub fn decode(block: u128) -> (r: Self)
        ensures
            r@ == unpack(block as nat / pow2(2), layout(1)),
            r.partition as nat == field_at(block as nat / pow2(2), 0, 6),
            forall|i: int| 0 <= i < 4 ==> r.r[i] as nat == field_at(block as nat / pow2(2), (6 + 6 * i) as nat, 6),
            forall|i: int| 0 <= i < 4 ==> r.g[i] as nat == field_at(block as nat / pow2(2), (30 + 6 * i) as nat, 6),
            forall|i: int| 0 <= i < 4 ==> r.b[i] as nat == field_at(block as nat / pow2(2), (54 + 6 * i) as nat, 6),
            forall|i: int| 0 <= i < 2 ==> r.p[i] as nat == field_at(block as nat / pow2(2), (78 + 1 * i) as nat, 1),
            r.index_data as nat == field_at(block as nat / pow2(2), 80, 46),
    {
        let mut block = block;
        let _mode = take_bits(&mut block, 2);
        let mut rd = BitReader::new(block);
        let partition = rd.read(6);
        let r = rd.read_array::<4>(6);
        let g = rd.read_array::<4>(6);
        let b = rd.read_array::<4>(6);
        let p = rd.read_array::<2>(1);
        let index_data = rd.read(46);
        proof {
            lemma2_to64();
            lemma2_to64_rest();
            assert(rd.widths@ =~= layout(1));
        }
        let res = Block1 { partition: partition as u8, r, g, b, p, index_data: index_data as u64 };
        proof {
            assert(res@ =~= seq![partition as nat] + nats(r@) + nats(g@) + nats(b@) + nats(p@) + seq![index_data as nat]);
            assert(rd.fields@ =~= seq![partition as nat] + nats(r@) + nats(g@) + nats(b@) + nats(p@) + seq![index_data as nat]);
        }
        res
    }
}

impl Block2 {
    /// Reads the fields of a mode 2 block that follow its 3-bit mode prefix.
    pub fn decode(block: u128) -> (r: Self)
        ensures
            r@ == unpack(block as nat / pow2(3), layout(2)),
            r.partition as nat == field_at(block as nat / pow2(3), 0, 6),
            forall|i: int| 0 <= i < 6 ==> r.r[i] as nat == field_at(block as nat / pow2(3), (6 + 5 * i) as nat, 5),
            forall|i: int| 0 <= i < 6 ==> r.g[i] as nat == field_at(block as nat / pow2(3), (36 + 5 * i) as nat, 5),
            forall|i: int| 0 <= i < 6 ==> r.b[i] as nat == field_at(block as nat / pow2(3), (66 + 5 * i) as nat, 5),
            r.index_data as nat == field_at(block as nat / pow2(3), 96, 29),
    {
        let mut block = block;
        let _mode = take_bits(&mut block, 3);
        let mut rd = BitReader::new(block);
        let partition = rd.read(6);
        let r = rd.read_array::<6>(5);
        let g = rd.read_array::<6>(5);
        let b = rd.read_array::<6>(5);
        let index_data = rd.read(29);
        proof {
            lemma2_to64();
            lemma2_to64_rest();
            assert(rd.widths@ =~= layout(2));
        }
        let res = Block2 { partition: partition as u8, r, g, b, index_data: index_data as u32 };
        proof {
            assert(res@ =~= seq![partition as nat] + nats(r@) + nats(g@) + nats(b@) + seq![index_data as nat]);
            assert(rd.fields@ =~= seq![partition as nat] + nats(r@) + nats(g@) + nats(b@) + seq![index_data as nat]);
        }
        res
    }
}

impl Block3 {
    /// Reads the fields of a mode 3 block that follow its 4-bit mode prefix.
    pub fn decode(block: u128) -> (r: Self)
        ensures
            r@ == unpack(block as nat / pow2(4), layout(3)),
            r.partition as nat == field_at(block as nat / pow2(4), 0, 6),
            forall|i: int| 0 <= i < 4 ==> r.r[i] as nat == field_at(block as nat / pow2(4), (6 + 7 * i) as nat, 7),
            forall|i: int| 0 <= i < 4 ==> r.g[i] as nat == field_at(block as nat / pow2(4), (34 + 7 * i) as nat, 7),
            forall|i: int| 0 <= i < 4 ==> r.b[i] as nat == field_at(block as nat / pow2(4), (62 + 7 * i) as nat, 7),
            forall|i: int| 0 <= i < 4 ==> r.p[i] as nat == field_at(block as nat / pow2(4), (90 + 1 * i) as nat, 1),
            r.index_data as nat == field_at(block as nat / pow2(4), 94, 30),
    {
        let mut block = block;
        let _mode = take_bits(&mut block, 4);
        let mut rd = BitReader::new(block);
        let partition = rd.read(6);
        let r = rd.read_array::<4>(7);
        let g = rd.read_array::<4>(7);
        let b = rd.read_array::<4>(7);
        let p = rd.read_array::<4>(1);
        let index_data = rd.read(30);
        proof {
            lemma2_to64();
            lemma2_to64_rest();
            assert(rd.widths@ =~= layout(3));
        }
        let res = Block3 { partition: partition as u8, r, g, b, p, index_data: index_data as u32 };
        proof {
            assert(res@ =~= seq![partition as nat] + nats(r@) + nats(g@) + nats(b@) + nats(p@) + seq![index_data as nat]);
            assert(rd.fields@ =~= seq![partition as nat] + nats(r@) + nats(g@) + nats(b@) + nats(p@) + seq![index_data as nat]);
        }
        res
    }
}

impl Block4 {
    /// Reads the fields of a mode 4 block that follow its 5-bit mode prefix.
    pub fn decode(block: u128) -> (r: Self)
        ensures
            r@ == unpack(block as nat / pow2(5), layout(4)),
            r.rot.code() == field_at(block as nat / pow2(5), 0, 2),
            r.idx_mode == (field_at(block as nat / pow2(5), 2, 1) == 1),
            forall|i: int| 0 <= i < 2 ==> r.r[i] as nat == field_at(block as nat / pow2(5), (3 + 5 * i) as nat, 5),
            forall|i: int| 0 <= i < 2 ==> r.g[i] as nat == field_at(block as nat / pow2(5), (13 + 5 * i) as nat, 5),
            forall|i: int| 0 <= i < 2 ==> r.b[i] as nat == field_at(block as nat / pow2(5), (23 + 5 * i) as nat, 5),
            forall|i: int| 0 <= i < 2 ==> r.a[i] as nat == field_at(block as nat / pow2(5), (33 + 6 * i) as nat, 6),
            r.index_data0 as nat == field_at(block as nat / pow2(5), 45, 31),
            r.index_data1 as nat == field_at(block as nat / pow2(5), 76, 47),
    {
        let mut block = block;
        let _mode = take_bits(&mut block, 5);
        let mut rd = BitReader::new(block);
        let rot_code = rd.read(2);
        proof {
            lemma2_to64();
        }
        let rot = Rotation::from_u2(rot_code as u8);
        let idx_bit = rd.read(1);
        let idx_mode = idx_bit != 0;
        let r = rd.read_array::<2>(5);
        let g = rd.read_array::<2>(5);
        let b = rd.read_array::<2>(5);
        let a = rd.read_array::<2>(6);
        let index_data0 = rd.read(31);
        let index_data1 = rd.read(47);
        proof {
            lemma2_to64();
            lemma2_to64_rest();
            assert(rd.widths@ =~= layout(4));
        }
        let res = Block4 { rot, idx_mode, r, g, b, a, index_data0: index_data0 as u32, index_data1: index_data1 as u64 };
        proof {
            assert(res@ =~= seq![rot_code as nat] + seq![idx_bit as nat] + nats(r@) + nats(g@) + nats(b@) + nats(a@) + seq![index_data0 as nat] + seq![index_data1 as nat]);
            assert(rd.fields@ =~= seq![rot_code as nat] + seq![idx_bit as nat] + nats(r@) + nats(g@) + nats(b@) + nats(a@) + seq![index_data0 as nat] + seq![index_data1 as nat]);
        }
        res
    }
}

impl Block5 {
    /// Reads the fields of a mode 5 block that follow its 6-bit mode prefix.
    pub fn decode(block: u128) -> (r: Self)
        ensures
            r@ == unpack(block as nat / pow2(6), layout(5)),
            r.rot.code() == field_at(block as nat / pow2(6), 0, 2),
            forall|i: int| 0 <= i < 2 ==> r.r[i] as nat == field_at(block as nat / pow2(6), (2 + 7 * i) as nat, 7),
            forall|i: int| 0 <= i < 2 ==> r.g[i] as nat == field_at(block as nat / pow2(6), (16 + 7 * i) as nat, 7),
            forall|i: int| 0 <= i < 2 ==> r.b[i] as nat == field_at(block as nat / pow2(6), (30 + 7 * i) as nat, 7),
            forall|i: int| 0 <= i < 2 ==> r.a[i] as nat == field_at(block as nat / pow2(6), (44 + 8 * i) as nat, 8),
            r.colors as nat == field_at(block as nat / pow2(6), 60, 31),
            r.alpha as nat == field_at(block as nat / pow2(6), 91, 31),
    {
        let mut block = block;
        let _mode = take_bits(&mut block, 6);
        let mut rd = BitReader::new(block);
        let rot_code = rd.read(2);
        proof {
            lemma2_to64();
        }
        let rot = Rotation::from_u2(rot_code as u8);
        let r = rd.read_array::<2>(7);
        let g = rd.read_array::<2>(7);
        let b = rd.read_array::<2>(7);
        let a = rd.read_array::<2>(8);
        let colors = rd.read(31);
        let alpha = rd.read(31);
        proof {
            lemma2_to64();
            lemma2_to64_rest();
            assert(rd.widths@ =~= layout(5));
        }
        let res = Block5 { rot, r, g, b, a, colors: colors as u32, alpha: alpha as u32 };
        proof {
            assert(res@ =~= seq![rot_code as nat] + nats(r@) + nats(g@) + nats(b@) + nats(a@) + seq![colors as nat] + seq![alpha as nat]);
            assert(rd.fields@ =~= seq![rot_code as nat] + nats(r@) + nats(g@) + nats(b@) + nats(a@) + seq![colors as nat] + seq![alpha as nat]);
        }
        res
    }
}

impl Block6 {
    /// Reads the fields of a mode 6 block that follow its 7-bit mode prefix.
    pub fn decode(block: u128) -> (r: Self)
        ensures
            r@ == unpack(block as nat / pow2(7), layout(6)),
            forall|i: int| 0 <= i < 2 ==> r.r[i] as nat == field_at(block as nat / pow2(7), (0 + 7 * i) as nat, 7),
            forall|i: int| 0 <= i < 2 ==> r.g[i] as nat == field_at(block as nat / pow2(7), (14 + 7 * i) as nat, 7),
            forall|i: int| 0 <= i < 2 ==> r.b[i] as nat == field_at(block as nat / pow2(7), (28 + 7 * i) as nat, 7),
            forall|i: int| 0 <= i < 2 ==> r.a[i] as nat == field_at(block as nat / pow2(7), (42 + 7 * i) as nat, 7),
            forall|i: int| 0 <= i < 2 ==> r.p[i] as nat == field_at(block as nat / pow2(7), (56 + 1 * i) as nat, 1),
            r.index_data as nat == field_at(block as nat / pow2(7), 58, 63),
    {
        let mut block = block;
        let _mode = take_bits(&mut block, 7);
        let mut rd = BitReader::new(block);
        let r = rd.read_array::<2>(7);
        let g = rd.read_array::<2>(7);
        let b = rd.read_array::<2>(7);
        let a = rd.read_array::<2>(7);
        let p = rd.read_array::<2>(1);
        let index_data = rd.read(63);
        proof {
            lemma2_to64();
            lemma2_to64_rest();
            assert(rd.widths@ =~= layout(6));
        }
        let res = Block6 { r, g, b, a, p, index_data: index_data as u64 };
        proof {
            assert(res@ =~= nats(r@) + nats(g@) + nats(b@) + nats(a@) + nats(p@) + seq![index_data as nat]);
            assert(rd.fields@ =~= nats(r@) + nats(g@) + nats(b@) + nats(a@) + nats(p@) + seq![index_data as nat]);
        }
        res
    }
}

impl Block7 {
    /// Reads the fields of a mode 7 block that follow its 8-bit mode prefix.
    pub fn decode(block: u128) -> (r: Self)
        ensures
            r@ == unpack(block as nat / pow2(8), layout(7)),
            r.partition as nat == field_at(block as nat / pow2(8), 0, 6),
            forall|i: int| 0 <= i < 4 ==> r.r[i] as nat == field_at(block as nat / pow2(8), (6 + 5 * i) as nat, 5),
            forall|i: int| 0 <= i < 4 ==> r.g[i] as nat == field_at(block as nat / pow2(8), (26 + 5 * i) as nat, 5),
            forall|i: int| 0 <= i < 4 ==> r.b[i] as nat == field_at(block as nat / pow2(8), (46 + 5 * i) as nat, 5),
            forall|i: int| 0 <= i < 4 ==> r.a[i] as nat == field_at(block as nat / pow2(8), (66 + 5 * i) as nat, 5),
            forall|i: int| 0 <= i < 4 ==> r.p[i] as nat == field_at(block as nat / pow2(8), (86 + 1 * i) as nat, 1),
            r.index_data as nat == field_at(block as nat / pow2(8), 90, 30),
    {
        let mut block = block;
        let _mode = take_bits(&mut block, 8);
        let mut rd = BitReader::new(block);
        let partition = rd.read(6);
        let r = rd.read_array::<4>(5);
        let g = rd.read_array::<4>(5);
        let b = rd.read_array::<4>(5);
        let a = rd.read_array::<4>(5);
        let p = rd.read_array::<4>(1);
        let index_data = rd.read(30);
        proof {
            lemma2_to64();
            lemma2_to64_rest();
            assert(rd.widths@ =~= layout(7));
        }
        let res = Block7 { partition: partition as u8, r, g, b, a, p, index_data: index_data as u32 };
        proof {
            assert(res@ =~= seq![partition as nat] + nats(r@) + nats(g@) + nats(b@) + nats(a@) + nats(p@) + seq![index_data as nat]);
            assert(rd.fields@ =~= seq![partition as nat] + nats(r@) + nats(g@) + nats(b@) + nats(a@) + nats(p@) + seq![index_data as nat]);
        }
        res
    }
}

} // verus!
