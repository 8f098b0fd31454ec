//! Reading, editing and writing "bigblob" asset archives, with the BC7 and DDS codecs
//! that their textures need.
use vstd::prelude::*;
use vstd::string::StringSliceAdditionalSpecFns;
use vstd::utf8::{decode_utf8, valid_utf8};

pub mod bc7;
pub mod bitstream;
pub mod dds;
pub mod encoding;
pub mod le;
pub mod replace;
pub mod surface;

use crate::le::{le_u32_at, read_u32_le};

verus! {

/// `v` rounded up to a multiple of `a`.
pub open spec fn aligned(v: nat, a: nat) -> nat {
    ((v + a - 1) / a as int) as nat * a
}

/// Rounds `v` up to the next multiple of `ALIGN`.
pub fn align_up<const ALIGN: u32>(v: u32) -> (r: u32)
    requires
        ALIGN > 0,
        v + ALIGN - 1 <= u32::MAX,
    ensures
        r == aligned(v as nat, ALIGN as nat),
{
    let q = (v + (ALIGN - 1)) / ALIGN;
    proof {
        assert(q * ALIGN <= v + ALIGN - 1) by (nonlinear_arith)
            requires
                q as int == (v as int + ALIGN as int - 1) / (ALIGN as int),
                ALIGN > 0,
        ;
    }
    q * ALIGN
}

/// Rounding up to a multiple is idempotent.
pub proof fn lemma_aligned_idempotent(v: nat, a: nat)
    requires
        a > 0,
    ensures
        aligned(aligned(v, a), a) == aligned(v, a),
        aligned(v, a) >= v,
{
    let k = ((v + a - 1) / a as int) as nat;
    assert(k * a + a - 1 == (a * k) + (a - 1)) by (nonlinear_arith);
    vstd::arithmetic::div_mod::lemma_fundamental_div_mod_converse(
        (k * a + a - 1) as int,
        a as int,
        k as int,
        (a - 1) as int,
    );
    vstd::arithmetic::div_mod::lemma_fundamental_div_mod((v + a - 1) as int, a as int);
    vstd::arithmetic::div_mod::lemma_mod_bound((v + a - 1) as int, a as int);
    assert(a * k + (v + a - 1) % (a as int) == v + a - 1);
    assert(k * a == a * k) by (nonlinear_arith);
}

/// The table of contents of an archive.
#[derive(Debug)]
pub struct Toc {
    pub entries: Vec<DecodedEntry>,
}

/// The kind of an entry as the table of contents records it: 0 is an image, 1 a sound.
#[derive(Debug, PartialEq, Eq, Clone, Copy, Structural)]
pub enum FileType {
    Image,
    Sound,
    Unknown,
}

/// One entry of the table of contents.
#[derive(Debug)]
pub struct DecodedEntry {
    pub name: String,
    pub file_type: FileType,
    pub size: u32,
    pub offset: u32,
    pub size_decompressed: u32,
    pub width: u32,
    pub height: u32,
    pub unks: [(u32, u32); 3],
}

/// Why a table of contents could not be read.
#[derive(Debug, PartialEq, Eq, Clone, Copy, Structural)]
pub enum TocError {
    /// The data ends inside a field.
    UnexpectedEof,
    /// An entry name is not UTF-8.
    InvalidName,
}

pub open spec fn file_type_of(code: nat) -> FileType {
    if code == 0 {
        FileType::Image
    } else if code == 1 {
        FileType::Sound
    } else {
        FileType::Unknown
    }
}

/// Bytes of an entry record in front of its name.
pub const ENTRY_FIXED_BYTES: usize = 52;

/// Where the entry record at `pos` ends.
pub open spec fn entry_end(d: Seq<u8>, pos: nat) -> nat {
    pos + 52 + le_u32_at(d, pos + 48)
}

/// Whether a whole entry record lies in `d` at `pos` with a UTF-8 name.
pub open spec fn entry_ok(d: Seq<u8>, pos: nat) -> bool {
    &&& pos + 52 <= d.len()
    &&& entry_end(d, pos) <= d.len()
    &&& valid_utf8(d.subrange((pos + 52) as int, entry_end(d, pos) as int))
}

/// `e` holds the fields of the entry record at `pos`.
pub open spec fn entry_matches(d: Seq<u8>, pos: nat, e: &DecodedEntry) -> bool {
    &&& e.file_type == file_type_of(le_u32_at(d, pos))
    &&& e.size_decompressed == le_u32_at(d, pos + 4)
    &&& e.size == le_u32_at(d, pos + 8)
    &&& e.unks[0] == (le_u32_at(d, pos + 12) as u32, le_u32_at(d, pos + 16) as u32)
    &&& e.unks[1] == (le_u32_at(d, pos + 20) as u32, le_u32_at(d, pos + 24) as u32)
    &&& e.unks[2] == (le_u32_at(d, pos + 28) as u32, le_u32_at(d, pos + 32) as u32)
    &&& e.width == le_u32_at(d, pos + 36)
    &&& e.height == le_u32_at(d, pos + 40)
    &&& e.offset == le_u32_at(d, pos + 44)
    &&& e.name@ == decode_utf8(d.subrange((pos + 52) as int, entry_end(d, pos) as int))
}

/// Relies on `String::from_utf8`: it succeeds exactly on valid UTF-8, and the string then
/// holds the characters that the bytes encode.
#[verifier::external_body]
fn string_from_utf8(bytes: Vec<u8>) -> (r: Option<String>)
    ensures
        r is Some <==> valid_utf8(bytes@),
        r matches Some(s) ==> s@ == decode_utf8(bytes@),
{
    String::from_utf8(bytes).ok()
}

/// Reads the entry record at `pos`; on success also returns where it ends.
pub fn read_entry(d: &[u8], pos: usize) -> (r: Result<(DecodedEntry, usize), TocError>)
    ensures
        r is Ok <==> entry_ok(d@, pos as nat),
        r matches Ok((e, next)) ==> entry_matches(d@, pos as nat, &e) && next == entry_end(d@, pos as nat),
        r == Err::<(DecodedEntry, usize), TocError>(TocError::InvalidName) ==> pos + 52 <= d@.len() && entry_end(
            d@,
            pos as nat,
        ) <= d@.len(),
{
    if pos > d.len() || d.len() - pos < ENTRY_FIXED_BYTES {
        return Err(TocError::UnexpectedEof);
    }
    let code = read_u32_le(d, pos).unwrap();
    let size_decompressed = read_u32_le(d, pos + 4).unwrap();
    let size = read_u32_le(d, pos + 8).unwrap();
    let u0 = read_u32_le(d, pos + 12).unwrap();
    let u1 = read_u32_le(d, pos + 16).unwrap();
    let u2 = read_u32_le(d, pos + 20).unwrap();
    let u3 = read_u32_le(d, pos + 24).unwrap();
    let u4 = read_u32_le(d, pos + 28).unwrap();
    let u5 = read_u32_le(d, pos + 32).unwrap();
    let width = read_u32_le(d, pos + 36).unwrap();
    let height = read_u32_le(d, pos + 40).unwrap();
    let offset = read_u32_le(d, pos + 44).unwrap();
    let name_len = read_u32_le(d, pos + 48).unwrap();
    let start = pos + ENTRY_FIXED_BYTES;
    if (name_len as usize) > d.len() - start {
        return Err(TocError::UnexpectedEof);
    }
    let end = start + name_len as usize;
    let mut name_buf: Vec<u8> = Vec::new();
    let mut i = start;
    while i < end
        invariant
            start <= i <= end,
            end <= d@.len(),
            name_buf@ == d@.subrange(start as int, i as int),
        decreases end - i,
    {
        name_buf.push(d[i]);
        i = i + 1;
        proof {
            assert(name_buf@ =~= d@.subrange(start as int, i as int));
        }
    }
    let name = match string_from_utf8(name_buf) {
        Some(s) => s,
        None => return Err(TocError::InvalidName),
    };
    let file_type = if code == 0 {
        FileType::Image
    } else if code == 1 {
        FileType::Sound
    } else {
        FileType::Unknown
    };
    let e = DecodedEntry {
        name,
        file_type,
        size,
        offset,
        size_decompressed,
        width,
        height,
        unks: [(u0, u1), (u2, u3), (u4, u5)],
    };
    Ok((e, end))
}

/// Where entry `i` of the table that starts at `start` begins.
pub open spec fn entry_pos(d: Seq<u8>, start: nat, i: nat) -> nat
    decreases i,
{
    if i == 0 {
        start
    } else {
        entry_end(d, entry_pos(d, start, (i - 1) as nat))
    }
}

/// The table of contents lies in `d`: the header word points at an entry count followed
/// by that many complete entries with UTF-8 names.
pub open spec fn toc_ok(d: Seq<u8>) -> bool {
    &&& d.len() >= 4
    &&& le_u32_at(d, 0) + 4 <= d.len()
    &&& forall|i: nat| i < le_u32_at(d, le_u32_at(d, 0)) ==> entry_ok(d, #[trigger] entry_pos(d, le_u32_at(d, 0) + 4, i))
}

/// Reads the table of contents of the archive held in `d`.
pub fn read_toc(d: &[u8]) -> (r: Result<Toc, TocError>)
    ensures
        r is Ok <==> toc_ok(d@),
        r matches Ok(toc) ==> {
            let start = le_u32_at(d@, 0) + 4;
            &&& toc.entries@.len() == le_u32_at(d@, le_u32_at(d@, 0))
            &&& forall|i: int| 0 <= i < toc.entries@.len() ==> entry_matches(d@, #[trigger] entry_pos(d@, start, i as nat), &toc.entries@[i])
        },
{
    let toc_index = match read_u32_le(d, 0) {
        Some(v) => v,
        None => return Err(TocError::UnexpectedEof),
    };
    let count = match read_u32_le(d, toc_index as usize) {
        Some(v) => v,
        None => return Err(TocError::UnexpectedEof),
    };
    let ghost start = toc_index as nat + 4;
    let dl = d.len();
    assert(toc_index + 4 <= dl);
    let mut pos: usize = toc_index as usize + 4;
    let mut entries: Vec<DecodedEntry> = Vec::new();
    let mut i: u32 = 0;
    while i < count
        invariant
            i <= count,
            d@.len() >= 4,
            toc_index == le_u32_at(d@, 0),
            count == le_u32_at(d@, toc_index as nat),
            toc_index + 4 <= d@.len(),
            start == toc_index + 4,
            pos == entry_pos(d@, start, i as nat),
            entries@.len() == i,
            forall|j: nat| j < i ==> entry_ok(d@, #[trigger] entry_pos(d@, start, j)),
            forall|j: int| 0 <= j < i ==> entry_matches(d@, #[trigger] entry_pos(d@, start, j as nat), &entries@[j]),
        decreases count - i,
    {
        let res = read_entry(d, pos);
        match res {
            Ok((e, next)) => {
                entries.push(e);
                pos = next;
            },
            Err(err) => {
                proof {
                    assert(!entry_ok(d@, entry_pos(d@, start, i as nat)));
                }
                return Err(err);
            },
        }
        i = i + 1;
    }
    Ok(Toc { entries })
}

/// How extracted images are written.
#[derive(Debug, PartialEq, Eq, Clone, Copy, Structural)]
pub enum Format {
    Dds,
    Png,
}

/// The byte with ASCII upper-case letters turned to lower case.
pub open spec fn ascii_lower(b: u8) -> u8 {
    if 65 <= b <= 90 {
        (b + 32) as u8
    } else {
        b
    }
}

/// Whether `s`, ASCII letters compared without case, is the three letters `a`, `b`, `c`.
pub open spec fn is_word3(s: Seq<u8>, a: u8, b: u8, c: u8) -> bool {
    s.len() == 3 && ascii_lower(s[0]) == a && ascii_lower(s[1]) == b && ascii_lower(s[2]) == c
}

fn lower(b: u8) -> (r: u8)
    ensures
        r == ascii_lower(b),
{
    if 65 <= b && b <= 90 {
        b + 32
    } else {
        b
    }
}

/// Reads an image format name, "dds" or "png", ignoring ASCII case.
pub fn parse_format(s: &str) -> (r: Option<Format>)
    ensures
        r == Some(Format::Dds) <==> is_word3(s.spec_bytes(), 100, 100, 115),
        r == Some(Format::Png) <==> is_word3(s.spec_bytes(), 112, 110, 103),
{
    let b = s.as_bytes();
    if b.len() != 3 {
        return None;
    }
    let (c0, c1, c2) = (lower(b[0]), lower(b[1]), lower(b[2]));
    if c0 == 100 && c1 == 100 && c2 == 115 {
        Some(Format::Dds)
    } else if c0 == 112 && c1 == 110 && c2 == 103 {
        Some(Format::Png)
    } else {
        None
    }
}

impl std::str::FromStr for Format {
    type Err = &'static str;

    fn from_str(s: &str) -> Result<Self, Self::Err> {
        match parse_format(s) {
            Some(f) => Ok(f),
            None => Err("Invalid format"),
        }
    }
}

} // verus!
