//! The in-memory archive: entries read from an archive file, edited, and written back.
use crate::dds::words_le;
use crate::le::{le_bytes, push_u32_le};
use crate::{DecodedEntry, Toc};
use vstd::prelude::*;
use vstd::utf8::encode_utf8;

verus! {

/// What LZ4 block compression (no frame header) makes of `data`.
pub uninterp spec fn lz4_compressed(data: Seq<u8>) -> Seq<u8>;

/// Relies on `lz4_flex::block::compress`: the raw LZ4 block of `data`, which depends on
/// the data alone.
#[verifier::external_body]
pub(crate) fn lz4_compress(data: &[u8]) -> (r: Vec<u8>)
    ensures
        r@ == lz4_compressed(data@),
{
    lz4_flex::block::compress(data)
}

#[derive(Debug, PartialEq, Eq, Clone, Copy)]
pub enum FileType {
    Image { width: u32, height: u32, unks: [(u32, u32); 3] },
    Sound,
}

#[derive(Debug, Clone)]
pub enum Data {
    /// The payload as stored in an archive, with its size once inflated.
    Compressed { data: Vec<u8>, uncompressed_size: u32 },
    /// Fresh content, compressed when the archive is written.
    Raw(Vec<u8>),
}

#[derive(Debug, Clone)]
pub struct Entry {
    pub name: String,
    pub file_type: FileType,
    pub data: Data,
}

#[derive(Debug, Clone)]
pub struct Archive {
    pub entries: Vec<Entry>,
}

#[derive(Debug, PartialEq, Eq, Clone, Copy, Structural)]
pub enum ArchiveError {
    /// A table entry is neither an image nor a sound.
    UnknownFileType,
    /// Offsets, sizes or counts of the archive to write do not fit in 32 bits.
    TooLarge,
}

/// The bytes of `file` that `take(size)` reads after seeking to `offset`: the range,
/// cut at the end of the file.
pub open spec fn section(file: Seq<u8>, offset: nat, size: nat) -> Seq<u8> {
    let start = if offset < file.len() { offset } else { file.len() };
    let end = if offset + size < file.len() { offset + size } else { file.len() };
    file.subrange(start as int, end as int)
}

/// Copies the bytes of `file` in `offset..offset + size` that exist: what reading `size`
/// bytes after seeking to `offset` gives.
pub fn read_section(file: &[u8], offset: u32, size: u32) -> (r: Vec<u8>)
    ensures
        r@ == section(file@, offset as nat, size as nat),
{
    let n = file.len();
    let start: usize = if (offset as usize) < n { offset as usize } else { n };
    let end: usize = if (size as usize) < n - start { start + size as usize } else { n };
    let mut out: Vec<u8> = Vec::new();
    let mut i = start;
    while i < end
        invariant
            start <= i <= end <= n,
            n == file@.len(),
            out@ == file@.subrange(start as int, i as int),
        decreases end - i,
    {
        out.push(file[i]);
        i = i + 1;
        proof {
            assert(out@ =~= file@.subrange(start as int, i as int));
        }
    }
    out
}

impl Archive {
    /// Loads every entry of `toc` from the archive bytes `file`, keeping its payload
    /// compressed. An entry of unknown type makes the whole load fail.
    pub fn from_file_and_toc(file: &[u8], toc: Toc) -> (r: Result<Archive, ArchiveError>)
        ensures
            r is Err <==> exists|i: int| 0 <= i < toc.entries@.len() && toc.entries@[i].file_type == crate::FileType::Unknown,
            r matches Ok(a) ==> {
                &&& a.entries@.len() == toc.entries@.len()
                &&& forall|i: int| 0 <= i < a.entries@.len() ==> #[trigger] loaded_from(a.entries@[i], toc.entries@[i], file@)
            },
    {
        let mut entries: Vec<Entry> = Vec::new();
        let n = toc.entries.len();
        let mut i: usize = 0;
        while i < n
            invariant
                i <= n,
                n == toc.entries@.len(),
                entries@.len() == i,
                forall|j: int| 0 <= j < i ==> toc.entries@[j].file_type != crate::FileType::Unknown,
                forall|j: int| 0 <= j < i ==> #[trigger] loaded_from(entries@[j], toc.entries@[j], file@),
            decreases n - i,
        {
            let te = &toc.entries[i];
            let file_type = match te.file_type {
                crate::FileType::Image => FileType::Image { width: te.width, height: te.height, unks: te.unks },
                crate::FileType::Sound => FileType::Sound,
                crate::FileType::Unknown => return Err(ArchiveError::UnknownFileType),
            };
            let data = read_section(file, te.offset, te.size);
            let name = te.name.clone();
            entries.push(Entry {
                name,
                file_type,
                data: Data::Compressed { data, uncompressed_size: te.size_decompressed },
            });
            i = i + 1;
        }
        Ok(Archive { entries })
    }
}

/// `e` is the entry that loading `t` from `file` gives.
pub open spec fn loaded_from(e: Entry, t: DecodedEntry, file: Seq<u8>) -> bool {
    &&& e.name@ == t.name@
    &&& match t.file_type {
        crate::FileType::Image => e.file_type == FileType::Image { width: t.width, height: t.height, unks: t.unks },
        _ => e.file_type == FileType::Sound,
    }
    &&& e.data matches Data::Compressed { data, uncompressed_size } && data@ == section(file, t.offset as nat, t.size as nat)
        && uncompressed_size == t.size_decompressed
}

/// The payload that an entry stores in the archive.
pub open spec fn stored_payload(e: Entry) -> Seq<u8> {
    match e.data {
        Data::Compressed { data, .. } => data@,
        Data::Raw(d) => lz4_compressed(d@),
    }
}

/// The inflated size recorded for an entry.
pub open spec fn stored_size(e: Entry) -> nat {
    match e.data {
        Data::Compressed { uncompressed_size, .. } => uncompressed_size as nat,
        Data::Raw(d) => d@.len(),
    }
}

/// All payloads, in entry order.
pub open spec fn payload_bytes(es: Seq<Entry>) -> Seq<u8>
    decreases es.len(),
{
    if es.len() == 0 {
        Seq::empty()
    } else {
        payload_bytes(es.drop_last()) + stored_payload(es.last())
    }
}

/// The type, width, height and metadata pairs that a record stores; a sound stores zeros.
pub open spec fn record_type_fields(e: Entry) -> Seq<u32> {
    match e.file_type {
        FileType::Image { width, height, unks } => seq![0u32, unks[0].0, unks[0].1, unks[1].0, unks[1].1, unks[2].0, unks[2].1, width, height],
        FileType::Sound => seq![1u32, 0u32, 0u32, 0u32, 0u32, 0u32, 0u32, 0u32, 0u32],
    }
}

/// The table record of an entry whose payload starts at `offset`.
pub open spec fn record_bytes(e: Entry, offset: nat) -> Seq<u8> {
    let t = record_type_fields(e);
    let name = encode_utf8(e.name@);
    words_le(
        seq![t[0], stored_size(e) as u32, stored_payload(e).len() as u32, t[1], t[2], t[3], t[4], t[5], t[6], t[7], t[8], offset as u32, name.len() as u32],
    ) + name
}

/// All table records; each payload starts right after the previous one, the first at 4.
pub open spec fn record_list(es: Seq<Entry>) -> Seq<u8>
    decreases es.len(),
{
    if es.len() == 0 {
        Seq::empty()
    } else {
        record_list(es.drop_last()) + record_bytes(es.last(), 4 + payload_bytes(es.drop_last()).len())
    }
}

/// The whole archive file: the table offset, the payloads, the entry count and the table.
#[verifier::opaque]
pub open spec fn archive_bytes(es: Seq<Entry>) -> Seq<u8> {
    le_bytes((4 + payload_bytes(es).len()) as u32) + payload_bytes(es) + le_bytes(es.len() as u32) + record_list(es)
}

/// Whether every offset, size, count and name length of the archive fits in 32 bits.
pub open spec fn fits_u32(es: Seq<Entry>) -> bool {
    &&& 4 + payload_bytes(es).len() <= u32::MAX
    &&& es.len() <= u32::MAX
    &&& forall|i: int| 0 <= i < es.len() ==> encode_utf8(#[trigger] es[i].name@).len() <= u32::MAX
}

proof fn lemma_payload_prefix(es: Seq<Entry>, i: int)
    requires
        0 <= i <= es.len(),
    ensures
        payload_bytes(es.subrange(0, i)).len() <= payload_bytes(es).len(),
    decreases es.len() - i,
{
    if i < es.len() {
        lemma_payload_prefix(es, i + 1);
        assert(es.subrange(0, i + 1).drop_last() =~= es.subrange(0, i));
    } else {
        assert(es.subrange(0, i) =~= es);
    }
}

impl Archive {
    /// The archive file for these entries: raw data is LZ4-compressed, and offsets, sizes
    /// and counts are recomputed.
    pub fn write_to_file(self) -> (r: Result<Vec<u8>, ArchiveError>)
        ensures
            r is Ok <==> fits_u32(self.entries@),
            r matches Ok(bytes) ==> bytes@ == archive_bytes(self.entries@),
    {
        write_entries(&self.entries)
    }
}

/// The archive file for `es`; see `Archive::write_to_file`.
fn write_entries(es: &Vec<Entry>) -> (r: Result<Vec<u8>, ArchiveError>)
    ensures
        r is Ok <==> fits_u32(es@),
        r matches Ok(bytes) ==> bytes@ == archive_bytes(es@),
{
    let ghost s = es@;
    let n = es.len();
    // First pass: each entry's stored payload and inflated size.
    let mut payloads: Vec<Vec<u8>> = Vec::new();
    let mut sizes: Vec<u32> = Vec::new();
    let mut total: usize = 0;
    let mut i: usize = 0;
    while i < n
        invariant
            i <= n,
            n == s.len(),
            s == es@,
            payloads@.len() == i,
            sizes@.len() == i,
            forall|j: int| 0 <= j < i ==> (#[trigger] payloads@[j])@ == stored_payload(s[j]),
            forall|j: int| 0 <= j < i ==> #[trigger] sizes@[j] == stored_size(s[j]) as u32,
            total == payload_bytes(s.subrange(0, i as int)).len(),
            total + 4 <= u32::MAX,
        decreases n - i,
    {
        let e = &es[i];
        let (p, u) = match &e.data {
            Data::Compressed { data, uncompressed_size } => (data.clone(), *uncompressed_size),
            Data::Raw(d) => (lz4_compress(d.as_slice()), d.len() as u32),
        };
        proof {
            assert(s.subrange(0, i + 1).drop_last() =~= s.subrange(0, i as int));
            assert(s.subrange(0, i + 1).last() == s[i as int]);
        }
        if p.len() > u32::MAX as usize - 4 - total {
            proof {
                lemma_payload_prefix(s, i + 1);
                assert(payload_bytes(s.subrange(0, i + 1)) == payload_bytes(s.subrange(0, i as int)) + stored_payload(s[i as int]));
                assert(p@ == stored_payload(s[i as int]));
                assert(!fits_u32(s));
            }
            return Err(ArchiveError::TooLarge);
        }
        total = total + p.len();
        payloads.push(p);
        sizes.push(u);
        i = i + 1;
    }
    proof {
        assert(s.subrange(0, n as int) =~= s);
        assert(total == payload_bytes(s).len());
    }
    if n > u32::MAX as usize {
        return Err(ArchiveError::TooLarge);
    }
    let mut out: Vec<u8> = Vec::new();
    push_u32_le(&mut out, (total + 4) as u32);
    // Second pass: the payloads.
    let mut i: usize = 0;
    while i < n
        invariant
            i <= n,
            n == s.len(),
            payloads@.len() == n,
            forall|j: int| 0 <= j < n ==> (#[trigger] payloads@[j])@ == stored_payload(s[j]),
            out@ == le_bytes((4 + payload_bytes(s).len()) as u32) + payload_bytes(s.subrange(0, i as int)),
        decreases n - i,
    {
        let p = &payloads[i];
        let mut k: usize = 0;
        let ghost before = out@;
        while k < p.len()
            invariant
                k <= p@.len(),
                out@ == before + p@.subrange(0, k as int),
            decreases p@.len() - k,
        {
            out.push(p[k]);
            k = k + 1;
            proof {
                assert(out@ =~= before + p@.subrange(0, k as int));
            }
        }
        proof {
            assert(p@.subrange(0, p@.len() as int) =~= p@);
            assert(s.subrange(0, i + 1).drop_last() =~= s.subrange(0, i as int));
        }
        i = i + 1;
    }
    proof {
        assert(s.subrange(0, n as int) =~= s);
    }
    push_u32_le(&mut out, n as u32);
    // Third pass: the table, with each payload's offset.
    let ghost head = out@;
    let mut offset: usize = 4;
    let mut i: usize = 0;
    while i < n
        invariant
            i <= n,
            n == s.len(),
            s == es@,
            payloads@.len() == n,
            sizes@.len() == n,
            forall|j: int| 0 <= j < n ==> (#[trigger] payloads@[j])@ == stored_payload(s[j]),
            forall|j: int| 0 <= j < n ==> #[trigger] sizes@[j] == stored_size(s[j]) as u32,
            offset == 4 + payload_bytes(s.subrange(0, i as int)).len(),
            4 + payload_bytes(s).len() <= u32::MAX,
            forall|j: int| 0 <= j < i ==> encode_utf8(#[trigger] s[j].name@).len() <= u32::MAX,
            out@ == head + record_list(s.subrange(0, i as int)),
        decreases n - i,
    {
        let e = &es[i];
        let (tag, width, height, unks): (u32, u32, u32, [(u32, u32); 3]) = match e.file_type {
            FileType::Image { width, height, unks } => (0, width, height, unks),
            FileType::Sound => (1, 0, 0, [(0, 0); 3]),
        };
        let name = e.name.as_str().as_bytes();
        if name.len() > u32::MAX as usize {
            proof {
                assert(encode_utf8(s[i as int].name@).len() > u32::MAX);
                assert(!fits_u32(s));
            }
            return Err(ArchiveError::TooLarge);
        }
        proof {
            lemma_payload_prefix(s, i + 1);
            assert(s.subrange(0, i + 1).drop_last() =~= s.subrange(0, i as int));
            assert(s.subrange(0, i + 1).last() == s[i as int]);
        }
        let ghost before = out@;
        let words: Vec<u32> = vec![
            tag,
            sizes[i],
            payloads[i].len() as u32,
            unks[0].0,
            unks[0].1,
            unks[1].0,
            unks[1].1,
            unks[2].0,
            unks[2].1,
            width,
            height,
            offset as u32,
            name.len() as u32,
        ];
        let mut k: usize = 0;
        while k < 13
            invariant
                k <= 13,
                words@.len() == 13,
                out@ == before + words_le(words@.subrange(0, k as int)),
            decreases 13 - k,
        {
            proof {
                crate::dds::lemma_words_le_push(words@.subrange(0, k as int), words@[k as int]);
                assert(words@.subrange(0, k as int).push(words@[k as int]) =~= words@.subrange(0, k + 1));
            }
            push_u32_le(&mut out, words[k]);
            k = k + 1;
        }
        let ghost mid = out@;
        let mut k: usize = 0;
        while k < name.len()
            invariant
                k <= name@.len(),
                out@ == mid + name@.subrange(0, k as int),
            decreases name@.len() - k,
        {
            out.push(name[k]);
            k = k + 1;
            proof {
                assert(out@ =~= mid + name@.subrange(0, k as int));
            }
        }
        proof {
            assert(words@.subrange(0, 13) =~= words@);
            assert(name@.subrange(0, name@.len() as int) =~= name@);
            assert(payloads@[i as int]@.len() == stored_payload(s[i as int]).len());
            let t = record_type_fields(s[i as int]);
            assert(t == seq![tag, unks[0].0, unks[0].1, unks[1].0, unks[1].1, unks[2].0, unks[2].1, width, height]);
            assert(words@ =~= seq![t[0], stored_size(s[i as int]) as u32, stored_payload(s[i as int]).len() as u32, t[1], t[2], t[3], t[4], t[5], t[6], t[7], t[8], offset as u32, encode_utf8(s[i as int].name@).len() as u32]);
            assert(out@ =~= head + record_list(s.subrange(0, i + 1)));
        }
        offset = offset + payloads[i].len();
        i = i + 1;
    }
    proof {
        assert(s.subrange(0, n as int) =~= s);
        reveal(archive_bytes);
        assert(out@ =~= archive_bytes(s));
    }
    Ok(out)
}

/// A payload stays where it was put when later payloads follow it.
proof fn lemma_payload_stays(es: Seq<Entry>, i: int, j: int)
    requires
        0 <= i < j <= es.len(),
    ensures
        ({
            let off = payload_bytes(es.subrange(0, i)).len();
            let len = stored_payload(es[i]).len();
            &&& off + len <= payload_bytes(es.subrange(0, j)).len()
            &&& payload_bytes(es.subrange(0, j)).subrange(off as int, (off + len) as int) == stored_payload(es[i])
        }),
    decreases j - i,
{
    let off = payload_bytes(es.subrange(0, i)).len();
    let len = stored_payload(es[i]).len();
    if j == i + 1 {
        assert(es.subrange(0, j).drop_last() =~= es.subrange(0, i));
        assert(es.subrange(0, j).last() == es[i]);
        assert(payload_bytes(es.subrange(0, j)).subrange(off as int, (off + len) as int) =~= stored_payload(es[i]));
    } else {
        lemma_payload_stays(es, i, j - 1);
        assert(es.subrange(0, j).drop_last() =~= es.subrange(0, j - 1));
        let p = payload_bytes(es.subrange(0, j - 1));
        assert(payload_bytes(es.subrange(0, j)) == p + stored_payload(es.subrange(0, j).last()));
        assert(payload_bytes(es.subrange(0, j)).subrange(off as int, (off + len) as int) =~= p.subrange(off as int, (off + len) as int));
    }
}

/// In a written archive the header word is the offset of the table, which follows all
/// payloads, and the payload of each entry lies at the offset that its record gives
/// (4 plus the sizes of the payloads before it).
pub proof fn lemma_archive_layout(es: Seq<Entry>, i: int)
    requires
        fits_u32(es),
        0 <= i < es.len(),
    ensures
        crate::le::le_u32_at(archive_bytes(es), 0) == 4 + payload_bytes(es).len(),
        ({
            let off = 4 + payload_bytes(es.subrange(0, i)).len();
            let len = stored_payload(es[i]).len();
            &&& off + len <= 4 + payload_bytes(es).len()
            &&& archive_bytes(es).subrange(off as int, (off + len) as int) == stored_payload(es[i])
        }),
{
    reveal(archive_bytes);
    let v = (4 + payload_bytes(es).len()) as u32;
    crate::le::lemma_le_round_trip(v);
    let a = archive_bytes(es);
    let head = le_bytes(v);
    assert(a[0] == head[0] && a[1] == head[1] && a[2] == head[2] && a[3] == head[3]);
    lemma_payload_stays(es, i, es.len() as int);
    assert(es.subrange(0, es.len() as int) =~= es);
    let off = payload_bytes(es.subrange(0, i)).len();
    let len = stored_payload(es[i]).len();
    let pb = payload_bytes(es);
    assert(a.subrange((4 + off) as int, (4 + off + len) as int) =~= pb.subrange(off as int, (off + len) as int));
}

/// The 13 words in front of the name in an entry's record.
pub open spec fn record_words(e: Entry, offset: nat) -> Seq<u32> {
    let t = record_type_fields(e);
    seq![t[0], stored_size(e) as u32, stored_payload(e).len() as u32, t[1], t[2], t[3], t[4], t[5], t[6], t[7], t[8], offset as u32, encode_utf8(e.name@).len() as u32]
}

/// A record stays where it was put when later records follow it.
proof fn lemma_record_stays(es: Seq<Entry>, i: int, j: int)
    requires
        0 <= i < j <= es.len(),
    ensures
        ({
            let off = record_list(es.subrange(0, i)).len();
            let rb = record_bytes(es[i], 4 + payload_bytes(es.subrange(0, i)).len());
            &&& off + rb.len() <= record_list(es.subrange(0, j)).len()
            &&& record_list(es.subrange(0, j)).subrange(off as int, (off + rb.len()) as int) == rb
        }),
    decreases j - i,
{
    let off = record_list(es.subrange(0, i)).len();
    let rb = record_bytes(es[i], 4 + payload_bytes(es.subrange(0, i)).len());
    assert(es.subrange(0, j).drop_last() =~= es.subrange(0, j - 1));
    if j == i + 1 {
        assert(es.subrange(0, j).last() == es[i]);
        assert(record_list(es.subrange(0, j)).subrange(off as int, (off + rb.len()) as int) =~= rb);
    } else {
        lemma_record_stays(es, i, j - 1);
        let p = record_list(es.subrange(0, j - 1));
        assert(record_list(es.subrange(0, j)).subrange(off as int, (off + rb.len()) as int) =~= p.subrange(off as int, (off + rb.len()) as int));
    }
}

/// Two entry lists that store the same payloads, sizes, types and names give the same
/// archive.
proof fn lemma_same_archive(a: Seq<Entry>, b: Seq<Entry>, k: int)
    requires
        a.len() == b.len(),
        0 <= k <= a.len(),
        forall|i: int| 0 <= i < a.len() ==> {
            &&& stored_payload(#[trigger] a[i]) == stored_payload(b[i])
            &&& stored_size(a[i]) as u32 == stored_size(b[i]) as u32
            &&& record_type_fields(a[i]) == record_type_fields(b[i])
            &&& a[i].name@ == b[i].name@
        },
    ensures
        payload_bytes(a.subrange(0, k)) == payload_bytes(b.subrange(0, k)),
        record_list(a.subrange(0, k)) == record_list(b.subrange(0, k)),
    decreases k,
{
    if k > 0 {
        lemma_same_archive(a, b, k - 1);
        assert(a.subrange(0, k).drop_last() =~= a.subrange(0, k - 1));
        assert(b.subrange(0, k).drop_last() =~= b.subrange(0, k - 1));
        assert(a.subrange(0, k).last() == a[k - 1]);
        assert(b.subrange(0, k).last() == b[k - 1]);
    } else {
        assert(a.subrange(0, 0) =~= Seq::<Entry>::empty());
        assert(b.subrange(0, 0) =~= Seq::<Entry>::empty());
    }
}

proof fn lemma_le_at_shift(a: Seq<u8>, p: nat, b: Seq<u8>, q: nat)
    requires
        p + 4 <= a.len(),
        q + 4 <= b.len(),
        a[p as int] == b[q as int],
        a[p + 1int] == b[q + 1int],
        a[p + 2int] == b[q + 2int],
        a[p + 3int] == b[q + 3int],
    ensures
        crate::le::le_u32_at(a, p) == crate::le::le_u32_at(b, q),
{
}

/// Where the records start in a written archive: after the header word, the payloads and
/// the entry count.
pub open spec fn records_start(es: Seq<Entry>) -> nat {
    8 + payload_bytes(es).len()
}

/// Facts about record `i` of a written archive: it sits at its place in the table, its
/// words read back, and it ends right before the next one.
proof fn lemma_record_in_archive(es: Seq<Entry>, i: int)
    requires
        fits_u32(es),
        0 <= i < es.len(),
    ensures
        ({
            let d = archive_bytes(es);
            let pos = records_start(es) + record_list(es.subrange(0, i)).len();
            let ws = record_words(es[i], 4 + payload_bytes(es.subrange(0, i)).len());
            let name = encode_utf8(es[i].name@);
            &&& pos + 52 + name.len() <= d.len()
            &&& forall|k: nat| k < 13 ==> crate::le::le_u32_at(d, pos + 4 * k) == #[trigger] ws[k as int]
            &&& d.subrange((pos + 52) as int, (pos + 52 + name.len()) as int) == name
            &&& record_list(es.subrange(0, i + 1)).len() == record_list(es.subrange(0, i)).len() + 52 + name.len()
        }),
{
    reveal(archive_bytes);
    let d = archive_bytes(es);
    let n = es.len() as int;
    let off = record_list(es.subrange(0, i)).len();
    let poff = 4 + payload_bytes(es.subrange(0, i)).len();
    let rb = record_bytes(es[i], poff);
    let ws = record_words(es[i], poff);
    let name = encode_utf8(es[i].name@);
    let start = records_start(es);
    let pos = start + off;
    lemma_record_stays(es, i, n);
    assert(es.subrange(0, n) =~= es);
    let rl = record_list(es);
    assert(d.len() == start + rl.len());
    assert(rb == crate::dds::words_le(ws) + name);
    crate::dds::lemma_words_le_read(ws, 0);
    assert forall|j: int| 0 <= j < rb.len() implies d[pos + j] == #[trigger] rb[j] by {
        assert(d[pos + j] == rl[off + j]);
        assert(rl.subrange(off as int, (off + rb.len()) as int)[j] == rb[j]);
    }
    assert forall|k: nat| k < 13 implies crate::le::le_u32_at(d, pos + 4 * k) == #[trigger] ws[k as int] by {
        crate::dds::lemma_words_le_read(ws, k);
        let w = crate::dds::words_le(ws);
        let b = (4 * k) as int;
        assert(rb[b] == w[b] && rb[b + 1] == w[b + 1] && rb[b + 2] == w[b + 2] && rb[b + 3] == w[b + 3]);
        assert(d[pos + b] == w[b] && d[pos + (b + 1)] == w[b + 1] && d[pos + (b + 2)] == w[b + 2] && d[pos + (b + 3)] == w[b + 3]);
        lemma_le_at_shift(d, pos + 4 * k, w, 4 * k);
    }
    assert(d.subrange((pos + 52) as int, (pos + 52 + name.len()) as int) =~= name) by {
        assert forall|j: int| 0 <= j < name.len() implies d.subrange((pos + 52) as int, (pos + 52 + name.len()) as int)[j] == name[j] by {
            assert(d[pos + (52 + j)] == rb[52 + j]);
        }
    }
    lemma_record_stays(es, i, i + 1);
    assert(es.subrange(0, i + 1).drop_last() =~= es.subrange(0, i));
    assert(es.subrange(0, i + 1).last() == es[i]);
}

/// Reading a written archive walks its records in order: entry `i` starts where the
/// records before it end.
proof fn lemma_entry_positions(es: Seq<Entry>, i: nat)
    requires
        fits_u32(es),
        i <= es.len(),
    ensures
        crate::entry_pos(archive_bytes(es), records_start(es), i) == records_start(es) + record_list(
            es.subrange(0, i as int),
        ).len(),
    decreases i,
{
    if i == 0 {
        assert(es.subrange(0, 0) =~= Seq::<Entry>::empty());
    } else {
        let j = (i - 1) as int;
        lemma_entry_positions(es, j as nat);
        lemma_record_in_archive(es, j);
        let d = archive_bytes(es);
        let pos = records_start(es) + record_list(es.subrange(0, j)).len();
        let ws = record_words(es[j], 4 + payload_bytes(es.subrange(0, j)).len());
        assert(crate::le::le_u32_at(d, pos + 4 * 12) == ws[12]);
        assert(encode_utf8(es[j].name@).len() <= u32::MAX);
    }
}

/// The name that a record stores reads back.
proof fn lemma_reloaded_name(d: Seq<u8>, pos: nat, name: Seq<u8>, chars: Seq<char>, t: DecodedEntry)
    requires
        name == encode_utf8(chars),
        crate::entry_end(d, pos) == pos + 52 + name.len(),
        d.subrange((pos + 52) as int, (pos + 52 + name.len()) as int) == name,
        t.name@ == vstd::utf8::decode_utf8(d.subrange((pos + 52) as int, crate::entry_end(d, pos) as int)),
    ensures
        t.name@ == chars,
{
    vstd::utf8::encode_utf8_decode_utf8(chars);
}

/// Loading entry `i` of a written archive gives back what its writing stored.
#[verifier::rlimit(100)]
proof fn lemma_reloaded_entry(es: Seq<Entry>, i: int, t: DecodedEntry, l: Entry)
    requires
        fits_u32(es),
        0 <= i < es.len(),
        es[i].data is Compressed,
        crate::entry_matches(archive_bytes(es), crate::entry_pos(archive_bytes(es), records_start(es), i as nat), &t),
        loaded_from(l, t, archive_bytes(es)),
    ensures
        stored_payload(l) == stored_payload(es[i]),
        stored_size(l) as u32 == stored_size(es[i]) as u32,
        record_type_fields(l) == record_type_fields(es[i]),
        l.name@ == es[i].name@,
{
    let d = archive_bytes(es);
    lemma_entry_positions(es, i as nat);
    lemma_record_in_archive(es, i);
    lemma_archive_layout(es, i);
    let e = es[i];
    let pos = records_start(es) + record_list(es.subrange(0, i)).len();
    let poff = 4 + payload_bytes(es.subrange(0, i)).len();
    let ws = record_words(e, poff);
    let name = encode_utf8(e.name@);
    assert(crate::entry_matches(d, pos, &t));
    assert(crate::le::le_u32_at(d, pos + 4 * 0) == ws[0]);
    assert(crate::le::le_u32_at(d, pos + 4 * 1) == ws[1]);
    assert(crate::le::le_u32_at(d, pos + 4 * 2) == ws[2]);
    assert(crate::le::le_u32_at(d, pos + 4 * 3) == ws[3]);
    assert(crate::le::le_u32_at(d, pos + 4 * 4) == ws[4]);
    assert(crate::le::le_u32_at(d, pos + 4 * 5) == ws[5]);
    assert(crate::le::le_u32_at(d, pos + 4 * 6) == ws[6]);
    assert(crate::le::le_u32_at(d, pos + 4 * 7) == ws[7]);
    assert(crate::le::le_u32_at(d, pos + 4 * 8) == ws[8]);
    assert(crate::le::le_u32_at(d, pos + 4 * 9) == ws[9]);
    assert(crate::le::le_u32_at(d, pos + 4 * 10) == ws[10]);
    assert(crate::le::le_u32_at(d, pos + 4 * 11) == ws[11]);
    assert(crate::le::le_u32_at(d, pos + 4 * 12) == ws[12]);
    assert(name.len() <= u32::MAX);
    assert(crate::entry_end(d, pos) == pos + 52 + name.len());
    lemma_reloaded_name(d, pos, name, e.name@, t);
    let plen = stored_payload(e).len();
    assert(t.offset == poff && t.size == plen);
    assert(section(d, t.offset as nat, t.size as nat) =~= stored_payload(e));
    match e.file_type {
        FileType::Image { width, height, unks } => {
            assert(t.file_type == crate::FileType::Image);
            assert(record_type_fields(l) =~= record_type_fields(e));
        },
        FileType::Sound => {
            assert(t.file_type == crate::FileType::Sound);
        },
    }
}

/// Reading back an archive written from entries that hold stored payloads, loading its
/// entries, and writing them again gives the same bytes.
pub proof fn lemma_reload_round_trip(es: Seq<Entry>, toc: Seq<DecodedEntry>, loaded: Seq<Entry>)
    requires
        fits_u32(es),
        forall|i: int| 0 <= i < es.len() ==> (#[trigger] es[i]).data is Compressed,
        toc.len() == es.len(),
        forall|i: int|
            0 <= i < toc.len() ==> crate::entry_matches(
                archive_bytes(es),
                #[trigger] crate::entry_pos(archive_bytes(es), crate::le::le_u32_at(archive_bytes(es), 0) + 4, i as nat),
                &toc[i],
            ),
        loaded.len() == toc.len(),
        forall|i: int| 0 <= i < loaded.len() ==> #[trigger] loaded_from(loaded[i], toc[i], archive_bytes(es)),
    ensures
        archive_bytes(loaded) == archive_bytes(es),
        fits_u32(loaded),
{
    let d = archive_bytes(es);
    let n = es.len() as int;
    lemma_archive_header(es);
    let v = (4 + payload_bytes(es).len()) as u32;
    assert(crate::le::le_u32_at(d, 0) + 4 == records_start(es));
    assert forall|i: int| 0 <= i < n implies {
        &&& stored_payload(#[trigger] loaded[i]) == stored_payload(es[i])
        &&& stored_size(loaded[i]) as u32 == stored_size(es[i]) as u32
        &&& record_type_fields(loaded[i]) == record_type_fields(es[i])
        &&& loaded[i].name@ == es[i].name@
    } by {
        assert(crate::entry_matches(d, crate::entry_pos(d, crate::le::le_u32_at(d, 0) + 4, i as nat), &toc[i]));
        assert(loaded_from(loaded[i], toc[i], d));
        lemma_reloaded_entry(es, i, toc[i], loaded[i]);
    }
    lemma_same_archive(loaded, es, n);
    assert(loaded.subrange(0, n) =~= loaded);
    assert(es.subrange(0, n) =~= es);
    assert forall|i: int| 0 <= i < loaded.len() implies encode_utf8(#[trigger] loaded[i].name@).len() <= u32::MAX by {
        assert(loaded[i].name@ == es[i].name@);
        assert(encode_utf8(es[i].name@).len() <= u32::MAX);
    }
    reveal(archive_bytes);
}

/// The entry count of a written archive follows its payloads.
proof fn lemma_archive_count(es: Seq<Entry>)
    requires
        fits_u32(es),
    ensures
        crate::le::le_u32_at(archive_bytes(es), 4 + payload_bytes(es).len()) == es.len(),
        archive_bytes(es).len() == records_start(es) + record_list(es).len(),
{
    reveal(archive_bytes);
    let d = archive_bytes(es);
    let p = 4 + payload_bytes(es).len();
    let c = le_bytes(es.len() as u32);
    crate::le::lemma_le_round_trip(es.len() as u32);
    assert(d[p + 0int] == c[0] && d[p + 1int] == c[1] && d[p + 2int] == c[2] && d[p + 3int] == c[3]);
}

/// Reading the table of any written archive succeeds: the header word points at the
/// entry count, followed by every record, each whole and with a UTF-8 name.
pub proof fn lemma_written_toc_ok(es: Seq<Entry>)
    requires
        fits_u32(es),
    ensures
        crate::toc_ok(archive_bytes(es)),
        crate::le::le_u32_at(archive_bytes(es), crate::le::le_u32_at(archive_bytes(es), 0)) == es.len(),
{
    let d = archive_bytes(es);
    lemma_archive_header(es);
    lemma_archive_count(es);
    assert(crate::le::le_u32_at(d, 0) + 4 == records_start(es));
    assert forall|i: nat| i < crate::le::le_u32_at(d, crate::le::le_u32_at(d, 0)) implies crate::entry_ok(
        d,
        #[trigger] crate::entry_pos(d, crate::le::le_u32_at(d, 0) + 4, i),
    ) by {
        lemma_entry_positions(es, i);
        lemma_record_in_archive(es, i as int);
        let pos = records_start(es) + record_list(es.subrange(0, i as int)).len();
        let ws = record_words(es[i as int], 4 + payload_bytes(es.subrange(0, i as int)).len());
        let name = encode_utf8(es[i as int].name@);
        assert(crate::le::le_u32_at(d, pos + 4 * 12) == ws[12]);
        assert(name.len() <= u32::MAX);
        assert(crate::entry_end(d, pos) == pos + 52 + name.len());
        vstd::utf8::encode_utf8_valid_utf8(es[i as int].name@);
    }
}

/// The header word of a written archive is where its table starts.
proof fn lemma_archive_header(es: Seq<Entry>)
    requires
        fits_u32(es),
    ensures
        crate::le::le_u32_at(archive_bytes(es), 0) == 4 + payload_bytes(es).len(),
{
    reveal(archive_bytes);
    let d = archive_bytes(es);
    let v = (4 + payload_bytes(es).len()) as u32;
    crate::le::lemma_le_round_trip(v);
    let head = le_bytes(v);
    assert(d[0] == head[0] && d[1] == head[1] && d[2] == head[2] && d[3] == head[3]);
}

} // verus!
