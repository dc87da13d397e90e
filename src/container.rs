//! The trailing `idx1` index of a RIFF/AVI container and the payloads it lists.

use vstd::prelude::*;
use vstd::utf8::valid_utf8;
use crate::text::{has_at, copy_range};

verus! {

/// Size of the tag + size prefix in front of every chunk.
pub const CHUNK_HEADER_SIZE: usize = 8;

/// Size of one record of the index.
pub const INDEX_ENTRY_SIZE: usize = 16;

/// Distance from an index record's offset to the first payload byte of its chunk.
pub const PAYLOAD_ADJUSTMENT: u64 = 8;

/// Errors of reading the container.
#[derive(Clone, Copy, Debug, PartialEq, Eq, Structural)]
pub enum ContainerError {
    IndexNotFound,
    IndexHeaderInvalid,
    ChunkReadError,
    EncodingError,
}

/// The index marker, `idx1`.
pub open spec fn index_marker() -> Seq<u8> {
    seq![0x69u8, 0x64u8, 0x78u8, 0x31u8]
}

/// The little-endian 32-bit integer at `p`.
pub open spec fn le_u32(b: Seq<u8>, p: int) -> u32 {
    (b[p] as nat + 0x100 * (b[p + 1] as nat) + 0x10000 * (b[p + 2] as nat) + 0x1000000 * (
    b[p + 3] as nat)) as u32
}

/// Relies on byteorder's `LittleEndian::read_u32`: the first four bytes as a
/// little-endian integer.
#[verifier::external_body]
fn read_le_u32(b: &[u8], p: usize) -> (r: u32)
    requires
        p + 4 <= b@.len(),
    ensures
        r == le_u32(b@, p as int),
{
    <byteorder::LittleEndian as byteorder::ByteOrder>::read_u32(&b[p..p + 4])
}

/// Relies on `memchr::memmem::rfind`: the position of the last occurrence of
/// `needle` in `haystack`, if any.
#[verifier::external_body]
fn rfind_bytes(haystack: &[u8], needle: &[u8]) -> (r: Option<usize>)
    ensures
        r matches Some(i) ==> has_at(haystack@, needle@, i as int) && forall|j: int|
            i < j ==> !has_at(haystack@, needle@, j),
        r is None ==> forall|j: int| !has_at(haystack@, needle@, j),
{
    memchr::memmem::rfind(haystack, needle)
}

/// Relies on `std::str::from_utf8`: it fails exactly when the bytes are not UTF-8.
#[verifier::external_body]
fn is_utf8(b: &[u8]) -> (r: bool)
    ensures
        r == valid_utf8(b@),
{
    std::str::from_utf8(b).is_ok()
}

/// The last position before `p` where `pat` stands.
pub open spec fn rfind_before(buf: Seq<u8>, pat: Seq<u8>, p: int) -> Option<int>
    decreases p,
{
    if p <= 0 {
        None
    } else if has_at(buf, pat, p - 1) {
        Some(p - 1)
    } else {
        rfind_before(buf, pat, p - 1)
    }
}

/// The last occurrence of `pat` in `buf`.
pub open spec fn last_occurrence(buf: Seq<u8>, pat: Seq<u8>) -> Option<int> {
    rfind_before(buf, pat, buf.len() as int + 1)
}

proof fn lemma_rfind_before(buf: Seq<u8>, pat: Seq<u8>, p: int, r: Option<usize>)
    requires
        0 <= p,
        r matches Some(i) ==> has_at(buf, pat, i as int) && i < p && forall|j: int|
            i < j ==> !has_at(buf, pat, j),
        r is None ==> forall|j: int| !has_at(buf, pat, j),
    ensures
        rfind_before(buf, pat, p) == (match r {
            Some(i) => Some(i as int),
            None => None,
        }),
    decreases p,
{
    if p > 0 {
        if !has_at(buf, pat, p - 1) {
            lemma_rfind_before(buf, pat, p - 1, r);
        }
    }
}

/// A chunk header: tag and payload size.
#[derive(Debug)]
pub struct ChunkHeader {
    pub fourcc: [u8; 4],
    pub size: u32,
}

impl ChunkHeader {
    pub fn new(fourcc: [u8; 4], size: u32) -> (r: Self)
        ensures
            r.fourcc == fourcc,
            r.size == size,
    {
        ChunkHeader { fourcc, size }
    }

    pub fn get_fourcc(&self) -> (r: [u8; 4])
        ensures
            r == self.fourcc,
    {
        self.fourcc
    }

    pub fn get_size(&self) -> (r: usize)
        ensures
            r == self.size,
    {
        self.size as usize
    }
}

/// One record of the index: chunk tag, flags, device-relative offset and size.
#[derive(Debug)]
pub struct AVIIndex {
    pub chunk_id: [u8; 4],
    pub flags: u32,
    pub offset: u32,
    pub size: u32,
}

/// What an index record holds.
pub struct IndexView {
    pub tag: Seq<u8>,
    pub flags: u32,
    pub offset: u32,
    pub size: u32,
}

impl View for AVIIndex {
    type V = IndexView;

    open spec fn view(&self) -> IndexView {
        IndexView { tag: self.chunk_id@, flags: self.flags, offset: self.offset, size: self.size }
    }
}

impl AVIIndex {
    pub fn get_chunk_id(&self) -> (r: [u8; 4])
        ensures
            r == self.chunk_id,
    {
        self.chunk_id
    }

    pub fn get_flags(&self) -> (r: u32)
        ensures
            r == self.flags,
    {
        self.flags
    }

    pub fn get_offset(&self) -> (r: u64)
        ensures
            r == self.offset,
    {
        self.offset as u64
    }

    pub fn get_size(&self) -> (r: usize)
        ensures
            r == self.size,
    {
        self.size as usize
    }
}

/// The chunk header at `p`, when eight bytes remain.
pub open spec fn chunk_header_at(buf: Seq<u8>, p: int) -> Option<(Seq<u8>, u32)> {
    if p + 8 <= buf.len() {
        Some((buf.subrange(p, p + 4), le_u32(buf, p + 4)))
    } else {
        None
    }
}

/// The index record at `p`.
pub open spec fn entry_at(buf: Seq<u8>, p: int) -> IndexView {
    IndexView {
        tag: buf.subrange(p, p + 4),
        flags: le_u32(buf, p + 4),
        offset: le_u32(buf, p + 8),
        size: le_u32(buf, p + 12),
    }
}

/// The end of the index body whose header stands at `p`: as far as its size
/// field says, or the end of the buffer if that comes first.
pub open spec fn body_end(buf: Seq<u8>, p: int) -> int {
    let e = p + 8 + le_u32(buf, p + 4);
    if e <= buf.len() {
        e
    } else {
        buf.len() as int
    }
}

/// All whole records of the index body `[start, end)`, in order.
pub open spec fn index_records(buf: Seq<u8>, start: int, end: int) -> Seq<IndexView> {
    Seq::new(((end - start) / 16) as nat, |k: int| entry_at(buf, start + 16 * k))
}

/// The records with tag `tag`, in their order.
pub open spec fn tagged(records: Seq<IndexView>, tag: Seq<u8>) -> Seq<IndexView> {
    records.filter(|e: IndexView| e.tag == tag)
}

/// The records of the index (the last `idx1` in the buffer) whose tag is `tag`.
pub open spec fn stream_index(buf: Seq<u8>, tag: Seq<u8>) -> Result<Seq<IndexView>, ContainerError> {
    match last_occurrence(buf, index_marker()) {
        None => Err(ContainerError::IndexNotFound),
        Some(p) => if chunk_header_at(buf, p) is None {
            Err(ContainerError::IndexHeaderInvalid)
        } else {
            Ok(tagged(index_records(buf, p + 8, body_end(buf, p)), tag))
        },
    }
}

/// The index body `[start, end)` holds `(end - start) / 16` whole records; a
/// trailing part shorter than a record is not one.
pub proof fn lemma_record_count(buf: Seq<u8>, start: int, end: int)
    requires
        start <= end,
    ensures
        index_records(buf, start, end).len() == (end - start) / 16,
{
}

/// Filtering by tag keeps exactly the records with that tag, in their order:
/// every kept record has the tag, and when all records have it none is dropped.
pub proof fn lemma_stream_filter(records: Seq<IndexView>, tag: Seq<u8>)
    ensures
        forall|i: int| 0 <= i < tagged(records, tag).len() ==> #[trigger] tagged(records, tag)[i].tag
            == tag,
        (forall|i: int| 0 <= i < records.len() ==> #[trigger] records[i].tag == tag) ==> tagged(
            records,
            tag,
        ) == records,
    decreases records.len(),
{
    let pred = |e: IndexView| e.tag == tag;
    reveal(Seq::filter);
    if records.len() > 0 {
        lemma_stream_filter(records.drop_last(), tag);
        assert forall|i: int| 0 <= i < records.filter(pred).len() implies #[trigger] records.filter(pred)[i].tag == tag by {
            records.lemma_filter_pred(pred, i);
        }
        if forall|i: int| 0 <= i < records.len() ==> #[trigger] records[i].tag == tag {
            assert forall|i: int| 0 <= i < records.drop_last().len() implies #[trigger] records.drop_last()[i].tag == tag by {
                assert(records.drop_last()[i] == records[i]);
            }
            assert(records.drop_last().push(records.last()) =~= records);
        }
    }
}

fn marker() -> (r: [u8; 4])
    ensures
        r@ == index_marker(),
{
    let m: [u8; 4] = [0x69u8, 0x64u8, 0x78u8, 0x31u8];
    assert(m@ =~= index_marker());
    m
}

/// Reads the chunk header at `at`, when eight bytes remain.
pub fn parse_chunk_header(data: &[u8], at: usize) -> (r: Option<ChunkHeader>)
    ensures
        match (r, chunk_header_at(data@, at as int)) {
            (Some(h), Some((tag, size))) => h.fourcc@ == tag && h.size == size,
            (None, None) => true,
            _ => false,
        },
{
    if at > data.len() || data.len() - at < CHUNK_HEADER_SIZE {
        return None;
    }
    let fourcc: [u8; 4] = [data[at], data[at + 1], data[at + 2], data[at + 3]];
    assert(fourcc@ =~= data@.subrange(at as int, at + 4));
    Some(ChunkHeader::new(fourcc, read_le_u32(data, at + 4)))
}

/// Reads the index record at `at`, when a whole record lies before `end`.
pub fn read_index_entry(data: &[u8], at: usize, end: usize) -> (r: Option<AVIIndex>)
    requires
        end <= data@.len(),
    ensures
        at + 16 <= end ==> (r matches Some(e) && e@ == entry_at(data@, at as int)),
        at + 16 > end ==> r is None,
{
    if at > end || end - at < INDEX_ENTRY_SIZE {
        return None;
    }
    let chunk_id: [u8; 4] = [data[at], data[at + 1], data[at + 2], data[at + 3]];
    assert(chunk_id@ =~= data@.subrange(at as int, at + 4));
    Some(
        AVIIndex {
            chunk_id,
            flags: read_le_u32(data, at + 4),
            offset: read_le_u32(data, at + 8),
            size: read_le_u32(data, at + 12),
        },
    )
}

fn same_tag(a: &[u8; 4], b: &[u8; 4]) -> (r: bool)
    ensures
        r == (a@ == b@),
{
    let r = a[0] == b[0] && a[1] == b[1] && a[2] == b[2] && a[3] == b[3];
    if r {
        assert(a@ =~= b@);
    }
    r
}

/// Finds the container's index (its last `idx1`) and returns the records
/// tagged `tag`, in index order. A truncated trailing record is dropped.
pub fn find_stream_index(buf: &[u8], tag: &[u8; 4]) -> (r: Result<Vec<AVIIndex>, ContainerError>)
    ensures
        match (r, stream_index(buf@, tag@)) {
            (Ok(v), Ok(s)) => v@.map_values(|e: AVIIndex| e@) == s,
            (Err(e), Err(f)) => e == f,
            _ => false,
        },
{
    let m = marker();
    let found = rfind_bytes(buf, &m);
    proof {
        lemma_rfind_before(buf@, index_marker(), buf@.len() as int + 1, found);
    }
    let p = match found {
        None => return Err(ContainerError::IndexNotFound),
        Some(p) => p,
    };
    let header = match parse_chunk_header(buf, p) {
        None => return Err(ContainerError::IndexHeaderInvalid),
        Some(h) => h,
    };
    assert(header.size == le_u32(buf@, p + 4));
    let n = buf.len();
    assert(p + 8 <= n);
    let start = p + CHUNK_HEADER_SIZE;
    let end: usize = if header.get_size() <= buf.len() - start {
        start + header.get_size()
    } else {
        buf.len()
    };
    let ghost records = index_records(buf@, start as int, end as int);
    let ghost pred = |e: IndexView| e.tag == tag@;
    let count: usize = (end - start) / INDEX_ENTRY_SIZE;
    let mut out: Vec<AVIIndex> = Vec::new();
    let mut k: usize = 0;
    while k < count
        invariant
            start <= end <= buf@.len(),
            count == (end - start) / 16,
            records == index_records(buf@, start as int, end as int),
            pred == (|e: IndexView| e.tag == tag@),
            k <= count,
            out@.map_values(|e: AVIIndex| e@) == records.take(k as int).filter(pred),
        decreases count - k,
    {
        let at = start + k * INDEX_ENTRY_SIZE;
        let entry = read_index_entry(buf, at, end).unwrap();
        assert(records.take(k + 1).drop_last() =~= records.take(k as int));
        assert(records.take(k + 1).last() == entry@);
        proof {
            reveal(Seq::filter);
        }
        if same_tag(&entry.chunk_id, tag) {
            out.push(entry);
            assert(out@.map_values(|e: AVIIndex| e@) =~= records.take(k as int).filter(pred).push(
                entry@,
            ));
        }
        k = k + 1;
    }
    assert(records.take(count as int) =~= records);
    Ok(out)
}

/// The payload of each record, read at its offset plus the fixed adjustment,
/// in order; the first record whose payload leaves the buffer or is not UTF-8
/// decides the error.
pub open spec fn payloads(buf: Seq<u8>, entries: Seq<IndexView>) -> Result<Seq<Seq<u8>>, ContainerError>
    decreases entries.len(),
{
    if entries.len() == 0 {
        Ok(Seq::empty())
    } else {
        match payloads(buf, entries.drop_last()) {
            Err(e) => Err(e),
            Ok(lines) => {
                let e = entries.last();
                let a = e.offset + 8;
                if a + e.size > buf.len() {
                    Err(ContainerError::ChunkReadError)
                } else if !valid_utf8(buf.subrange(a, a + e.size)) {
                    Err(ContainerError::EncodingError)
                } else {
                    Ok(lines.push(buf.subrange(a, a + e.size)))
                }
            },
        }
    }
}

proof fn lemma_first_error_stays(buf: Seq<u8>, entries: Seq<IndexView>, j: int)
    requires
        0 <= j <= entries.len(),
        payloads(buf, entries.take(j)) is Err,
    ensures
        payloads(buf, entries) == payloads(buf, entries.take(j)),
    decreases entries.len() - j,
{
    if j < entries.len() {
        assert(entries.take(j + 1).drop_last() =~= entries.take(j));
        lemma_first_error_stays(buf, entries, j + 1);
    } else {
        assert(entries.take(j) =~= entries);
    }
}

/// Reads the payload of each record as one line of text.
pub fn read_payloads(buf: &[u8], entries: &Vec<AVIIndex>) -> (r: Result<Vec<Vec<u8>>, ContainerError>)
    ensures
        match (r, payloads(buf@, entries@.map_values(|e: AVIIndex| e@))) {
            (Ok(v), Ok(s)) => v@.map_values(|l: Vec<u8>| l@) == s,
            (Err(e), Err(f)) => e == f,
            _ => false,
        },
{
    let ghost views = entries@.map_values(|e: AVIIndex| e@);
    let mut lines: Vec<Vec<u8>> = Vec::new();
    assert(views.take(0) =~= Seq::<IndexView>::empty());
    assert(lines@.map_values(|l: Vec<u8>| l@) =~= Seq::<Seq<u8>>::empty());
    let mut k: usize = 0;
    while k < entries.len()
        invariant
            k <= entries@.len(),
            views == entries@.map_values(|e: AVIIndex| e@),
            payloads(buf@, views.take(k as int)) == Ok::<Seq<Seq<u8>>, ContainerError>(
                lines@.map_values(|l: Vec<u8>| l@),
            ),
        decreases entries@.len() - k,
    {
        let e = &entries[k];
        assert(views.take(k + 1).drop_last() =~= views.take(k as int));
        assert(views.take(k + 1).last() == e@);
        let a: u64 = e.get_offset() + PAYLOAD_ADJUSTMENT;
        if a > buf.len() as u64 || (e.get_size() as u64) > buf.len() as u64 - a {
            proof {
                lemma_first_error_stays(buf@, views, k as int + 1);
            }
            return Err(ContainerError::ChunkReadError);
        }
        let a = a as usize;
        let b = a + e.get_size();
        if !is_utf8(&buf[a..b]) {
            proof {
                lemma_first_error_stays(buf@, views, k as int + 1);
            }
            return Err(ContainerError::EncodingError);
        }
        let line = copy_range(buf, a, b);
        let ghost before = lines@.map_values(|l: Vec<u8>| l@);
        lines.push(line);
        assert(lines@.map_values(|l: Vec<u8>| l@) =~= before.push(buf@.subrange(a as int, b as int)));
        k = k + 1;
    }
    assert(views.take(k as int) =~= views);
    Ok(lines)
}

} // verus!
