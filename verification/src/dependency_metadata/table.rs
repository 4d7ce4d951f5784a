//! The tables of a `.biwameta` file that are read by offset or index.

use vstd::prelude::*;
use vstd::utf8::{encode_scalar, encode_utf8, valid_utf8, decode_utf8};
use crate::le_bytes::{u32_le, u32_read_le, lemma_u32_le_roundtrip, push_bytes, push_u32_le};
use vstd::seq_lib::lemma_concat_associative;
use crate::text::str_from_utf8;
use super::body::{SymbolBody, SymbolBodyView, parse_body, body_kind_code, body_encodable,
    lemma_body_roundtrip};
use super::codec::DiskEncode;
use super::error::DepMetadataError;
use super::format::{DiskBodyOffset, DiskSourceInfo, DiskStringOffset, DiskSymbolHeader, u32_at};

verus! {

// --- the string table ---
//
// NUL-terminated UTF-8 strings, one after the other. Readers refer to a
// string by its byte offset; writers get that offset from `push`.

pub struct StringTable {
    data: Vec<u8>,
}

impl View for StringTable {
    type V = Seq<u8>;

    closed spec fn view(&self) -> Seq<u8> {
        self.data@
    }
}

/// The position of the first NUL byte at or after `start`.
pub open spec fn nul_position(data: Seq<u8>, start: int) -> Option<int>
    decreases data.len() - start,
{
    if start < 0 || start >= data.len() {
        None
    } else if data[start] == 0 {
        Some(start)
    } else {
        nul_position(data, start + 1)
    }
}

/// What reading the string at `offset` of the table `data` gives.
pub open spec fn string_at(data: Seq<u8>, offset: u32) -> Result<Seq<char>, DepMetadataError> {
    let start = offset as int;
    if start >= data.len() {
        Err(DepMetadataError::StringOffsetOutOfBounds { offset, table_len: data.len() as u32 })
    } else {
        match nul_position(data, start) {
            None => Err(DepMetadataError::NulTerminatorNotFound { offset }),
            Some(end) => if valid_utf8(data.subrange(start, end)) {
                Ok(decode_utf8(data.subrange(start, end)))
            } else {
                Err(DepMetadataError::InvalidUtf8)
            },
        }
    }
}

/// The text of the string at `offset`, or the empty text where it cannot
/// be read.
pub open spec fn string_or_empty(data: Seq<u8>, offset: u32) -> Seq<char> {
    match string_at(data, offset) {
        Ok(s) => s,
        Err(_) => Seq::empty(),
    }
}

impl StringTable {
    pub fn new(data: Vec<u8>) -> (r: Self)
        ensures
            r@ == data@,
    {
        StringTable { data }
    }

    pub fn empty() -> (r: Self)
        ensures
            r@ == Seq::<u8>::empty(),
    {
        StringTable { data: Vec::new() }
    }

    pub fn data(&self) -> (r: &[u8])
        ensures
            r@ == self@,
    {
        self.data.as_slice()
    }

    /// The string at `offset`.
    pub fn get(&self, offset: DiskStringOffset) -> (r: Result<&str, DepMetadataError>)
        ensures
            match r {
                Ok(s) => string_at(self@, offset.0) == Ok::<Seq<char>, DepMetadataError>(s@),
                Err(e) => string_at(self@, offset.0) == Err::<Seq<char>, DepMetadataError>(e),
            },
    {
        let len = self.data.len();
        if offset.0 as usize >= len {
            return Err(
                DepMetadataError::StringOffsetOutOfBounds { offset: offset.0, table_len: len as u32 },
            );
        }
        let start = offset.0 as usize;
        let mut end = start;
        while end < len && self.data[end] != 0
            invariant
                start <= end <= len,
                len == self.data@.len(),
                nul_position(self.data@, start as int) == nul_position(self.data@, end as int),
            decreases len - end,
        {
            end = end + 1;
        }
        if end == len {
            return Err(DepMetadataError::NulTerminatorNotFound { offset: offset.0 });
        }
        match str_from_utf8(&self.data[start..end]) {
            Some(s) => Ok(s),
            None => Err(DepMetadataError::InvalidUtf8),
        }
    }

    /// Appends a string and its NUL terminator; returns its offset.
    pub fn push(&mut self, s: &str) -> (r: DiskStringOffset)
        ensures
            r.0 == old(self)@.len() as u32,
            final(self)@ == old(self)@ + encode_utf8(s@) + seq![0u8],
            extends(old(self)@, final(self)@),
    {
        let offset = DiskStringOffset(self.data.len() as u32);
        push_bytes(&mut self.data, s.as_bytes());
        self.data.push(0);
        assert(self.data@ =~= old(self)@ + encode_utf8(s@) + seq![0u8]);
        assert(self.data@.subrange(0, old(self)@.len() as int) =~= old(self)@);
        offset
    }
}

/// No byte of the UTF-8 encoding of a character other than NUL is zero.
proof fn lemma_encode_scalar_nonzero(c: char)
    requires
        c != '\0',
    ensures
        forall|i: int| 0 <= i < encode_scalar(c as u32).len() ==> #[trigger] encode_scalar(c as u32)[i] != 0,
{
    let v = c as u32;
    assert(v != 0) by {
        vstd::utf8::char_u32_cast(c, v);
        if v == 0 {
            assert(c == '\0');
        }
    }
    assert(0 < v <= 0x7F ==> (v & 0x7F) as u8 != 0) by (bit_vector);
    assert(forall|x: u32| (0xC0u8 | ((x >> 6u32) & 0x1F) as u8) != 0) by (bit_vector);
    assert(forall|x: u32| (0xE0u8 | ((x >> 12u32) & 0x0F) as u8) != 0) by (bit_vector);
    assert(forall|x: u32| (0xF0u8 | ((x >> 18u32) & 0x7) as u8) != 0) by (bit_vector);
    assert(forall|x: u32| (0x80u8 | (x & 0x3F) as u8) != 0) by (bit_vector);
    assert(forall|x: u32| (0x80u8 | ((x >> 6u32) & 0x3F) as u8) != 0) by (bit_vector);
    assert(forall|x: u32| (0x80u8 | ((x >> 12u32) & 0x3F) as u8) != 0) by (bit_vector);
}

/// A text without NUL encodes to bytes without zero.
proof fn lemma_encode_utf8_nonzero(cs: Seq<char>)
    requires
        !cs.contains('\0'),
    ensures
        forall|i: int| 0 <= i < encode_utf8(cs).len() ==> #[trigger] encode_utf8(cs)[i] != 0,
    decreases cs.len(),
{
    if cs.len() > 0 {
        assert(cs[0] != '\0') by {
            if cs[0] == '\0' {
                assert(cs.contains('\0'));
            }
        }
        lemma_encode_scalar_nonzero(cs[0]);
        assert(!cs.drop_first().contains('\0')) by {
            if cs.drop_first().contains('\0') {
                let j = choose|j: int| 0 <= j < cs.drop_first().len() && cs.drop_first()[j] == '\0';
                assert(cs[j + 1] == '\0');
            }
        }
        lemma_encode_utf8_nonzero(cs.drop_first());
        let a = encode_scalar(cs[0] as u32);
        let b = encode_utf8(cs.drop_first());
        assert(encode_utf8(cs) == a + b);
        assert forall|i: int| 0 <= i < encode_utf8(cs).len() implies #[trigger] encode_utf8(cs)[i] != 0 by {
            if i < a.len() {
                assert(encode_utf8(cs)[i] == a[i]);
            } else {
                assert(encode_utf8(cs)[i] == b[i - a.len()]);
            }
        }
    }
}

/// The first NUL at or after `k` is at `end` when nothing between is NUL.
proof fn lemma_nul_position_at(data: Seq<u8>, k: int, end: int)
    requires
        0 <= k <= end < data.len(),
        data[end] == 0,
        forall|j: int| k <= j < end ==> data[j] != 0,
    ensures
        nul_position(data, k) == Some(end),
    decreases end - k,
{
    if k < end {
        lemma_nul_position_at(data, k + 1, end);
    }
}

/// A string pushed onto the table reads back at the offset that `push`
/// returned, when it holds no NUL and the table was shorter than `u32::MAX`
/// bytes (offsets are `u32`).
pub proof fn lemma_string_table_push_get(data: Seq<u8>, s: Seq<char>)
    requires
        data.len() <= u32::MAX,
        !s.contains('\0'),
    ensures
        string_at(data + encode_utf8(s) + seq![0u8], data.len() as u32) == Ok::<Seq<char>, DepMetadataError>(s),
{
    let e = encode_utf8(s);
    let all = data + e + seq![0u8];
    let start = data.len() as int;
    let end = start + e.len();
    lemma_encode_utf8_nonzero(s);
    assert forall|j: int| start <= j < end implies all[j] != 0 by {
        assert(all[j] == e[j - start]);
    }
    lemma_nul_position_at(all, start, end);
    assert(all.subrange(start, end) =~= e);
    vstd::utf8::encode_utf8_valid_utf8(s);
    vstd::utf8::encode_utf8_decode_utf8(s);
}

/// Appending bytes after a NUL does not move that NUL: the first NUL at
/// or after `k` stays where it was.
proof fn lemma_nul_position_extend(data: Seq<u8>, tail: Seq<u8>, k: int, end: int)
    requires
        nul_position(data, k) == Some(end),
    ensures
        nul_position(data + tail, k) == Some(end),
    decreases data.len() - k,
{
    if data[k] != 0 {
        lemma_nul_position_extend(data, tail, k + 1, end);
    }
}

/// `full` begins with `data`: what a table holds after more was written
/// to its end.
pub open spec fn extends(data: Seq<u8>, full: Seq<u8>) -> bool {
    data.len() <= full.len() && full.subrange(0, data.len() as int) == data
}

/// Writing more to the end of a table never invalidates the strings already
/// in it: every offset that read a string before reads the same string after.
pub proof fn lemma_string_at_extends(data: Seq<u8>, full: Seq<u8>, offset: u32)
    requires
        extends(data, full),
        string_at(data, offset) is Ok,
    ensures
        string_at(full, offset) == string_at(data, offset),
{
    let tail = full.subrange(data.len() as int, full.len() as int);
    assert(full =~= data + tail);
    let start = offset as int;
    let end = nul_position(data, start)->0;
    lemma_nul_position_extend(data, tail, start, end);
    lemma_nul_position_bounds(data, start);
    assert(full.subrange(start, end) =~= data.subrange(start, end));
}

/// Writing more to a table that already extends another extends it too.
pub proof fn lemma_extends_trans(a: Seq<u8>, b: Seq<u8>, c: Seq<u8>)
    requires
        extends(a, b),
        extends(b, c),
    ensures
        extends(a, c),
{
    assert(c.subrange(0, a.len() as int) =~= b.subrange(0, a.len() as int));
}

/// Pushing a string never invalidates the strings already in the table:
/// every offset that read a string before reads the same string after.
pub proof fn lemma_string_table_push_keeps(data: Seq<u8>, s: Seq<char>, offset: u32)
    requires
        string_at(data, offset) is Ok,
    ensures
        string_at(data + encode_utf8(s) + seq![0u8], offset) == string_at(data, offset),
{
    let full = data + encode_utf8(s) + seq![0u8];
    assert(full.subrange(0, data.len() as int) =~= data);
    lemma_string_at_extends(data, full, offset);
}

/// The first NUL at or after `k`, when there is one, lies between `k` and
/// the end of the data.
proof fn lemma_nul_position_bounds(data: Seq<u8>, k: int)
    ensures
        nul_position(data, k) matches Some(e) ==> k <= e < data.len() && data[e] == 0,
    decreases data.len() - k,
{
    if 0 <= k < data.len() && data[k] != 0 {
        lemma_nul_position_bounds(data, k + 1);
    }
}

// --- the source file table ---

pub struct SourceFileTable {
    entries: Vec<DiskSourceInfo>,
}

impl View for SourceFileTable {
    type V = Seq<DiskSourceInfo>;

    closed spec fn view(&self) -> Seq<DiskSourceInfo> {
        self.entries@
    }
}

/// What looking up the file at `idx` gives.
pub open spec fn file_at(files: Seq<DiskSourceInfo>, idx: u32) -> Result<DiskSourceInfo, DepMetadataError> {
    if (idx as int) < files.len() {
        Ok(files[idx as int])
    } else {
        Err(DepMetadataError::FileIndexOutOfBounds { index: idx, file_count: files.len() as u32 })
    }
}

impl SourceFileTable {
    pub fn new(entries: Vec<DiskSourceInfo>) -> (r: Self)
        ensures
            r@ == entries@,
    {
        SourceFileTable { entries }
    }

    pub fn len(&self) -> (r: usize)
        ensures
            r == self@.len(),
    {
        self.entries.len()
    }

    pub fn get(&self, idx: u32) -> (r: Result<&DiskSourceInfo, DepMetadataError>)
        ensures
            match r {
                Ok(f) => file_at(self@, idx) == Ok::<DiskSourceInfo, DepMetadataError>(*f),
                Err(e) => file_at(self@, idx) == Err::<DiskSourceInfo, DepMetadataError>(e),
            },
    {
        if (idx as usize) < self.entries.len() {
            Ok(&self.entries[idx as usize])
        } else {
            Err(
                DepMetadataError::FileIndexOutOfBounds {
                    index: idx,
                    file_count: self.entries.len() as u32,
                },
            )
        }
    }

    pub fn entries(&self) -> (r: &[DiskSourceInfo])
        ensures
            r@ == self@,
    {
        self.entries.as_slice()
    }
}

// --- the symbol body table ---
//
// The raw bytes of all bodies, each laid out as [body_size: u32][body], at
// the offset its header records. A body is decoded when it is asked for.

pub struct LazyDiskVec {
    bytes: Vec<u8>,
}

impl View for LazyDiskVec {
    type V = Seq<u8>;

    closed spec fn view(&self) -> Seq<u8> {
        self.bytes@
    }
}

/// What decoding the body that `hdr` points at gives.
pub open spec fn body_at(bytes: Seq<u8>, hdr: DiskSymbolHeader) -> Result<SymbolBodyView, DepMetadataError> {
    let offset = hdr.offset.0 as int;
    if offset + 4 > bytes.len() {
        Err(
            DepMetadataError::UnexpectedEnd {
                needed: (offset + 4) as usize,
                available: bytes.len() as usize,
            },
        )
    } else {
        let size = u32_at(bytes, offset);
        let start = offset + 4;
        let end = start + size;
        if end > bytes.len() {
            Err(
                DepMetadataError::BodySizeMismatch {
                    declared: size,
                    available: (bytes.len() - start) as usize,
                },
            )
        } else {
            parse_body(hdr.kind, bytes.subrange(start, end))
        }
    }
}

impl LazyDiskVec {
    /// Holds the raw body bytes of `sym_count` symbols.
    pub fn new(bytes: Vec<u8>, sym_count: usize) -> (r: Self)
        ensures
            r@ == bytes@,
    {
        LazyDiskVec { bytes }
    }

    pub fn data(&self) -> (r: &[u8])
        ensures
            r@ == self@,
    {
        self.bytes.as_slice()
    }

    /// The body of symbol `sym_idx`, whose header is `hdr`.
    pub fn get(&self, sym_idx: usize, hdr: &DiskSymbolHeader) -> (r: Result<SymbolBody, DepMetadataError>)
        ensures
            match r {
                Ok(b) => body_at(self@, *hdr) == Ok::<SymbolBodyView, DepMetadataError>(b@),
                Err(e) => body_at(self@, *hdr) == Err::<SymbolBodyView, DepMetadataError>(e),
            },
    {
        self.decode_at(hdr)
    }

    fn decode_at(&self, hdr: &DiskSymbolHeader) -> (r: Result<SymbolBody, DepMetadataError>)
        ensures
            match r {
                Ok(b) => body_at(self@, *hdr) == Ok::<SymbolBodyView, DepMetadataError>(b@),
                Err(e) => body_at(self@, *hdr) == Err::<SymbolBodyView, DepMetadataError>(e),
            },
    {
        let len = self.bytes.len() as u64;
        let offset = hdr.offset.0 as u64;
        if offset + 4 > len {
            return Err(
                DepMetadataError::UnexpectedEnd {
                    needed: (offset + 4) as usize,
                    available: self.bytes.len(),
                },
            );
        }
        let body_size = u32_read_le(self.bytes.as_slice(), offset as usize);
        let data_start = offset + 4;
        let data_end = data_start + body_size as u64;
        if data_end > len {
            return Err(
                DepMetadataError::BodySizeMismatch {
                    declared: body_size,
                    available: (len - data_start) as usize,
                },
            );
        }
        SymbolBody::decode(hdr.kind, &self.bytes[data_start as usize..data_end as usize])
    }

    /// Lays out `bodies` one after the other and returns the table with the
    /// offset of each body.
    pub fn from_bodies(bodies: &[SymbolBody]) -> (r: (LazyDiskVec, Vec<DiskBodyOffset>))
        requires
            body_table(bodies@.map_values(|b: SymbolBody| b@)).len() <= u32::MAX,
        ensures
            r.0@ == body_table(bodies@.map_values(|b: SymbolBody| b@)),
            r.1@.len() == bodies@.len(),
            forall|i: int| 0 <= i < bodies@.len() ==> #[trigger] r.1@[i].0 == body_table(
                bodies@.map_values(|b: SymbolBody| b@).take(i),
            ).len(),
    {
        let ghost vs = bodies@.map_values(|b: SymbolBody| b@);
        let mut builder = BodyBuilder::new();
        let mut offsets: Vec<DiskBodyOffset> = Vec::new();
        let mut i: usize = 0;
        assert(vs.take(0) =~= Seq::<SymbolBodyView>::empty());
        while i < bodies.len()
            invariant
                i <= bodies@.len(),
                vs == bodies@.map_values(|b: SymbolBody| b@),
                body_table(vs).len() <= u32::MAX,
                builder@ == body_table(vs.take(i as int)),
                offsets@.len() == i,
                forall|k: int| 0 <= k < i ==> #[trigger] offsets@[k].0 == body_table(vs.take(k)).len(),
            decreases bodies@.len() - i,
        {
            proof {
                lemma_body_table_prefix_len(vs, i + 1);
                assert(vs.take(i + 1).drop_last() =~= vs.take(i as int));
                assert(vs.take(i + 1).last() == bodies@[i as int]@);
            }
            let off = builder.push(&bodies[i]);
            offsets.push(off);
            i = i + 1;
        }
        assert(vs.take(vs.len() as int) =~= vs);
        (LazyDiskVec { bytes: builder.finish() }, offsets)
    }
}

impl LazyDiskVec {
    /// Lays out `bodies` as `from_bodies` does, or gives `None` when the
    /// table would not fit offsets of 32 bits.
    pub fn try_from_bodies(bodies: &[SymbolBody]) -> (r: Option<(LazyDiskVec, Vec<DiskBodyOffset>)>)
        ensures
            r is None <==> body_table(bodies@.map_values(|b: SymbolBody| b@)).len() > u32::MAX,
            r matches Some(p) ==> {
                &&& p.0@ == body_table(bodies@.map_values(|b: SymbolBody| b@))
                &&& p.1@.len() == bodies@.len()
                &&& forall|i: int| 0 <= i < bodies@.len() ==> #[trigger] p.1@[i].0 == body_table(
                    bodies@.map_values(|b: SymbolBody| b@).take(i),
                ).len()
            },
    {
        let ghost vs = bodies@.map_values(|b: SymbolBody| b@);
        let mut total: u64 = 0;
        let mut i: usize = 0;
        assert(vs.take(0) =~= Seq::<SymbolBodyView>::empty());
        while i < bodies.len()
            invariant
                i <= bodies@.len(),
                vs == bodies@.map_values(|b: SymbolBody| b@),
                total as int == body_table(vs.take(i as int)).len(),
                total <= u32::MAX,
            decreases bodies@.len() - i,
        {
            let mut buf: Vec<u8> = Vec::new();
            bodies[i].encode(&mut buf);
            proof {
                let t = vs.take(i + 1);
                assert(t.drop_last() =~= vs.take(i as int));
                assert(t.last() == bodies@[i as int]@);
                assert(buf@ =~= <SymbolBody as DiskEncode>::encoding(bodies@[i as int]@));
            }
            if buf.len() as u64 > u32::MAX as u64 || 4 + buf.len() as u64 > u32::MAX as u64 - total {
                proof {
                    lemma_body_table_prefix_len(vs, i + 1);
                }
                return None;
            }
            total = total + 4 + buf.len() as u64;
            i = i + 1;
        }
        assert(vs.take(vs.len() as int) =~= vs);
        Some(LazyDiskVec::from_bodies(bodies))
    }
}

impl LazyDiskVec {
    /// Lays out `bodies` one after the other, sizes and offsets written as
    /// 32-bit numbers. Where the table fits in 4 GiB this is `from_bodies`;
    /// past that the numbers are cut to 32 bits, as the format cannot hold
    /// more.
    pub fn from_bodies_cut(bodies: &[SymbolBody]) -> (r: (LazyDiskVec, Vec<DiskBodyOffset>))
        ensures
            r.1@.len() == bodies@.len(),
            r.0@.len() == body_table(bodies@.map_values(|b: SymbolBody| b@)).len(),
            body_table(bodies@.map_values(|b: SymbolBody| b@)).len() <= u32::MAX ==> {
                &&& r.0@ == body_table(bodies@.map_values(|b: SymbolBody| b@))
                &&& forall|i: int| 0 <= i < bodies@.len() ==> #[trigger] r.1@[i].0 == body_table(
                    bodies@.map_values(|b: SymbolBody| b@).take(i),
                ).len()
            },
    {
        match LazyDiskVec::try_from_bodies(bodies) {
            Some(p) => p,
            None => {
                let ghost vs = bodies@.map_values(|b: SymbolBody| b@);
                let mut buf: Vec<u8> = Vec::new();
                let mut offsets: Vec<DiskBodyOffset> = Vec::new();
                let mut i: usize = 0;
                assert(vs.take(0) =~= Seq::<SymbolBodyView>::empty());
                while i < bodies.len()
                    invariant
                        i <= bodies@.len(),
                        offsets@.len() == i,
                        vs == bodies@.map_values(|b: SymbolBody| b@),
                        buf@.len() == body_table(vs.take(i as int)).len(),
                    decreases bodies@.len() - i,
                {
                    let mut body_buf: Vec<u8> = Vec::new();
                    bodies[i].encode(&mut body_buf);
                    proof {
                        let t = vs.take(i + 1);
                        assert(t.drop_last() =~= vs.take(i as int));
                        assert(t.last() == bodies@[i as int]@);
                    }
                    offsets.push(DiskBodyOffset(buf.len() as u32));
                    push_u32_le(&mut buf, body_buf.len() as u32);
                    push_bytes(&mut buf, body_buf.as_slice());
                    i = i + 1;
                }
                assert(vs.take(vs.len() as int) =~= vs);
                (LazyDiskVec { bytes: buf }, offsets)
            },
        }
    }
}

/// One entry of the body table: the body's size, then the body.
pub open spec fn body_entry(v: SymbolBodyView) -> Seq<u8> {
    u32_le(<SymbolBody as DiskEncode>::encoding(v).len() as u32) + <SymbolBody as DiskEncode>::encoding(v)
}

/// The bodies laid out one after the other.
pub open spec fn body_table(vs: Seq<SymbolBodyView>) -> Seq<u8>
    decreases vs.len(),
{
    if vs.len() == 0 {
        Seq::empty()
    } else {
        body_table(vs.drop_last()) + body_entry(vs.last())
    }
}

/// A prefix of the bodies takes no more room than all of them.
proof fn lemma_body_table_prefix_len(vs: Seq<SymbolBodyView>, i: int)
    requires
        0 <= i <= vs.len(),
    ensures
        body_table(vs.take(i)).len() <= body_table(vs).len(),
        vs.take(i) + vs.skip(i) == vs,
    decreases vs.len() - i,
{
    assert(vs.take(i) + vs.skip(i) =~= vs);
    if i < vs.len() {
        lemma_body_table_prefix_len(vs, i + 1);
        assert(vs.take(i + 1).drop_last() =~= vs.take(i));
    } else {
        assert(vs.take(i) =~= vs);
    }
}

/// Appends symbol bodies to the body table.
struct BodyBuilder {
    buf: Vec<u8>,
}

impl View for BodyBuilder {
    type V = Seq<u8>;

    closed spec fn view(&self) -> Seq<u8> {
        self.buf@
    }
}

impl BodyBuilder {
    fn new() -> (r: Self)
        ensures
            r@ == Seq::<u8>::empty(),
    {
        BodyBuilder { buf: Vec::new() }
    }

    /// Encodes a body and appends it with its size prefix; returns the
    /// offset of the prefix.
    fn push(&mut self, body: &SymbolBody) -> (r: DiskBodyOffset)
        requires
            old(self)@.len() + body_entry(body@).len() <= u32::MAX,
        ensures
            r.0 == old(self)@.len(),
            final(self)@ == old(self)@ + body_entry(body@),
    {
        let offset = DiskBodyOffset(self.buf.len() as u32);
        // Encode apart first, so the size is known before the body.
        let mut body_buf: Vec<u8> = Vec::new();
        body.encode(&mut body_buf);
        push_u32_le(&mut self.buf, body_buf.len() as u32);
        push_bytes(&mut self.buf, body_buf.as_slice());
        assert(self.buf@ =~= old(self)@ + body_entry(body@));
        offset
    }

    fn finish(self) -> (r: Vec<u8>)
        ensures
            r@ == self@,
    {
        self.buf
    }
}

/// A body laid out by `from_bodies` is read back from its offset, given the
/// number of its kind, when it can be written faithfully.
pub proof fn lemma_body_table_read(vs: Seq<SymbolBodyView>, i: int, vis: u32)
    requires
        0 <= i < vs.len(),
        body_encodable(vs[i]),
        body_table(vs).len() <= u32::MAX,
    ensures
        body_at(
            body_table(vs),
            DiskSymbolHeader {
                kind: body_kind_code(vs[i]),
                vis,
                offset: DiskBodyOffset(body_table(vs.take(i)).len() as u32),
            },
        ) == Ok::<SymbolBodyView, DepMetadataError>(vs[i]),
{
    lemma_body_table_split(vs, i);
    let pre = body_table(vs.take(i));
    let e = <SymbolBody as DiskEncode>::encoding(vs[i]);
    let c = u32_le(e.len() as u32);
    let post = body_table(vs.skip(i + 1));
    let all = body_table(vs);
    assert(all == pre + (c + e) + post);
    lemma_concat_associative(pre, c, e);
    lemma_concat_associative(pre + c, e, post);
    assert(all == (pre + c) + (e + post));
    lemma_u32_le_roundtrip(e.len() as u32);
    let p: int = pre.len() as int;
    assert(all.subrange(p, p + 4) =~= c);
    let start: int = p + 4;
    assert(all.subrange(start, start + e.len()) =~= e + Seq::<u8>::empty());
    lemma_body_roundtrip(vs[i], Seq::empty());
}

/// The table of two runs of bodies is the table of the first, then that of
/// the second.
proof fn lemma_body_table_concat(a: Seq<SymbolBodyView>, b: Seq<SymbolBodyView>)
    ensures
        body_table(a + b) == body_table(a) + body_table(b),
    decreases b.len(),
{
    if b.len() == 0 {
        assert(a + b =~= a);
        assert(body_table(a) + body_table(b) =~= body_table(a));
    } else {
        lemma_body_table_concat(a, b.drop_last());
        assert((a + b).drop_last() =~= a + b.drop_last());
        assert((a + b).last() == b.last());
        assert(body_table(a + b) =~= body_table(a) + body_table(b));
    }
}

/// The table of some bodies is the table of those before `i`, then the
/// entry of body `i`, then the table of those after it.
proof fn lemma_body_table_split(vs: Seq<SymbolBodyView>, i: int)
    requires
        0 <= i < vs.len(),
    ensures
        body_table(vs) == body_table(vs.take(i)) + body_entry(vs[i]) + body_table(vs.skip(i + 1)),
{
    assert(vs =~= vs.take(i + 1) + vs.skip(i + 1));
    lemma_body_table_concat(vs.take(i + 1), vs.skip(i + 1));
    assert(vs.take(i + 1).drop_last() =~= vs.take(i));
    assert(vs.take(i + 1).last() == vs[i]);
}

/// Each entry of the body table lies within it.
pub proof fn lemma_body_table_holds_entry(vs: Seq<SymbolBodyView>, i: int)
    requires
        0 <= i < vs.len(),
    ensures
        body_table(vs).len() >= body_entry(vs[i]).len(),
{
    lemma_body_table_split(vs, i);
}

} // verus!
