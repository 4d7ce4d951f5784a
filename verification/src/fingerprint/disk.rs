//! The `.biwafp` disk format.
//!
//! It is a file of its own, apart from `.biwameta`, for two reasons: the
//! freshness check should not have to decode `.biwameta`, and source hashes
//! are not interface, so mixing them in would change the SVH on every source
//! edit and stop change propagation from being cut short.
//!
//! Layout:
//!   [MAGIC: 4B][version: u32 LE]
//!   [compiler: u64][manifest: u64][own_svh: u64]
//!   [dep_count: u32][(pkg_id: u32, svh: u64); dep_count]
//!   [src_count: u32][(path_len: u32, path bytes, len: u64, hash: u64); src_count]

use vstd::prelude::*;
use vstd::utf8::{encode_utf8, valid_utf8, decode_utf8};
use crate::hash::Hash64;
use crate::le_bytes::{u32_le, u64_le, u32_from_le, u64_from_le, u32_read_le, u64_read_le,
    push_u32_le, push_u64_le, push_bytes, lemma_u32_le_roundtrip, lemma_u64_le_roundtrip};
use crate::package::PackageId;
use crate::decimal::{decimal, push_decimal};
use crate::text::{push_str, string_of_str, str_from_utf8};
use super::{Fingerprint, SourceEntry, BIWAC_FINGERPRINT_FORMAT_VERSION, sources_view};

verus! {

/// The first four bytes of every fingerprint file: `bwfp`.
pub const BIWAC_FINGERPRINT_MAGIC: [u8; 4] = [0x62u8, 0x77u8, 0x66u8, 0x70u8];

/// Why a fingerprint file could not be read.
#[derive(Debug, Clone, Copy, PartialEq, Eq, Structural)]
pub enum FingerprintDecodeError {
    UnexpectedEnd,
    InvalidMagic,
    /// The format changed. Not corruption: the previous information is
    /// simply unusable.
    InvalidVersion { got: u32 },
    InvalidUtf8,
}

impl FingerprintDecodeError {
    /// The error as a sentence.
    pub fn message(&self) -> (r: String)
        ensures
            r@ == match *self {
                FingerprintDecodeError::UnexpectedEnd => "unexpected end of data"@,
                FingerprintDecodeError::InvalidMagic => "invalid magic bytes (not a .biwafp file)"@,
                FingerprintDecodeError::InvalidVersion { got } =>
                    "unsupported .biwafp format version: "@ + decimal(got as nat),
                FingerprintDecodeError::InvalidUtf8 => "invalid UTF-8 in path"@,
            },
    {
        match self {
            FingerprintDecodeError::UnexpectedEnd => string_of_str("unexpected end of data"),
            FingerprintDecodeError::InvalidMagic => string_of_str(
                "invalid magic bytes (not a .biwafp file)",
            ),
            FingerprintDecodeError::InvalidVersion { got } => {
                let mut s = string_of_str("unsupported .biwafp format version: ");
                push_decimal(&mut s, *got as usize);
                s
            },
            FingerprintDecodeError::InvalidUtf8 => string_of_str("invalid UTF-8 in path"),
        }
    }
}

// ---------------------------------------------------------------------------
// The format, as bytes.

/// One dependency: its id, then its SVH.
pub open spec fn dep_bytes(d: (PackageId, Hash64)) -> Seq<u8> {
    u32_le(d.0.0) + u64_le(d.1.0)
}

pub open spec fn deps_bytes(ds: Seq<(PackageId, Hash64)>) -> Seq<u8>
    decreases ds.len(),
{
    if ds.len() == 0 {
        Seq::empty()
    } else {
        deps_bytes(ds.drop_last()) + dep_bytes(ds.last())
    }
}

/// A string: its UTF-8 length as a `u32` (wrapping past `u32::MAX`, as
/// `len as u32` does), then its UTF-8 bytes.
pub open spec fn str_bytes(s: Seq<char>) -> Seq<u8> {
    u32_le(encode_utf8(s).len() as u32) + encode_utf8(s)
}

/// One source file: path, length, hash.
pub open spec fn entry_bytes(e: (Seq<char>, u64, u64)) -> Seq<u8> {
    str_bytes(e.0) + u64_le(e.1) + u64_le(e.2)
}

pub open spec fn entries_bytes(es: Seq<(Seq<char>, u64, u64)>) -> Seq<u8>
    decreases es.len(),
{
    if es.len() == 0 {
        Seq::empty()
    } else {
        entries_bytes(es.drop_last()) + entry_bytes(es.last())
    }
}

/// The bytes of the fingerprint file of `fp`.
pub open spec fn fingerprint_bytes(fp: Fingerprint) -> Seq<u8> {
    BIWAC_FINGERPRINT_MAGIC@ + u32_le(BIWAC_FINGERPRINT_FORMAT_VERSION) + u64_le(fp.compiler.0)
        + u64_le(fp.manifest.0) + u64_le(fp.own_svh.0) + u32_le(fp.deps@.len() as u32)
        + deps_bytes(fp.deps@) + u32_le(fp.sources@.len() as u32) + entries_bytes(
        sources_view(fp.sources@),
    )
}

// ---------------------------------------------------------------------------
// Reading the format back.

/// A fingerprint as plain values.
pub ghost struct FingerprintView {
    pub compiler: u64,
    pub manifest: u64,
    pub own_svh: u64,
    pub deps: Seq<(PackageId, Hash64)>,
    pub sources: Seq<(Seq<char>, u64, u64)>,
}

pub open spec fn fingerprint_view(fp: Fingerprint) -> FingerprintView {
    FingerprintView {
        compiler: fp.compiler.0,
        manifest: fp.manifest.0,
        own_svh: fp.own_svh.0,
        deps: fp.deps@,
        sources: sources_view(fp.sources@),
    }
}

/// The little-endian `u32` at `p`.
pub open spec fn u32_at(data: Seq<u8>, p: int) -> u32 {
    u32_from_le(data.subrange(p, p + 4))
}

/// The little-endian `u64` at `p`.
pub open spec fn u64_at(data: Seq<u8>, p: int) -> u64 {
    u64_from_le(data.subrange(p, p + 8))
}

/// `count` dependencies read from `pos` on, with the position after them;
/// `None` when the data ends first.
pub open spec fn parse_deps(data: Seq<u8>, pos: int, count: nat) -> Option<(Seq<(PackageId, Hash64)>, int)>
    decreases count,
{
    if count == 0 {
        Some((Seq::empty(), pos))
    } else {
        match parse_deps(data, pos, (count - 1) as nat) {
            Some((ds, p)) => if p + 12 <= data.len() {
                Some((ds.push((PackageId(u32_at(data, p)), Hash64(u64_at(data, p + 4)))), p + 12))
            } else {
                None
            },
            None => None,
        }
    }
}

/// One source entry read at `p`, with the position after it.
pub open spec fn parse_entry(data: Seq<u8>, p: int) -> Result<((Seq<char>, u64, u64), int), FingerprintDecodeError> {
    if p + 4 > data.len() {
        Err(FingerprintDecodeError::UnexpectedEnd)
    } else {
        let q = p + 4;
        let n = u32_at(data, p) as int;
        if q + n > data.len() {
            Err(FingerprintDecodeError::UnexpectedEnd)
        } else if !valid_utf8(data.subrange(q, q + n)) {
            Err(FingerprintDecodeError::InvalidUtf8)
        } else if q + n + 16 > data.len() {
            Err(FingerprintDecodeError::UnexpectedEnd)
        } else {
            Ok(((decode_utf8(data.subrange(q, q + n)), u64_at(data, q + n), u64_at(data, q + n + 8)), q + n + 16))
        }
    }
}

/// `count` source entries read from `pos` on, with the position after them.
pub open spec fn parse_entries(data: Seq<u8>, pos: int, count: nat) -> Result<(Seq<(Seq<char>, u64, u64)>, int), FingerprintDecodeError>
    decreases count,
{
    if count == 0 {
        Ok((Seq::empty(), pos))
    } else {
        match parse_entries(data, pos, (count - 1) as nat) {
            Ok((es, p)) => match parse_entry(data, p) {
                Ok((e, q)) => Ok((es.push(e), q)),
                Err(err) => Err(err),
            },
            Err(err) => Err(err),
        }
    }
}

/// What reading a fingerprint file gives. Bytes after the last entry are
/// not looked at.
pub open spec fn parse_fingerprint(data: Seq<u8>) -> Result<FingerprintView, FingerprintDecodeError> {
    if data.len() < 4 {
        Err(FingerprintDecodeError::UnexpectedEnd)
    } else if data.subrange(0, 4) != BIWAC_FINGERPRINT_MAGIC@ {
        Err(FingerprintDecodeError::InvalidMagic)
    } else if data.len() < 8 {
        Err(FingerprintDecodeError::UnexpectedEnd)
    } else if u32_at(data, 4) != BIWAC_FINGERPRINT_FORMAT_VERSION {
        Err(FingerprintDecodeError::InvalidVersion { got: u32_at(data, 4) })
    } else if data.len() < 36 {
        Err(FingerprintDecodeError::UnexpectedEnd)
    } else {
        match parse_deps(data, 36, u32_at(data, 32) as nat) {
            None => Err(FingerprintDecodeError::UnexpectedEnd),
            Some((deps, p)) => if p + 4 > data.len() {
                Err(FingerprintDecodeError::UnexpectedEnd)
            } else {
                match parse_entries(data, p + 4, u32_at(data, p) as nat) {
                    Err(e) => Err(e),
                    Ok((sources, _)) => Ok(
                        FingerprintView {
                            compiler: u64_at(data, 8),
                            manifest: u64_at(data, 16),
                            own_svh: u64_at(data, 24),
                            deps,
                            sources,
                        },
                    ),
                }
            },
        }
    }
}

/// Once the dependencies run out of data, reading more of them does too.
proof fn lemma_parse_deps_stays_none(data: Seq<u8>, pos: int, k: nat, count: nat)
    requires
        k <= count,
        parse_deps(data, pos, k) is None,
    ensures
        parse_deps(data, pos, count) is None,
    decreases count,
{
    if count > k {
        lemma_parse_deps_stays_none(data, pos, k, (count - 1) as nat);
    }
}

/// Once reading source entries fails, reading more of them fails the same way.
proof fn lemma_parse_entries_stays_err(data: Seq<u8>, pos: int, k: nat, count: nat)
    requires
        k <= count,
        parse_entries(data, pos, k) is Err,
    ensures
        parse_entries(data, pos, count) == parse_entries(data, pos, k),
    decreases count,
{
    if count > k {
        lemma_parse_entries_stays_err(data, pos, k, (count - 1) as nat);
    }
}

/// Reading back the bytes of some dependencies, whatever stands around them,
/// gives those dependencies and the position right after them.
proof fn lemma_parse_deps_bytes(pre: Seq<u8>, ds: Seq<(PackageId, Hash64)>, post: Seq<u8>)
    ensures
        parse_deps(pre + deps_bytes(ds) + post, pre.len() as int, ds.len()) == Some(
            (ds, (pre.len() + deps_bytes(ds).len()) as int),
        ),
    decreases ds.len(),
{
    let data = pre + deps_bytes(ds) + post;
    if ds.len() == 0 {
        assert(ds =~= Seq::<(PackageId, Hash64)>::empty());
    } else {
        let init = ds.drop_last();
        let d = ds.last();
        assert(data =~= pre + deps_bytes(init) + (dep_bytes(d) + post));
        lemma_parse_deps_bytes(pre, init, dep_bytes(d) + post);
        let p: int = (pre.len() + deps_bytes(init).len()) as int;
        lemma_u32_le_roundtrip(d.0.0);
        lemma_u64_le_roundtrip(d.1.0);
        assert(data.subrange(p, p + 4) =~= u32_le(d.0.0));
        assert(data.subrange(p + 4, p + 12) =~= u64_le(d.1.0));
        assert(init.push(d) =~= ds);
    }
}

/// Reading back the bytes of some source entries, whatever stands around
/// them, gives those entries and the position right after them, when every
/// path's UTF-8 length fits in a `u32`.
proof fn lemma_parse_entries_bytes(pre: Seq<u8>, es: Seq<(Seq<char>, u64, u64)>, post: Seq<u8>)
    requires
        forall|i: int| 0 <= i < es.len() ==> encode_utf8(#[trigger] es[i].0).len() <= u32::MAX,
    ensures
        parse_entries(pre + entries_bytes(es) + post, pre.len() as int, es.len()) == Ok::<
            (Seq<(Seq<char>, u64, u64)>, int),
            FingerprintDecodeError,
        >((es, (pre.len() + entries_bytes(es).len()) as int)),
    decreases es.len(),
{
    let data = pre + entries_bytes(es) + post;
    if es.len() == 0 {
        assert(es =~= Seq::<(Seq<char>, u64, u64)>::empty());
    } else {
        let init = es.drop_last();
        let e = es.last();
        assert(data =~= pre + entries_bytes(init) + (entry_bytes(e) + post));
        assert forall|i: int| 0 <= i < init.len() implies encode_utf8(
            #[trigger] init[i].0,
        ).len() <= u32::MAX by {
            assert(init[i] == es[i]);
        }
        lemma_parse_entries_bytes(pre, init, entry_bytes(e) + post);
        let p: int = (pre.len() + entries_bytes(init).len()) as int;
        let enc = encode_utf8(e.0);
        let n: int = enc.len() as int;
        assert(es[es.len() - 1] == e);
        assert(n <= u32::MAX);
        lemma_u32_le_roundtrip(n as u32);
        lemma_u64_le_roundtrip(e.1);
        lemma_u64_le_roundtrip(e.2);
        vstd::utf8::encode_utf8_valid_utf8(e.0);
        vstd::utf8::encode_utf8_decode_utf8(e.0);
        assert(data.subrange(p, p + 4) =~= u32_le(n as u32));
        assert(u32_at(data, p) == n);
        assert(data.subrange(p + 4, p + 4 + n) =~= enc);
        assert(data.subrange(p + 4 + n, p + 12 + n) =~= u64_le(e.1));
        assert(data.subrange(p + 12 + n, p + 20 + n) =~= u64_le(e.2));
        assert(init.push(e) =~= es);
    }
}

/// Reading a fingerprint file gives back the fingerprint that was written,
/// whatever bytes follow it, when its counts and each path's UTF-8 length
/// fit in a `u32` (the format stores them as `u32`).
pub proof fn lemma_decode_encode(fp: Fingerprint, rest: Seq<u8>)
    requires
        fp.deps@.len() <= u32::MAX,
        fp.sources@.len() <= u32::MAX,
        forall|i: int| 0 <= i < fp.sources@.len() ==> encode_utf8(#[trigger] fp.sources@[i].path@).len()
            <= u32::MAX,
    ensures
        parse_fingerprint(fingerprint_bytes(fp) + rest) == Ok::<FingerprintView, FingerprintDecodeError>(
            fingerprint_view(fp),
        ),
{
    let data = fingerprint_bytes(fp) + rest;
    let sv = sources_view(fp.sources@);
    let head = BIWAC_FINGERPRINT_MAGIC@ + u32_le(BIWAC_FINGERPRINT_FORMAT_VERSION) + u64_le(
        fp.compiler.0,
    ) + u64_le(fp.manifest.0) + u64_le(fp.own_svh.0) + u32_le(fp.deps@.len() as u32);
    lemma_u32_le_roundtrip(BIWAC_FINGERPRINT_FORMAT_VERSION);
    lemma_u32_le_roundtrip(fp.deps@.len() as u32);
    lemma_u32_le_roundtrip(fp.sources@.len() as u32);
    lemma_u64_le_roundtrip(fp.compiler.0);
    lemma_u64_le_roundtrip(fp.manifest.0);
    lemma_u64_le_roundtrip(fp.own_svh.0);
    assert(BIWAC_FINGERPRINT_MAGIC@.len() == 4);
    assert(head.len() == 36);
    assert(data.subrange(0, 4) =~= BIWAC_FINGERPRINT_MAGIC@);
    assert(data.subrange(4, 8) =~= u32_le(BIWAC_FINGERPRINT_FORMAT_VERSION));
    assert(data.subrange(8, 16) =~= u64_le(fp.compiler.0));
    assert(data.subrange(16, 24) =~= u64_le(fp.manifest.0));
    assert(data.subrange(24, 32) =~= u64_le(fp.own_svh.0));
    assert(data.subrange(32, 36) =~= u32_le(fp.deps@.len() as u32));
    let tail = u32_le(fp.sources@.len() as u32) + entries_bytes(sv) + rest;
    assert(data =~= head + deps_bytes(fp.deps@) + tail);
    lemma_parse_deps_bytes(head, fp.deps@, tail);
    let p: int = (36 + deps_bytes(fp.deps@).len()) as int;
    let pre2 = head + deps_bytes(fp.deps@) + u32_le(fp.sources@.len() as u32);
    assert(data =~= pre2 + entries_bytes(sv) + rest);
    assert(data.subrange(p, p + 4) =~= u32_le(fp.sources@.len() as u32));
    assert forall|i: int| 0 <= i < sv.len() implies encode_utf8(#[trigger] sv[i].0).len()
        <= u32::MAX by {
        assert(sv[i].0 == fp.sources@[i].path@);
    }
    lemma_parse_entries_bytes(pre2, sv, rest);
}

struct Reader<'a> {
    data: &'a [u8],
    pos: usize,
}

impl<'a> Reader<'a> {
    fn take(&mut self, n: usize) -> (r: Result<&'a [u8], FingerprintDecodeError>)
        requires
            old(self).pos <= old(self).data@.len(),
        ensures
            final(self).data == old(self).data,
            final(self).pos <= final(self).data@.len(),
            old(self).pos + n <= old(self).data@.len() ==> (r matches Ok(s) && s@ == old(
                self,
            ).data@.subrange(old(self).pos as int, old(self).pos + n) && final(self).pos == old(
                self,
            ).pos + n),
            old(self).pos + n > old(self).data@.len() ==> r == Err::<&'a [u8], FingerprintDecodeError>(
                FingerprintDecodeError::UnexpectedEnd,
            ),
    {
        if n > self.data.len() - self.pos {
            return Err(FingerprintDecodeError::UnexpectedEnd);
        }
        let s = &self.data[self.pos..self.pos + n];
        self.pos = self.pos + n;
        Ok(s)
    }

    fn u32(&mut self) -> (r: Result<u32, FingerprintDecodeError>)
        requires
            old(self).pos <= old(self).data@.len(),
        ensures
            final(self).data == old(self).data,
            final(self).pos <= final(self).data@.len(),
            old(self).pos + 4 <= old(self).data@.len() ==> r == Ok::<u32, FingerprintDecodeError>(
                u32_at(old(self).data@, old(self).pos as int),
            ) && final(self).pos == old(self).pos + 4,
            old(self).pos + 4 > old(self).data@.len() ==> r == Err::<u32, FingerprintDecodeError>(
                FingerprintDecodeError::UnexpectedEnd,
            ),
    {
        if 4 > self.data.len() - self.pos {
            return Err(FingerprintDecodeError::UnexpectedEnd);
        }
        let v = u32_read_le(self.data, self.pos);
        self.pos = self.pos + 4;
        Ok(v)
    }

    fn u64(&mut self) -> (r: Result<u64, FingerprintDecodeError>)
        requires
            old(self).pos <= old(self).data@.len(),
        ensures
            final(self).data == old(self).data,
            final(self).pos <= final(self).data@.len(),
            old(self).pos + 8 <= old(self).data@.len() ==> r == Ok::<u64, FingerprintDecodeError>(
                u64_at(old(self).data@, old(self).pos as int),
            ) && final(self).pos == old(self).pos + 8,
            old(self).pos + 8 > old(self).data@.len() ==> r == Err::<u64, FingerprintDecodeError>(
                FingerprintDecodeError::UnexpectedEnd,
            ),
    {
        if 8 > self.data.len() - self.pos {
            return Err(FingerprintDecodeError::UnexpectedEnd);
        }
        let v = u64_read_le(self.data, self.pos);
        self.pos = self.pos + 8;
        Ok(v)
    }

    fn hash(&mut self) -> (r: Result<Hash64, FingerprintDecodeError>)
        requires
            old(self).pos <= old(self).data@.len(),
        ensures
            final(self).data == old(self).data,
            final(self).pos <= final(self).data@.len(),
            old(self).pos + 8 <= old(self).data@.len() ==> r == Ok::<Hash64, FingerprintDecodeError>(
                Hash64(u64_at(old(self).data@, old(self).pos as int)),
            ) && final(self).pos == old(self).pos + 8,
            old(self).pos + 8 > old(self).data@.len() ==> r == Err::<Hash64, FingerprintDecodeError>(
                FingerprintDecodeError::UnexpectedEnd,
            ),
    {
        match self.u64() {
            Ok(v) => Ok(Hash64::from_u64(v)),
            Err(e) => Err(e),
        }
    }

    /// One source entry.
    fn entry(&mut self) -> (r: Result<SourceEntry, FingerprintDecodeError>)
        requires
            old(self).pos <= old(self).data@.len(),
        ensures
            final(self).data == old(self).data,
            final(self).pos <= final(self).data@.len(),
            match (r, parse_entry(old(self).data@, old(self).pos as int)) {
                (Ok(e), Ok((v, q))) => (e.path@, e.len, e.hash.0) == v && final(self).pos == q,
                (Err(e), Err(e2)) => e == e2,
                _ => false,
            },
    {
        let n = match self.u32() {
            Ok(n) => n,
            Err(e) => return Err(e),
        };
        let bytes = match self.take(n as usize) {
            Ok(b) => b,
            Err(e) => return Err(e),
        };
        let path = match str_from_utf8(bytes) {
            Some(s) => string_of_str(s),
            None => return Err(FingerprintDecodeError::InvalidUtf8),
        };
        let len = match self.u64() {
            Ok(v) => v,
            Err(e) => return Err(e),
        };
        let hash = match self.hash() {
            Ok(h) => h,
            Err(e) => return Err(e),
        };
        Ok(SourceEntry { path, len, hash })
    }
}

/// Appends a string: its UTF-8 length as a `u32`, then its bytes.
fn push_str_bytes(buf: &mut Vec<u8>, s: &str)
    ensures
        final(buf)@ == old(buf)@ + str_bytes(s@),
{
    let bytes = s.as_bytes();
    push_u32_le(buf, bytes.len() as u32);
    push_bytes(buf, bytes);
    assert(final(buf)@ =~= old(buf)@ + str_bytes(s@));
}

impl Fingerprint {
    /// The bytes of this fingerprint's file.
    pub fn encode_file(&self) -> (r: Vec<u8>)
        ensures
            r@ == fingerprint_bytes(*self),
    {
        let mut buf: Vec<u8> = Vec::new();
        push_bytes(&mut buf, &BIWAC_FINGERPRINT_MAGIC);
        push_u32_le(&mut buf, BIWAC_FINGERPRINT_FORMAT_VERSION);
        push_u64_le(&mut buf, self.compiler.as_u64());
        push_u64_le(&mut buf, self.manifest.as_u64());
        push_u64_le(&mut buf, self.own_svh.as_u64());
        push_u32_le(&mut buf, self.deps.len() as u32);
        let ghost head = buf@;
        let mut i: usize = 0;
        assert(self.deps@.take(0) =~= Seq::<(PackageId, Hash64)>::empty());
        assert(head + deps_bytes(self.deps@.take(0)) =~= head);
        while i < self.deps.len()
            invariant
                i <= self.deps@.len(),
                buf@ == head + deps_bytes(self.deps@.take(i as int)),
            decreases self.deps@.len() - i,
        {
            let (pkg_id, svh) = self.deps[i];
            push_u32_le(&mut buf, pkg_id.value());
            push_u64_le(&mut buf, svh.as_u64());
            proof {
                let t = self.deps@.take(i + 1);
                assert(t.drop_last() =~= self.deps@.take(i as int));
                assert(buf@ =~= head + deps_bytes(t));
            }
            i = i + 1;
        }
        assert(self.deps@.take(self.deps@.len() as int) =~= self.deps@);
        push_u32_le(&mut buf, self.sources.len() as u32);
        let ghost head2 = buf@;
        let ghost sv = sources_view(self.sources@);
        let mut k: usize = 0;
        assert(sv.take(0) =~= Seq::<(Seq<char>, u64, u64)>::empty());
        assert(head2 + entries_bytes(sv.take(0)) =~= head2);
        while k < self.sources.len()
            invariant
                k <= self.sources@.len(),
                sv == sources_view(self.sources@),
                buf@ == head2 + entries_bytes(sv.take(k as int)),
            decreases self.sources@.len() - k,
        {
            let e = &self.sources[k];
            push_str_bytes(&mut buf, e.path.as_str());
            push_u64_le(&mut buf, e.len);
            push_u64_le(&mut buf, e.hash.as_u64());
            proof {
                let t = sv.take(k + 1);
                assert(t.drop_last() =~= sv.take(k as int));
                assert(t.last() == (e.path@, e.len, e.hash.0));
                assert(buf@ =~= head2 + entries_bytes(t));
            }
            k = k + 1;
        }
        assert(sv.take(self.sources@.len() as int) =~= sv);
        assert(buf@ =~= fingerprint_bytes(*self));
        buf
    }

    /// Reads a fingerprint file back.
    pub fn decode_file(data: &[u8]) -> (r: Result<Self, FingerprintDecodeError>)
        ensures
            match r {
                Ok(fp) => parse_fingerprint(data@) == Ok::<FingerprintView, FingerprintDecodeError>(
                    fingerprint_view(fp),
                ),
                Err(e) => parse_fingerprint(data@) == Err::<FingerprintView, FingerprintDecodeError>(e),
            },
    {
        let mut r = Reader { data, pos: 0 };
        let magic = match r.take(4) {
            Ok(m) => m,
            Err(e) => return Err(e),
        };
        if magic[0] != BIWAC_FINGERPRINT_MAGIC[0] || magic[1] != BIWAC_FINGERPRINT_MAGIC[1]
            || magic[2] != BIWAC_FINGERPRINT_MAGIC[2] || magic[3] != BIWAC_FINGERPRINT_MAGIC[3] {
            proof {
                assert(data@.subrange(0, 4) != BIWAC_FINGERPRINT_MAGIC@);
            }
            return Err(FingerprintDecodeError::InvalidMagic);
        }
        assert(data@.subrange(0, 4) =~= BIWAC_FINGERPRINT_MAGIC@);
        let version = match r.u32() {
            Ok(v) => v,
            Err(e) => return Err(e),
        };
        if version != BIWAC_FINGERPRINT_FORMAT_VERSION {
            return Err(FingerprintDecodeError::InvalidVersion { got: version });
        }
        if 28 > data.len() - r.pos {
            return Err(FingerprintDecodeError::UnexpectedEnd);
        }
        let compiler = match r.hash() {
            Ok(h) => h,
            Err(e) => return Err(e),
        };
        let manifest = match r.hash() {
            Ok(h) => h,
            Err(e) => return Err(e),
        };
        let own_svh = match r.hash() {
            Ok(h) => h,
            Err(e) => return Err(e),
        };
        let dep_count = match r.u32() {
            Ok(n) => n,
            Err(e) => return Err(e),
        };
        assert(r.pos == 36);
        let mut deps: Vec<(PackageId, Hash64)> = Vec::new();
        let mut i: u32 = 0;
        while i < dep_count
            invariant
                i <= dep_count,
                r.data == data,
                r.pos <= data@.len(),
                dep_count == u32_at(data@, 32),
                data@.len() >= 36,
                data@.subrange(0, 4) == BIWAC_FINGERPRINT_MAGIC@,
                u32_at(data@, 4) == BIWAC_FINGERPRINT_FORMAT_VERSION,
                parse_deps(data@, 36, i as nat) == Some((deps@, r.pos as int)),
            decreases dep_count - i,
        {
            let ghost p = r.pos as int;
            let pkg_id = match r.u32() {
                Ok(v) => v,
                Err(e) => {
                    proof {
                        lemma_parse_deps_stays_none(data@, 36, (i + 1) as nat, dep_count as nat);
                    }
                    return Err(e);
                },
            };
            let svh = match r.hash() {
                Ok(h) => h,
                Err(e) => {
                    proof {
                        lemma_parse_deps_stays_none(data@, 36, (i + 1) as nat, dep_count as nat);
                    }
                    return Err(e);
                },
            };
            deps.push((PackageId::new(pkg_id), svh));
            assert(parse_deps(data@, 36, (i + 1) as nat) == Some((deps@, r.pos as int)));
            i = i + 1;
        }
        let ghost p = r.pos as int;
        let src_count = match r.u32() {
            Ok(n) => n,
            Err(e) => return Err(e),
        };
        let ghost start = r.pos as int;
        let mut sources: Vec<SourceEntry> = Vec::new();
        let mut k: u32 = 0;
        assert(sources_view(sources@) =~= Seq::<(Seq<char>, u64, u64)>::empty());
        while k < src_count
            invariant
                k <= src_count,
                r.data == data,
                r.pos <= data@.len(),
                start == p + 4,
                src_count == u32_at(data@, p),
                p + 4 <= data@.len(),
                parse_deps(data@, 36, u32_at(data@, 32) as nat) == Some((deps@, p)),
                data@.len() >= 36,
                data@.subrange(0, 4) == BIWAC_FINGERPRINT_MAGIC@,
                u32_at(data@, 4) == BIWAC_FINGERPRINT_FORMAT_VERSION,
                parse_entries(data@, start, k as nat) == Ok::<(Seq<(Seq<char>, u64, u64)>, int), FingerprintDecodeError>(
                    (sources_view(sources@), r.pos as int),
                ),
            decreases src_count - k,
        {
            let e = match r.entry() {
                Ok(e) => e,
                Err(e) => {
                    proof {
                        lemma_parse_entries_stays_err(data@, start, (k + 1) as nat, src_count as nat);
                    }
                    return Err(e);
                },
            };
            let ghost before = sources@;
            sources.push(e);
            assert(sources_view(sources@) =~= sources_view(before).push((e.path@, e.len, e.hash.0)));
            k = k + 1;
        }
        let fp = Fingerprint { compiler, manifest, own_svh, deps, sources };
        assert(fingerprint_view(fp) == FingerprintView {
            compiler: u64_at(data@, 8),
            manifest: u64_at(data@, 16),
            own_svh: u64_at(data@, 24),
            deps: fp.deps@,
            sources: sources_view(fp.sources@),
        });
        Ok(fp)
    }
}

} // verus!
