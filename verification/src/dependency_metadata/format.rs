//! The on-disk layout of `.biwameta`.
//!
//! Layout:
//!   [MAGIC: 4B][version: u32 LE]
//!   [sym_hdr_count: u32][DiskSymbolHeader; sym_hdr_count]
//!   [root_sym_idx: u32]
//!   [sym_body_total_bytes: u32][body_data: sym_body_total_bytes B]
//!     (each entry: [body_size: u32][body: body_size B])
//!   [source_file_count: u32][DiskSourceInfo; source_file_count]
//!   [string_table_total_bytes: u32][string_data: string_table_total_bytes B]
//!     (each string: NUL-terminated UTF-8)
//!   [lang_item_count: u32][DiskLangItem; lang_item_count]
//!   [svh: u64]
//!   [dep_svh_count: u32][DiskDepSvh; dep_svh_count]
//!   [ext_sym_count: u32][DiskExternalSymbol; ext_sym_count]

use vstd::prelude::*;
use crate::le_bytes::{u32_le, u64_le, u32_read_le, lemma_u32_le_roundtrip};
use vstd::seq_lib::lemma_concat_associative;
use super::codec::{DiskDecode, DiskEncode, DiskCodec, DiskVec, field, lemma_field, lemma_field_first,
    unexpected_end};
use super::error::DepMetadataError;

verus! {

/// The first four bytes of every `.biwameta` file: `bwmt`.
pub const BIWAC_DEPENDENCY_METADATA_MAGIC: [u8; 4] = [0x62u8, 0x77u8, 0x6du8, 0x74u8];

/// The format version; raised whenever the layout changes.
pub const BIWAC_DEPENDENCY_METADATA_FORMAT_VERSION: u32 = 5;

// --- indices and offsets ---

/// A byte offset into the symbol body data, pointing at a body's size prefix.
#[derive(Debug, Clone, Copy, PartialEq, Eq, Structural)]
pub struct DiskBodyOffset(pub u32);

impl View for DiskBodyOffset {
    type V = DiskBodyOffset;

    open spec fn view(&self) -> DiskBodyOffset {
        *self
    }
}

impl DiskDecode for DiskBodyOffset {
    closed spec fn parse(bytes: Seq<u8>) -> Result<(DiskBodyOffset, int), DepMetadataError> {
        match <u32 as DiskDecode>::parse(bytes) {
            Ok((v, n)) => Ok((DiskBodyOffset(v), n)),
            Err(e) => Err(e),
        }
    }

    fn decode(bytes: &[u8]) -> (r: Result<(DiskBodyOffset, usize), DepMetadataError>) {
        match u32::decode(bytes) {
            Ok((v, n)) => Ok((DiskBodyOffset(v), n)),
            Err(e) => Err(e),
        }
    }
}

impl DiskEncode for DiskBodyOffset {
    open spec fn encoding(v: DiskBodyOffset) -> Seq<u8> {
        u32_le(v.0)
    }

    fn encode(&self, buf: &mut Vec<u8>) {
        self.0.encode(buf);
    }
}

impl DiskCodec for DiskBodyOffset {
    open spec fn encodable(v: DiskBodyOffset) -> bool {
        true
    }

    proof fn lemma_roundtrip(v: DiskBodyOffset, rest: Seq<u8>) {
        <u32 as DiskCodec>::lemma_roundtrip(v.0, rest);
    }
}

/// A byte offset into the string table data.
#[derive(Debug, Clone, Copy, PartialEq, Eq, Structural)]
pub struct DiskStringOffset(pub u32);

impl View for DiskStringOffset {
    type V = DiskStringOffset;

    open spec fn view(&self) -> DiskStringOffset {
        *self
    }
}

impl DiskDecode for DiskStringOffset {
    closed spec fn parse(bytes: Seq<u8>) -> Result<(DiskStringOffset, int), DepMetadataError> {
        match <u32 as DiskDecode>::parse(bytes) {
            Ok((v, n)) => Ok((DiskStringOffset(v), n)),
            Err(e) => Err(e),
        }
    }

    fn decode(bytes: &[u8]) -> (r: Result<(DiskStringOffset, usize), DepMetadataError>) {
        match u32::decode(bytes) {
            Ok((v, n)) => Ok((DiskStringOffset(v), n)),
            Err(e) => Err(e),
        }
    }
}

impl DiskEncode for DiskStringOffset {
    open spec fn encoding(v: DiskStringOffset) -> Seq<u8> {
        u32_le(v.0)
    }

    fn encode(&self, buf: &mut Vec<u8>) {
        self.0.encode(buf);
    }
}

impl DiskCodec for DiskStringOffset {
    open spec fn encodable(v: DiskStringOffset) -> bool {
        true
    }

    proof fn lemma_roundtrip(v: DiskStringOffset, rest: Seq<u8>) {
        <u32 as DiskCodec>::lemma_roundtrip(v.0, rest);
    }
}

/// An index into the source file table.
#[derive(Debug, Clone, Copy, PartialEq, Eq, Structural)]
pub struct DiskFileIndex(pub u32);

impl View for DiskFileIndex {
    type V = DiskFileIndex;

    open spec fn view(&self) -> DiskFileIndex {
        *self
    }
}

impl DiskDecode for DiskFileIndex {
    closed spec fn parse(bytes: Seq<u8>) -> Result<(DiskFileIndex, int), DepMetadataError> {
        match <u32 as DiskDecode>::parse(bytes) {
            Ok((v, n)) => Ok((DiskFileIndex(v), n)),
            Err(e) => Err(e),
        }
    }

    fn decode(bytes: &[u8]) -> (r: Result<(DiskFileIndex, usize), DepMetadataError>) {
        match u32::decode(bytes) {
            Ok((v, n)) => Ok((DiskFileIndex(v), n)),
            Err(e) => Err(e),
        }
    }
}

impl DiskEncode for DiskFileIndex {
    open spec fn encoding(v: DiskFileIndex) -> Seq<u8> {
        u32_le(v.0)
    }

    fn encode(&self, buf: &mut Vec<u8>) {
        self.0.encode(buf);
    }
}

impl DiskCodec for DiskFileIndex {
    open spec fn encodable(v: DiskFileIndex) -> bool {
        true
    }

    proof fn lemma_roundtrip(v: DiskFileIndex, rest: Seq<u8>) {
        <u32 as DiskCodec>::lemma_roundtrip(v.0, rest);
    }
}

/// An index into the symbol header table.
#[derive(Debug, Clone, Copy, PartialEq, Eq, Structural)]
pub struct DiskSymbolIndex(pub u32);

impl View for DiskSymbolIndex {
    type V = DiskSymbolIndex;

    open spec fn view(&self) -> DiskSymbolIndex {
        *self
    }
}

impl DiskDecode for DiskSymbolIndex {
    closed spec fn parse(bytes: Seq<u8>) -> Result<(DiskSymbolIndex, int), DepMetadataError> {
        match <u32 as DiskDecode>::parse(bytes) {
            Ok((v, n)) => Ok((DiskSymbolIndex(v), n)),
            Err(e) => Err(e),
        }
    }

    fn decode(bytes: &[u8]) -> (r: Result<(DiskSymbolIndex, usize), DepMetadataError>) {
        match u32::decode(bytes) {
            Ok((v, n)) => Ok((DiskSymbolIndex(v), n)),
            Err(e) => Err(e),
        }
    }
}

impl DiskEncode for DiskSymbolIndex {
    open spec fn encoding(v: DiskSymbolIndex) -> Seq<u8> {
        u32_le(v.0)
    }

    fn encode(&self, buf: &mut Vec<u8>) {
        self.0.encode(buf);
    }
}

impl DiskCodec for DiskSymbolIndex {
    open spec fn encodable(v: DiskSymbolIndex) -> bool {
        true
    }

    proof fn lemma_roundtrip(v: DiskSymbolIndex, rest: Seq<u8>) {
        <u32 as DiskCodec>::lemma_roundtrip(v.0, rest);
    }
}

// --- symbol kinds and visibility ---

/// What a symbol is.
#[derive(Debug, Clone, Copy, PartialEq, Eq, Structural)]
pub enum DiskSymbolKind {
    Mod,
    Struct,
    Fn,
    NativeTypeAlias,
}


/// The kind that `v` stands for, or the error for an unknown number.
pub open spec fn symbol_kind_of(v: u32) -> Result<DiskSymbolKind, DepMetadataError> {
    match v {
            0 => Ok(DiskSymbolKind::Mod),
            1 => Ok(DiskSymbolKind::Struct),
            2 => Ok(DiskSymbolKind::Fn),
            3 => Ok(DiskSymbolKind::NativeTypeAlias),
        _ => Err(DepMetadataError::UnknownSymbolKind(v)),
    }
}

impl TryFrom<u32> for DiskSymbolKind {
    type Error = DepMetadataError;

    fn try_from(v: u32) -> (r: Result<DiskSymbolKind, DepMetadataError>) {
        match v {
            0 => Ok(DiskSymbolKind::Mod),
            1 => Ok(DiskSymbolKind::Struct),
            2 => Ok(DiskSymbolKind::Fn),
            3 => Ok(DiskSymbolKind::NativeTypeAlias),
            _ => Err(DepMetadataError::UnknownSymbolKind(v)),
        }
    }
}

impl vstd::std_specs::convert::TryFromSpecImpl<u32> for DiskSymbolKind {
    open spec fn obeys_try_from_spec() -> bool {
        true
    }

    open spec fn try_from_spec(v: u32) -> Result<DiskSymbolKind, DepMetadataError> {
        symbol_kind_of(v)
    }
}

/// Who may see a symbol: private, `pub(super)`, `pub(package)`, `pub`.
#[derive(Debug, Clone, Copy, PartialEq, Eq, Structural)]
pub enum DiskVisibility {
    Private,
    SuperModulePublic,
    PackagePublic,
    Public,
}


/// The kind that `v` stands for, or the error for an unknown number.
pub open spec fn visibility_of(v: u32) -> Result<DiskVisibility, DepMetadataError> {
    match v {
            0 => Ok(DiskVisibility::Private),
            1 => Ok(DiskVisibility::SuperModulePublic),
            2 => Ok(DiskVisibility::PackagePublic),
            3 => Ok(DiskVisibility::Public),
        _ => Err(DepMetadataError::UnknownVisibility(v)),
    }
}

impl TryFrom<u32> for DiskVisibility {
    type Error = DepMetadataError;

    fn try_from(v: u32) -> (r: Result<DiskVisibility, DepMetadataError>) {
        match v {
            0 => Ok(DiskVisibility::Private),
            1 => Ok(DiskVisibility::SuperModulePublic),
            2 => Ok(DiskVisibility::PackagePublic),
            3 => Ok(DiskVisibility::Public),
            _ => Err(DepMetadataError::UnknownVisibility(v)),
        }
    }
}

impl vstd::std_specs::convert::TryFromSpecImpl<u32> for DiskVisibility {
    open spec fn obeys_try_from_spec() -> bool {
        true
    }

    open spec fn try_from_spec(v: u32) -> Result<DiskVisibility, DepMetadataError> {
        visibility_of(v)
    }
}

/// What a type reference is. `Defined` points at a symbol of this file, `ExternalDefined` at an entry of the external symbol table; `Gen` and `LocGen` are generic parameters of a type and of a function; `Fn` is a function type.
#[derive(Debug, Clone, Copy, PartialEq, Eq, Structural)]
pub enum DiskTyKind {
    Int,
    Float,
    Bool,
    Void,
    Defined,
    Gen,
    LocGen,
    Fn,
    ExternalDefined,
}


/// The kind that `v` stands for, or the error for an unknown number.
pub open spec fn ty_kind_of(v: u32) -> Result<DiskTyKind, DepMetadataError> {
    match v {
            0 => Ok(DiskTyKind::Int),
            1 => Ok(DiskTyKind::Float),
            2 => Ok(DiskTyKind::Bool),
            3 => Ok(DiskTyKind::Void),
            4 => Ok(DiskTyKind::Defined),
            5 => Ok(DiskTyKind::Gen),
            6 => Ok(DiskTyKind::LocGen),
            7 => Ok(DiskTyKind::Fn),
            8 => Ok(DiskTyKind::ExternalDefined),
        _ => Err(DepMetadataError::UnknownTyKind(v)),
    }
}

impl TryFrom<u32> for DiskTyKind {
    type Error = DepMetadataError;

    fn try_from(v: u32) -> (r: Result<DiskTyKind, DepMetadataError>) {
        match v {
            0 => Ok(DiskTyKind::Int),
            1 => Ok(DiskTyKind::Float),
            2 => Ok(DiskTyKind::Bool),
            3 => Ok(DiskTyKind::Void),
            4 => Ok(DiskTyKind::Defined),
            5 => Ok(DiskTyKind::Gen),
            6 => Ok(DiskTyKind::LocGen),
            7 => Ok(DiskTyKind::Fn),
            8 => Ok(DiskTyKind::ExternalDefined),
            _ => Err(DepMetadataError::UnknownTyKind(v)),
        }
    }
}

impl vstd::std_specs::convert::TryFromSpecImpl<u32> for DiskTyKind {
    open spec fn obeys_try_from_spec() -> bool {
        true
    }

    open spec fn try_from_spec(v: u32) -> Result<DiskTyKind, DepMetadataError> {
        ty_kind_of(v)
    }
}

/// The little-endian `u32` at `p`.
pub open spec fn u32_at(bytes: Seq<u8>, p: int) -> u32 {
    crate::le_bytes::u32_from_le(bytes.subrange(p, p + 4))
}

proof fn lemma_u32_at(pre: Seq<u8>, v: u32, post: Seq<u8>)
    ensures
        u32_at(pre + u32_le(v) + post, pre.len() as int) == v,
{
    lemma_u32_le_roundtrip(v);
    let data = pre + u32_le(v) + post;
    assert(data.subrange(pre.len() as int, pre.len() + 4int) =~= u32_le(v));
}

// --- the symbol header (12 bytes) ---

/// One entry of the symbol header table. It has a fixed size, so any entry
/// is reached in constant time.
#[derive(Debug, Clone, Copy, PartialEq, Eq, Structural)]
pub struct DiskSymbolHeader {
    /// A `DiskSymbolKind`, as its number.
    pub kind: u32,
    /// A `DiskVisibility`, as its number.
    pub vis: u32,
    /// Where the body's size prefix stands in the body data.
    pub offset: DiskBodyOffset,
}

pub const DISK_SYMBOL_HEADER_BYTE_SIZE: usize = 12;

impl DiskSymbolHeader {
    pub fn kind(&self) -> (r: Result<DiskSymbolKind, DepMetadataError>)
        ensures
            r == symbol_kind_of(self.kind),
    {
        DiskSymbolKind::try_from(self.kind)
    }

    pub fn vis(&self) -> (r: Result<DiskVisibility, DepMetadataError>)
        ensures
            r == visibility_of(self.vis),
    {
        DiskVisibility::try_from(self.vis)
    }
}

impl View for DiskSymbolHeader {
    type V = DiskSymbolHeader;

    open spec fn view(&self) -> DiskSymbolHeader {
        *self
    }
}

impl DiskDecode for DiskSymbolHeader {
    closed spec fn parse(bytes: Seq<u8>) -> Result<(DiskSymbolHeader, int), DepMetadataError> {
        if bytes.len() < 12 {
            Err(unexpected_end(12, bytes))
        } else {
            Ok(
                (
                    DiskSymbolHeader {
                        kind: u32_at(bytes, 0),
                        vis: u32_at(bytes, 4),
                        offset: DiskBodyOffset(u32_at(bytes, 8)),
                    },
                    12,
                ),
            )
        }
    }

    fn decode(bytes: &[u8]) -> (r: Result<(DiskSymbolHeader, usize), DepMetadataError>) {
        if bytes.len() < DISK_SYMBOL_HEADER_BYTE_SIZE {
            return Err(
                DepMetadataError::UnexpectedEnd {
                    needed: DISK_SYMBOL_HEADER_BYTE_SIZE,
                    available: bytes.len(),
                },
            );
        }
        let hdr = DiskSymbolHeader {
            kind: u32_read_le(bytes, 0),
            vis: u32_read_le(bytes, 4),
            offset: DiskBodyOffset(u32_read_le(bytes, 8)),
        };
        Ok((hdr, DISK_SYMBOL_HEADER_BYTE_SIZE))
    }
}

impl DiskEncode for DiskSymbolHeader {
    open spec fn encoding(v: DiskSymbolHeader) -> Seq<u8> {
        u32_le(v.kind) + u32_le(v.vis) + u32_le(v.offset.0)
    }

    fn encode(&self, buf: &mut Vec<u8>) {
        self.kind.encode(buf);
        self.vis.encode(buf);
        self.offset.encode(buf);
        assert(final(buf)@ =~= old(buf)@ + Self::encoding(*self));
    }
}

impl DiskCodec for DiskSymbolHeader {
    open spec fn encodable(v: DiskSymbolHeader) -> bool {
        true
    }

    proof fn lemma_roundtrip(v: DiskSymbolHeader, rest: Seq<u8>) {
        let e = Self::encoding(v);
        lemma_u32_at(Seq::empty(), v.kind, u32_le(v.vis) + u32_le(v.offset.0) + rest);
        lemma_u32_at(u32_le(v.kind), v.vis, u32_le(v.offset.0) + rest);
        lemma_u32_at(u32_le(v.kind) + u32_le(v.vis), v.offset.0, rest);
        assert(e + rest =~= Seq::<u8>::empty() + u32_le(v.kind) + (u32_le(v.vis) + u32_le(v.offset.0) + rest));
        assert(e + rest =~= u32_le(v.kind) + u32_le(v.vis) + (u32_le(v.offset.0) + rest));
        assert(e + rest =~= u32_le(v.kind) + u32_le(v.vis) + u32_le(v.offset.0) + rest);
    }
}

// --- spans (12 bytes) ---

/// Where something stands in a source file.
#[derive(Debug, Clone, Copy, PartialEq, Eq, Structural)]
pub struct DiskSpan {
    pub file: DiskFileIndex,
    pub begin: u32,
    pub end: u32,
}

pub const DISK_SPAN_BYTE_SIZE: usize = 12;

impl View for DiskSpan {
    type V = DiskSpan;

    open spec fn view(&self) -> DiskSpan {
        *self
    }
}

impl DiskDecode for DiskSpan {
    closed spec fn parse(bytes: Seq<u8>) -> Result<(DiskSpan, int), DepMetadataError> {
        if bytes.len() < 12 {
            Err(unexpected_end(12, bytes))
        } else {
            Ok(
                (
                    DiskSpan {
                        file: DiskFileIndex(u32_at(bytes, 0)),
                        begin: u32_at(bytes, 4),
                        end: u32_at(bytes, 8),
                    },
                    12,
                ),
            )
        }
    }

    fn decode(bytes: &[u8]) -> (r: Result<(DiskSpan, usize), DepMetadataError>) {
        if bytes.len() < DISK_SPAN_BYTE_SIZE {
            return Err(
                DepMetadataError::UnexpectedEnd { needed: DISK_SPAN_BYTE_SIZE, available: bytes.len() },
            );
        }
        let span = DiskSpan {
            file: DiskFileIndex(u32_read_le(bytes, 0)),
            begin: u32_read_le(bytes, 4),
            end: u32_read_le(bytes, 8),
        };
        Ok((span, DISK_SPAN_BYTE_SIZE))
    }
}

impl DiskEncode for DiskSpan {
    open spec fn encoding(v: DiskSpan) -> Seq<u8> {
        u32_le(v.file.0) + u32_le(v.begin) + u32_le(v.end)
    }

    fn encode(&self, buf: &mut Vec<u8>) {
        self.file.encode(buf);
        self.begin.encode(buf);
        self.end.encode(buf);
        assert(final(buf)@ =~= old(buf)@ + Self::encoding(*self));
    }
}

impl DiskCodec for DiskSpan {
    open spec fn encodable(v: DiskSpan) -> bool {
        true
    }

    proof fn lemma_roundtrip(v: DiskSpan, rest: Seq<u8>) {
        let e = Self::encoding(v);
        lemma_u32_at(Seq::empty(), v.file.0, u32_le(v.begin) + u32_le(v.end) + rest);
        lemma_u32_at(u32_le(v.file.0), v.begin, u32_le(v.end) + rest);
        lemma_u32_at(u32_le(v.file.0) + u32_le(v.begin), v.end, rest);
        assert(e + rest =~= Seq::<u8>::empty() + u32_le(v.file.0) + (u32_le(v.begin) + u32_le(v.end) + rest));
        assert(e + rest =~= u32_le(v.file.0) + u32_le(v.begin) + (u32_le(v.end) + rest));
        assert(e + rest =~= u32_le(v.file.0) + u32_le(v.begin) + u32_le(v.end) + rest);
    }
}


// --- type headers (20 bytes) ---

/// The fixed part of a type reference.
#[derive(Debug, Clone, Copy, PartialEq, Eq, Structural)]
pub struct DiskTyHeader {
    /// A `DiskTyKind`, as its number.
    pub kind: u32,
    /// By kind: a symbol of this file (`Defined`), an entry of the external symbol table (`ExternalDefined`), an ordinal among the declaring generics (`Gen`, `LocGen`), the number of arguments (`Fn`); otherwise 0.
    pub sym_id: DiskSymbolIndex,
    pub span: DiskSpan,
}


impl View for DiskTyHeader {
    type V = DiskTyHeader;

    open spec fn view(&self) -> DiskTyHeader {
        *self
    }
}


impl DiskDecode for DiskTyHeader {
    closed spec fn parse(bytes: Seq<u8>) -> Result<(DiskTyHeader, int), DepMetadataError> {
        match field::<u32>(bytes, 0) {
            Err(e) => Err(e),
            Ok((kind, p0)) => match field::<DiskSymbolIndex>(bytes, p0) {
                    Err(e) => Err(e),
                    Ok((sym_id, p1)) => match field::<DiskSpan>(bytes, p1) {
                            Err(e) => Err(e),
                            Ok((span, p2)) => Ok((DiskTyHeader { kind, sym_id, span }, p2)),
                        },
                },
        }
    }

    fn decode(bytes: &[u8]) -> (r: Result<(DiskTyHeader, usize), DepMetadataError>) {
        proof {
            assert(bytes@.subrange(0, bytes@.len() as int) =~= bytes@);
        }
        let mut pos: usize = 0;
        let (kind, n) = match <u32 as DiskDecode>::decode(&bytes[pos..bytes.len()]) {
            Ok(x) => x,
            Err(e) => return Err(e),
        };
        pos = pos + n;
        let (sym_id, n) = match <DiskSymbolIndex as DiskDecode>::decode(&bytes[pos..bytes.len()]) {
            Ok(x) => x,
            Err(e) => return Err(e),
        };
        pos = pos + n;
        let (span, n) = match <DiskSpan as DiskDecode>::decode(&bytes[pos..bytes.len()]) {
            Ok(x) => x,
            Err(e) => return Err(e),
        };
        pos = pos + n;
        Ok((DiskTyHeader { kind, sym_id, span }, pos))
    }
}


impl DiskEncode for DiskTyHeader {
    open spec fn encoding(v: DiskTyHeader) -> Seq<u8> {
        <u32 as DiskEncode>::encoding(v.kind) + <DiskSymbolIndex as DiskEncode>::encoding(v.sym_id) + <DiskSpan as DiskEncode>::encoding(v.span)
    }

    fn encode(&self, buf: &mut Vec<u8>) {
        self.kind.encode(buf);
        self.sym_id.encode(buf);
        self.span.encode(buf);
        assert(final(buf)@ =~= old(buf)@ + Self::encoding(self@));
    }
}


impl DiskCodec for DiskTyHeader {
    open spec fn encodable(v: DiskTyHeader) -> bool {
        <u32 as DiskCodec>::encodable(v.kind) && <DiskSymbolIndex as DiskCodec>::encodable(v.sym_id) && <DiskSpan as DiskCodec>::encodable(v.span)
    }

    proof fn lemma_roundtrip(v: DiskTyHeader, rest: Seq<u8>) {
        let e0 = <u32 as DiskEncode>::encoding(v.kind);
        let e1 = <DiskSymbolIndex as DiskEncode>::encoding(v.sym_id);
        let e2 = <DiskSpan as DiskEncode>::encoding(v.span);
        let data = Self::encoding(v) + rest;
        let a1 = e0;
        let a2 = a1 + e1;
        let a3 = a2 + e2;
        let s3 = rest;
        let s2 = e2 + s3;
        let s1 = e1 + s2;
        assert(data == a3 + s3);
        lemma_concat_associative(a2, e2, s3);
        assert(data == a2 + s2);
        lemma_concat_associative(a1, e1, s2);
        assert(data == a1 + s1);
        lemma_field_first::<u32>(v.kind, s1);
        assert(field::<u32>(data, 0) == Ok::<(<u32 as View>::V, int), DepMetadataError>((v.kind, a1.len() as int)));
        lemma_field::<DiskSymbolIndex>(a1, v.sym_id, s2);
        assert(field::<DiskSymbolIndex>(data, a1.len() as int) == Ok::<(<DiskSymbolIndex as View>::V, int), DepMetadataError>((v.sym_id, a2.len() as int)));
        lemma_field::<DiskSpan>(a2, v.span, s3);
        assert(field::<DiskSpan>(data, a2.len() as int) == Ok::<(<DiskSpan as View>::V, int), DepMetadataError>((v.span, a3.len() as int)));
    }
}

pub const DISK_TY_HEADER_BYTE_SIZE: usize = 20;

impl DiskTyHeader {
    pub fn kind(&self) -> (r: Result<DiskTyKind, DepMetadataError>)
        ensures
            r == ty_kind_of(self.kind),
    {
        DiskTyKind::try_from(self.kind)
    }
}


// --- type references (variable length, recursive) ---
//
// Layout: [DiskTyHeader (20B)][genargs_len: u32][DiskTy; genargs_len]
// Decoding recurses by hand, without `DiskVec<DiskTy>`, so nothing depends
// on the in-memory size of `DiskTy`.

/// A type reference with its generic arguments.
#[derive(Debug)]
pub struct DiskTy {
    pub hdr: DiskTyHeader,
    pub genargs: Vec<DiskTy>,
}

/// A type reference as plain values.
pub ghost struct DiskTyView {
    pub hdr: DiskTyHeader,
    pub genargs: Seq<DiskTyView>,
}

pub open spec fn ty_view(t: DiskTy) -> DiskTyView
    decreases t, 1nat,
{
    DiskTyView { hdr: t.hdr, genargs: tys_view(t.genargs@) }
}

pub open spec fn tys_view(ts: Seq<DiskTy>) -> Seq<DiskTyView>
    decreases ts, 0nat,
{
    if ts.len() == 0 {
        Seq::empty()
    } else {
        tys_view(ts.subrange(0, ts.len() - 1)).push(ty_view(ts[ts.len() - 1]))
    }
}

impl View for DiskTy {
    type V = DiskTyView;

    open spec fn view(&self) -> DiskTyView {
        ty_view(*self)
    }
}

/// What decoding a type reference at the start of `b` gives.
pub open spec fn parse_ty(b: Seq<u8>) -> Result<(DiskTyView, int), DepMetadataError>
    decreases b.len(), 1nat, 0nat,
{
    match field::<DiskTyHeader>(b, 0) {
        Err(e) => Err(e),
        Ok((hdr, p0)) => match field::<u32>(b, p0) {
            Err(e) => Err(e),
            Ok((count, p1)) => if 0 < p1 <= b.len() {
                match parse_ty_args(b, p1, count as nat) {
                    Ok((genargs, p)) => Ok((DiskTyView { hdr, genargs }, p)),
                    Err(e) => Err(e),
                }
            } else {
                // Unreachable: a successful read moves forward and stays within `b`.
                Err(unexpected_end(0, b))
            },
        },
    }
}

/// `count` type references read one after the other from `pos` on.
pub open spec fn parse_ty_args(b: Seq<u8>, pos: int, count: nat) -> Result<(Seq<DiskTyView>, int), DepMetadataError>
    decreases b.len(), 0nat, count,
{
    if count == 0 {
        Ok((Seq::empty(), pos))
    } else {
        match parse_ty_args(b, pos, (count - 1) as nat) {
            Err(e) => Err(e),
            Ok((gs, p)) => if 0 < p <= b.len() {
                match parse_ty(b.subrange(p, b.len() as int)) {
                    Ok((g, n)) => Ok((gs.push(g), p + n)),
                    Err(e) => Err(e),
                }
            } else {
                // Unreachable: positions only move forward within `b`.
                Err(unexpected_end(0, b))
            },
        }
    }
}

proof fn lemma_parse_ty_args_stays_err(b: Seq<u8>, pos: int, k: nat, count: nat)
    requires
        k <= count,
        parse_ty_args(b, pos, k) is Err,
    ensures
        parse_ty_args(b, pos, count) == parse_ty_args(b, pos, k),
    decreases count,
{
    if count > k {
        lemma_parse_ty_args_stays_err(b, pos, k, (count - 1) as nat);
    }
}

/// The bytes of a type reference.
pub open spec fn ty_bytes(v: DiskTyView) -> Seq<u8>
    decreases v, 1nat,
{
    <DiskTyHeader as DiskEncode>::encoding(v.hdr) + u32_le(v.genargs.len() as u32) + tys_bytes(
        v.genargs,
    )
}

pub open spec fn tys_bytes(gs: Seq<DiskTyView>) -> Seq<u8>
    decreases gs, 0nat,
{
    if gs.len() == 0 {
        Seq::empty()
    } else {
        tys_bytes(gs.subrange(0, gs.len() - 1)) + ty_bytes(gs[gs.len() - 1])
    }
}

/// Every generic-argument count in the type fits in a `u32`.
pub open spec fn ty_encodable(v: DiskTyView) -> bool
    decreases v, 1nat,
{
    v.genargs.len() <= u32::MAX && tys_encodable(v.genargs)
}

pub open spec fn tys_encodable(gs: Seq<DiskTyView>) -> bool
    decreases gs, 0nat,
{
    gs.len() == 0 || (tys_encodable(gs.subrange(0, gs.len() - 1)) && ty_encodable(
        gs[gs.len() - 1],
    ))
}

/// Decodes one type reference, its generic arguments included.
fn decode_ty(bytes: &[u8]) -> (r: Result<(DiskTy, usize), DepMetadataError>)
    ensures
        match r {
            Ok((t, n)) => n <= bytes@.len() && parse_ty(bytes@) == Ok::<(DiskTyView, int), DepMetadataError>(
                (t@, n as int),
            ),
            Err(e) => parse_ty(bytes@) == Err::<(DiskTyView, int), DepMetadataError>(e),
        },
    decreases bytes@.len(),
{
    proof {
        assert(bytes@.subrange(0, bytes@.len() as int) =~= bytes@);
    }
    let mut pos: usize = 0;
    let (hdr, n) = match DiskTyHeader::decode(&bytes[pos..bytes.len()]) {
        Ok(x) => x,
        Err(e) => return Err(e),
    };
    pos = pos + n;
    let ghost p0 = pos as int;
    let (count, n) = match u32::decode(&bytes[pos..bytes.len()]) {
        Ok(x) => x,
        Err(e) => return Err(e),
    };
    pos = pos + n;
    let ghost p1 = pos as int;
    assert(0 < p1);
    let mut genargs: Vec<DiskTy> = Vec::new();
    let mut i: u32 = 0;
    assert(tys_view(genargs@) =~= Seq::<DiskTyView>::empty());
    while i < count
        invariant
            i <= count,
            0 < p1 <= pos <= bytes@.len(),
            field::<DiskTyHeader>(bytes@, 0) == Ok::<(DiskTyHeader, int), DepMetadataError>((hdr, p0)),
            field::<u32>(bytes@, p0) == Ok::<(u32, int), DepMetadataError>((count, p1)),
            parse_ty_args(bytes@, p1, i as nat) == Ok::<(Seq<DiskTyView>, int), DepMetadataError>(
                (tys_view(genargs@), pos as int),
            ),
        decreases count - i,
    {
        let (ty, n) = match decode_ty(&bytes[pos..bytes.len()]) {
            Ok(x) => x,
            Err(e) => {
                proof {
                    lemma_parse_ty_args_stays_err(bytes@, p1, (i + 1) as nat, count as nat);
                }
                return Err(e);
            },
        };
        let ghost before = genargs@;
        pos = pos + n;
        genargs.push(ty);
        proof {
            assert(genargs@.subrange(0, genargs@.len() - 1) =~= before);
            assert(tys_view(genargs@) == tys_view(before).push(ty@));
        }
        i = i + 1;
    }
    Ok((DiskTy { hdr, genargs }, pos))
}

/// Appends one type reference, its generic arguments included.
fn encode_ty(t: &DiskTy, buf: &mut Vec<u8>)
    ensures
        final(buf)@ == old(buf)@ + ty_bytes(t@),
    decreases t,
{
    t.hdr.encode(buf);
    (t.genargs.len() as u32).encode(buf);
    let ghost head = buf@;
    let ghost gs = t.genargs@;
    let mut i: usize = 0;
    assert(tys_view(gs.take(0)) =~= Seq::<DiskTyView>::empty());
    assert(head + tys_bytes(tys_view(gs.take(0))) =~= head);
    while i < t.genargs.len()
        invariant
            i <= gs.len(),
            gs == t.genargs@,
            buf@ == head + tys_bytes(tys_view(gs.take(i as int))),
        decreases gs.len() - i,
    {
        proof {
            assert(decreases_to!(*t => t.genargs));
            assert(decreases_to!(t.genargs => t.genargs@));
            assert(decreases_to!(t.genargs@ => t.genargs@[i as int]));
        }
        encode_ty(&t.genargs[i], buf);
        proof {
            let tk = gs.take(i + 1);
            assert(tk.subrange(0, tk.len() - 1) =~= gs.take(i as int));
            assert(tys_view(tk) == tys_view(gs.take(i as int)).push(ty_view(gs[i as int])));
            let vk = tys_view(tk);
            assert(vk.subrange(0, vk.len() - 1) =~= tys_view(gs.take(i as int)));
            assert(buf@ =~= head + tys_bytes(vk));
        }
        i = i + 1;
    }
    assert(gs.take(gs.len() as int) =~= gs);
    proof {
        lemma_tys_view_len(gs);
    }
    assert(final(buf)@ =~= old(buf)@ + ty_bytes(t@));
}

/// Decoding the bytes of a type reference gives it back.
#[verifier::spinoff_prover]
#[verifier::rlimit(40)]
#[verifier::spinoff_prover]
#[verifier::rlimit(40)]
proof fn lemma_ty_roundtrip(v: DiskTyView, rest: Seq<u8>)
    requires
        ty_encodable(v),
    ensures
        parse_ty(ty_bytes(v) + rest) == Ok::<(DiskTyView, int), DepMetadataError>(
            (v, ty_bytes(v).len() as int),
        ),
    decreases v, 1nat,
{
    let h = <DiskTyHeader as DiskEncode>::encoding(v.hdr);
    let c = u32_le(v.genargs.len() as u32);
    let g = tys_bytes(v.genargs);
    let data = ty_bytes(v) + rest;
    assert(data =~= Seq::<u8>::empty() + h + (c + g + rest));
    lemma_field::<DiskTyHeader>(Seq::empty(), v.hdr, c + g + rest);
    assert(data =~= h + c + (g + rest));
    lemma_field::<u32>(h, v.genargs.len() as u32, g + rest);
    assert(data =~= (h + c) + g + rest);
    lemma_ty_args_roundtrip(h + c, v.genargs, rest);
}

#[verifier::spinoff_prover]
#[verifier::rlimit(40)]
#[verifier::spinoff_prover]
#[verifier::rlimit(40)]
proof fn lemma_ty_args_roundtrip(pre: Seq<u8>, gs: Seq<DiskTyView>, post: Seq<u8>)
    requires
        pre.len() > 0,
        tys_encodable(gs),
    ensures
        parse_ty_args(pre + tys_bytes(gs) + post, pre.len() as int, gs.len()) == Ok::<
            (Seq<DiskTyView>, int),
            DepMetadataError,
        >((gs, (pre.len() + tys_bytes(gs).len()) as int)),
    decreases gs, 0nat,
{
    if gs.len() == 0 {
        assert(gs =~= Seq::<DiskTyView>::empty());
    } else {
        let init = gs.subrange(0, gs.len() - 1);
        let last = gs[gs.len() - 1];
        let ib = tys_bytes(init);
        let lb = ty_bytes(last);
        assert(tys_bytes(gs) == ib + lb);
        assert(tys_encodable(init) && ty_encodable(last));
        let data = pre + tys_bytes(gs) + post;
        assert(data =~= pre + ib + (lb + post));
        lemma_ty_args_roundtrip(pre, init, lb + post);
        let p: int = (pre.len() + ib.len()) as int;
        assert(parse_ty_args(data, pre.len() as int, init.len()) == Ok::<
            (Seq<DiskTyView>, int),
            DepMetadataError,
        >((init, p)));
        assert(data.subrange(p, data.len() as int) =~= lb + post);
        lemma_ty_roundtrip(last, post);
        assert(parse_ty(data.subrange(p, data.len() as int)) == Ok::<(DiskTyView, int), DepMetadataError>(
            (last, lb.len() as int),
        ));
        assert(init.push(last) =~= gs);
    }
}

/// Viewing type references keeps their number.
pub proof fn lemma_tys_view_len(ts: Seq<DiskTy>)
    ensures
        tys_view(ts).len() == ts.len(),
    decreases ts.len(),
{
    if ts.len() > 0 {
        lemma_tys_view_len(ts.subrange(0, ts.len() - 1));
    }
}

impl DiskDecode for DiskTy {
    closed spec fn parse(bytes: Seq<u8>) -> Result<(DiskTyView, int), DepMetadataError> {
        parse_ty(bytes)
    }

    fn decode(bytes: &[u8]) -> (r: Result<(DiskTy, usize), DepMetadataError>) {
        decode_ty(bytes)
    }
}

impl DiskEncode for DiskTy {
    open spec fn encoding(v: DiskTyView) -> Seq<u8> {
        ty_bytes(v)
    }

    fn encode(&self, buf: &mut Vec<u8>) {
        encode_ty(self, buf);
    }
}

impl DiskCodec for DiskTy {
    open spec fn encodable(v: DiskTyView) -> bool {
        ty_encodable(v)
    }

    proof fn lemma_roundtrip(v: DiskTyView, rest: Seq<u8>) {
        lemma_ty_roundtrip(v, rest);
    }
}


// --- generic parameters (16 bytes): name and where it is declared ---

/// A generic parameter: its name and where it is declared.
#[derive(Debug, Clone, Copy, PartialEq, Eq, Structural)]
pub struct DiskGenArg {
    pub name: DiskStringOffset,
    pub name_span: DiskSpan,
}


impl View for DiskGenArg {
    type V = DiskGenArg;

    open spec fn view(&self) -> DiskGenArg {
        *self
    }
}


impl DiskDecode for DiskGenArg {
    closed spec fn parse(bytes: Seq<u8>) -> Result<(DiskGenArg, int), DepMetadataError> {
        match field::<DiskStringOffset>(bytes, 0) {
            Err(e) => Err(e),
            Ok((name, p0)) => match field::<DiskSpan>(bytes, p0) {
                    Err(e) => Err(e),
                    Ok((name_span, p1)) => Ok((DiskGenArg { name, name_span }, p1)),
                },
        }
    }

    fn decode(bytes: &[u8]) -> (r: Result<(DiskGenArg, usize), DepMetadataError>) {
        proof {
            assert(bytes@.subrange(0, bytes@.len() as int) =~= bytes@);
        }
        let mut pos: usize = 0;
        let (name, n) = match <DiskStringOffset as DiskDecode>::decode(&bytes[pos..bytes.len()]) {
            Ok(x) => x,
            Err(e) => return Err(e),
        };
        pos = pos + n;
        let (name_span, n) = match <DiskSpan as DiskDecode>::decode(&bytes[pos..bytes.len()]) {
            Ok(x) => x,
            Err(e) => return Err(e),
        };
        pos = pos + n;
        Ok((DiskGenArg { name, name_span }, pos))
    }
}


impl DiskEncode for DiskGenArg {
    open spec fn encoding(v: DiskGenArg) -> Seq<u8> {
        <DiskStringOffset as DiskEncode>::encoding(v.name) + <DiskSpan as DiskEncode>::encoding(v.name_span)
    }

    fn encode(&self, buf: &mut Vec<u8>) {
        self.name.encode(buf);
        self.name_span.encode(buf);
        assert(final(buf)@ =~= old(buf)@ + Self::encoding(self@));
    }
}


impl DiskCodec for DiskGenArg {
    open spec fn encodable(v: DiskGenArg) -> bool {
        <DiskStringOffset as DiskCodec>::encodable(v.name) && <DiskSpan as DiskCodec>::encodable(v.name_span)
    }

    proof fn lemma_roundtrip(v: DiskGenArg, rest: Seq<u8>) {
        let e0 = <DiskStringOffset as DiskEncode>::encoding(v.name);
        let e1 = <DiskSpan as DiskEncode>::encoding(v.name_span);
        let data = Self::encoding(v) + rest;
        let a1 = e0;
        let a2 = a1 + e1;
        let s2 = rest;
        let s1 = e1 + s2;
        assert(data == a2 + s2);
        lemma_concat_associative(a1, e1, s2);
        assert(data == a1 + s1);
        lemma_field_first::<DiskStringOffset>(v.name, s1);
        assert(field::<DiskStringOffset>(data, 0) == Ok::<(<DiskStringOffset as View>::V, int), DepMetadataError>((v.name, a1.len() as int)));
        lemma_field::<DiskSpan>(a1, v.name_span, s2);
        assert(field::<DiskSpan>(data, a1.len() as int) == Ok::<(<DiskSpan as View>::V, int), DepMetadataError>((v.name_span, a2.len() as int)));
    }
}

// --- function arguments (variable length) ---

/// A function argument.
#[derive(Debug)]
pub struct DiskArg {
    pub name: DiskStringOffset,
    pub name_span: DiskSpan,
    pub ty: DiskTy,
}


/// A `DiskArg` as plain values.
pub ghost struct DiskArgView {
    pub name: <DiskStringOffset as View>::V,
    pub name_span: <DiskSpan as View>::V,
    pub ty: <DiskTy as View>::V,
}

impl View for DiskArg {
    type V = DiskArgView;

    open spec fn view(&self) -> DiskArgView {
        DiskArgView { name: self.name@, name_span: self.name_span@, ty: self.ty@ }
    }
}


impl DiskDecode for DiskArg {
    closed spec fn parse(bytes: Seq<u8>) -> Result<(DiskArgView, int), DepMetadataError> {
        match field::<DiskStringOffset>(bytes, 0) {
            Err(e) => Err(e),
            Ok((name, p0)) => match field::<DiskSpan>(bytes, p0) {
                    Err(e) => Err(e),
                    Ok((name_span, p1)) => match field::<DiskTy>(bytes, p1) {
                            Err(e) => Err(e),
                            Ok((ty, p2)) => Ok((DiskArgView { name, name_span, ty }, p2)),
                        },
                },
        }
    }

    fn decode(bytes: &[u8]) -> (r: Result<(DiskArg, usize), DepMetadataError>) {
        proof {
            assert(bytes@.subrange(0, bytes@.len() as int) =~= bytes@);
        }
        let mut pos: usize = 0;
        let (name, n) = match <DiskStringOffset as DiskDecode>::decode(&bytes[pos..bytes.len()]) {
            Ok(x) => x,
            Err(e) => return Err(e),
        };
        pos = pos + n;
        let (name_span, n) = match <DiskSpan as DiskDecode>::decode(&bytes[pos..bytes.len()]) {
            Ok(x) => x,
            Err(e) => return Err(e),
        };
        pos = pos + n;
        let (ty, n) = match <DiskTy as DiskDecode>::decode(&bytes[pos..bytes.len()]) {
            Ok(x) => x,
            Err(e) => return Err(e),
        };
        pos = pos + n;
        Ok((DiskArg { name, name_span, ty }, pos))
    }
}


impl DiskEncode for DiskArg {
    open spec fn encoding(v: DiskArgView) -> Seq<u8> {
        <DiskStringOffset as DiskEncode>::encoding(v.name) + <DiskSpan as DiskEncode>::encoding(v.name_span) + <DiskTy as DiskEncode>::encoding(v.ty)
    }

    fn encode(&self, buf: &mut Vec<u8>) {
        self.name.encode(buf);
        self.name_span.encode(buf);
        self.ty.encode(buf);
        assert(final(buf)@ =~= old(buf)@ + Self::encoding(self@));
    }
}


impl DiskCodec for DiskArg {
    open spec fn encodable(v: DiskArgView) -> bool {
        <DiskStringOffset as DiskCodec>::encodable(v.name) && <DiskSpan as DiskCodec>::encodable(v.name_span) && <DiskTy as DiskCodec>::encodable(v.ty)
    }

    proof fn lemma_roundtrip(v: DiskArgView, rest: Seq<u8>) {
        let e0 = <DiskStringOffset as DiskEncode>::encoding(v.name);
        let e1 = <DiskSpan as DiskEncode>::encoding(v.name_span);
        let e2 = <DiskTy as DiskEncode>::encoding(v.ty);
        let data = Self::encoding(v) + rest;
        let a1 = e0;
        let a2 = a1 + e1;
        let a3 = a2 + e2;
        let s3 = rest;
        let s2 = e2 + s3;
        let s1 = e1 + s2;
        assert(data == a3 + s3);
        lemma_concat_associative(a2, e2, s3);
        assert(data == a2 + s2);
        lemma_concat_associative(a1, e1, s2);
        assert(data == a1 + s1);
        lemma_field_first::<DiskStringOffset>(v.name, s1);
        assert(field::<DiskStringOffset>(data, 0) == Ok::<(<DiskStringOffset as View>::V, int), DepMetadataError>((v.name, a1.len() as int)));
        lemma_field::<DiskSpan>(a1, v.name_span, s2);
        assert(field::<DiskSpan>(data, a1.len() as int) == Ok::<(<DiskSpan as View>::V, int), DepMetadataError>((v.name_span, a2.len() as int)));
        lemma_field::<DiskTy>(a2, v.ty, s3);
        assert(field::<DiskTy>(data, a2.len() as int) == Ok::<(<DiskTy as View>::V, int), DepMetadataError>((v.ty, a3.len() as int)));
    }
}

// --- struct members (variable length) ---

/// A struct member.
#[derive(Debug)]
pub struct DiskStructMember {
    pub name: DiskStringOffset,
    pub name_span: DiskSpan,
    pub ty: DiskTy,
}


/// A `DiskStructMember` as plain values.
pub ghost struct DiskStructMemberView {
    pub name: <DiskStringOffset as View>::V,
    pub name_span: <DiskSpan as View>::V,
    pub ty: <DiskTy as View>::V,
}

impl View for DiskStructMember {
    type V = DiskStructMemberView;

    open spec fn view(&self) -> DiskStructMemberView {
        DiskStructMemberView { name: self.name@, name_span: self.name_span@, ty: self.ty@ }
    }
}


impl DiskDecode for DiskStructMember {
    closed spec fn parse(bytes: Seq<u8>) -> Result<(DiskStructMemberView, int), DepMetadataError> {
        match field::<DiskStringOffset>(bytes, 0) {
            Err(e) => Err(e),
            Ok((name, p0)) => match field::<DiskSpan>(bytes, p0) {
                    Err(e) => Err(e),
                    Ok((name_span, p1)) => match field::<DiskTy>(bytes, p1) {
                            Err(e) => Err(e),
                            Ok((ty, p2)) => Ok((DiskStructMemberView { name, name_span, ty }, p2)),
                        },
                },
        }
    }

    fn decode(bytes: &[u8]) -> (r: Result<(DiskStructMember, usize), DepMetadataError>) {
        proof {
            assert(bytes@.subrange(0, bytes@.len() as int) =~= bytes@);
        }
        let mut pos: usize = 0;
        let (name, n) = match <DiskStringOffset as DiskDecode>::decode(&bytes[pos..bytes.len()]) {
            Ok(x) => x,
            Err(e) => return Err(e),
        };
        pos = pos + n;
        let (name_span, n) = match <DiskSpan as DiskDecode>::decode(&bytes[pos..bytes.len()]) {
            Ok(x) => x,
            Err(e) => return Err(e),
        };
        pos = pos + n;
        let (ty, n) = match <DiskTy as DiskDecode>::decode(&bytes[pos..bytes.len()]) {
            Ok(x) => x,
            Err(e) => return Err(e),
        };
        pos = pos + n;
        Ok((DiskStructMember { name, name_span, ty }, pos))
    }
}


impl DiskEncode for DiskStructMember {
    open spec fn encoding(v: DiskStructMemberView) -> Seq<u8> {
        <DiskStringOffset as DiskEncode>::encoding(v.name) + <DiskSpan as DiskEncode>::encoding(v.name_span) + <DiskTy as DiskEncode>::encoding(v.ty)
    }

    fn encode(&self, buf: &mut Vec<u8>) {
        self.name.encode(buf);
        self.name_span.encode(buf);
        self.ty.encode(buf);
        assert(final(buf)@ =~= old(buf)@ + Self::encoding(self@));
    }
}


impl DiskCodec for DiskStructMember {
    open spec fn encodable(v: DiskStructMemberView) -> bool {
        <DiskStringOffset as DiskCodec>::encodable(v.name) && <DiskSpan as DiskCodec>::encodable(v.name_span) && <DiskTy as DiskCodec>::encodable(v.ty)
    }

    proof fn lemma_roundtrip(v: DiskStructMemberView, rest: Seq<u8>) {
        let e0 = <DiskStringOffset as DiskEncode>::encoding(v.name);
        let e1 = <DiskSpan as DiskEncode>::encoding(v.name_span);
        let e2 = <DiskTy as DiskEncode>::encoding(v.ty);
        let data = Self::encoding(v) + rest;
        let a1 = e0;
        let a2 = a1 + e1;
        let a3 = a2 + e2;
        let s3 = rest;
        let s2 = e2 + s3;
        let s1 = e1 + s2;
        assert(data == a3 + s3);
        lemma_concat_associative(a2, e2, s3);
        assert(data == a2 + s2);
        lemma_concat_associative(a1, e1, s2);
        assert(data == a1 + s1);
        lemma_field_first::<DiskStringOffset>(v.name, s1);
        assert(field::<DiskStringOffset>(data, 0) == Ok::<(<DiskStringOffset as View>::V, int), DepMetadataError>((v.name, a1.len() as int)));
        lemma_field::<DiskSpan>(a1, v.name_span, s2);
        assert(field::<DiskSpan>(data, a1.len() as int) == Ok::<(<DiskSpan as View>::V, int), DepMetadataError>((v.name_span, a2.len() as int)));
        lemma_field::<DiskTy>(a2, v.ty, s3);
        assert(field::<DiskTy>(data, a2.len() as int) == Ok::<(<DiskTy as View>::V, int), DepMetadataError>((v.ty, a3.len() as int)));
    }
}

// --- symbol bodies ---
//
// Each entry of the body data is [body_size: u32][body: body_size B]; what
// the body holds depends on the symbol's kind.

/// The body of a function symbol.
#[derive(Debug)]
pub struct DiskFnData {
    pub name: DiskStringOffset,
    pub name_span: DiskSpan,
    /// The source text of the signature.
    pub def_raw_code: DiskStringOffset,
    /// Where `def_raw_code` stands.
    pub def_span: DiskSpan,
    pub genargs: DiskVec<DiskGenArg>,
    pub args: DiskVec<DiskArg>,
    pub rty: DiskTy,
    /// The `self` type of the `impl` the function belongs to: empty for a top-level function, one entry for an associated function or method. It carries both which type the `impl` is for and its generic arguments (`impl Pair[Int, Int]` is `Defined(Pair)` with `[Int, Int]`), for symbol mangling and for resolving methods of specialized `impl`s.
    pub impl_self_ty: DiskVec<DiskTy>,
}


/// A `DiskFnData` as plain values.
pub ghost struct DiskFnDataView {
    pub name: <DiskStringOffset as View>::V,
    pub name_span: <DiskSpan as View>::V,
    pub def_raw_code: <DiskStringOffset as View>::V,
    pub def_span: <DiskSpan as View>::V,
    pub genargs: <DiskVec<DiskGenArg> as View>::V,
    pub args: <DiskVec<DiskArg> as View>::V,
    pub rty: <DiskTy as View>::V,
    pub impl_self_ty: <DiskVec<DiskTy> as View>::V,
}

impl View for DiskFnData {
    type V = DiskFnDataView;

    open spec fn view(&self) -> DiskFnDataView {
        DiskFnDataView { name: self.name@, name_span: self.name_span@, def_raw_code: self.def_raw_code@, def_span: self.def_span@, genargs: self.genargs@, args: self.args@, rty: self.rty@, impl_self_ty: self.impl_self_ty@ }
    }
}


impl DiskDecode for DiskFnData {
    closed spec fn parse(bytes: Seq<u8>) -> Result<(DiskFnDataView, int), DepMetadataError> {
        match field::<DiskStringOffset>(bytes, 0) {
            Err(e) => Err(e),
            Ok((name, p0)) => match field::<DiskSpan>(bytes, p0) {
                    Err(e) => Err(e),
                    Ok((name_span, p1)) => match field::<DiskStringOffset>(bytes, p1) {
                            Err(e) => Err(e),
                            Ok((def_raw_code, p2)) => match field::<DiskSpan>(bytes, p2) {
                                    Err(e) => Err(e),
                                    Ok((def_span, p3)) => match field::<DiskVec<DiskGenArg>>(bytes, p3) {
                                            Err(e) => Err(e),
                                            Ok((genargs, p4)) => match field::<DiskVec<DiskArg>>(bytes, p4) {
                                                    Err(e) => Err(e),
                                                    Ok((args, p5)) => match field::<DiskTy>(bytes, p5) {
                                                            Err(e) => Err(e),
                                                            Ok((rty, p6)) => match field::<DiskVec<DiskTy>>(bytes, p6) {
                                                                    Err(e) => Err(e),
                                                                    Ok((impl_self_ty, p7)) => Ok((DiskFnDataView { name, name_span, def_raw_code, def_span, genargs, args, rty, impl_self_ty }, p7)),
                                                                },
                                                        },
                                                },
                                        },
                                },
                        },
                },
        }
    }

    fn decode(bytes: &[u8]) -> (r: Result<(DiskFnData, usize), DepMetadataError>) {
        proof {
            assert(bytes@.subrange(0, bytes@.len() as int) =~= bytes@);
        }
        let mut pos: usize = 0;
        let (name, n) = match <DiskStringOffset as DiskDecode>::decode(&bytes[pos..bytes.len()]) {
            Ok(x) => x,
            Err(e) => return Err(e),
        };
        pos = pos + n;
        let (name_span, n) = match <DiskSpan as DiskDecode>::decode(&bytes[pos..bytes.len()]) {
            Ok(x) => x,
            Err(e) => return Err(e),
        };
        pos = pos + n;
        let (def_raw_code, n) = match <DiskStringOffset as DiskDecode>::decode(&bytes[pos..bytes.len()]) {
            Ok(x) => x,
            Err(e) => return Err(e),
        };
        pos = pos + n;
        let (def_span, n) = match <DiskSpan as DiskDecode>::decode(&bytes[pos..bytes.len()]) {
            Ok(x) => x,
            Err(e) => return Err(e),
        };
        pos = pos + n;
        let (genargs, n) = match <DiskVec<DiskGenArg> as DiskDecode>::decode(&bytes[pos..bytes.len()]) {
            Ok(x) => x,
            Err(e) => return Err(e),
        };
        pos = pos + n;
        let (args, n) = match <DiskVec<DiskArg> as DiskDecode>::decode(&bytes[pos..bytes.len()]) {
            Ok(x) => x,
            Err(e) => return Err(e),
        };
        pos = pos + n;
        let (rty, n) = match <DiskTy as DiskDecode>::decode(&bytes[pos..bytes.len()]) {
            Ok(x) => x,
            Err(e) => return Err(e),
        };
        pos = pos + n;
        let (impl_self_ty, n) = match <DiskVec<DiskTy> as DiskDecode>::decode(&bytes[pos..bytes.len()]) {
            Ok(x) => x,
            Err(e) => return Err(e),
        };
        pos = pos + n;
        Ok((DiskFnData { name, name_span, def_raw_code, def_span, genargs, args, rty, impl_self_ty }, pos))
    }
}


impl DiskEncode for DiskFnData {
    open spec fn encoding(v: DiskFnDataView) -> Seq<u8> {
        <DiskStringOffset as DiskEncode>::encoding(v.name) + <DiskSpan as DiskEncode>::encoding(v.name_span) + <DiskStringOffset as DiskEncode>::encoding(v.def_raw_code) + <DiskSpan as DiskEncode>::encoding(v.def_span) + <DiskVec<DiskGenArg> as DiskEncode>::encoding(v.genargs) + <DiskVec<DiskArg> as DiskEncode>::encoding(v.args) + <DiskTy as DiskEncode>::encoding(v.rty) + <DiskVec<DiskTy> as DiskEncode>::encoding(v.impl_self_ty)
    }

    fn encode(&self, buf: &mut Vec<u8>) {
        self.name.encode(buf);
        self.name_span.encode(buf);
        self.def_raw_code.encode(buf);
        self.def_span.encode(buf);
        self.genargs.encode(buf);
        self.args.encode(buf);
        self.rty.encode(buf);
        self.impl_self_ty.encode(buf);
        assert(final(buf)@ =~= old(buf)@ + Self::encoding(self@));
    }
}


impl DiskCodec for DiskFnData {
    open spec fn encodable(v: DiskFnDataView) -> bool {
        <DiskStringOffset as DiskCodec>::encodable(v.name) && <DiskSpan as DiskCodec>::encodable(v.name_span) && <DiskStringOffset as DiskCodec>::encodable(v.def_raw_code) && <DiskSpan as DiskCodec>::encodable(v.def_span) && <DiskVec<DiskGenArg> as DiskCodec>::encodable(v.genargs) && <DiskVec<DiskArg> as DiskCodec>::encodable(v.args) && <DiskTy as DiskCodec>::encodable(v.rty) && <DiskVec<DiskTy> as DiskCodec>::encodable(v.impl_self_ty)
    }

    #[verifier::spinoff_prover]
    #[verifier::rlimit(100)]
    proof fn lemma_roundtrip(v: DiskFnDataView, rest: Seq<u8>) {
        let e0 = <DiskStringOffset as DiskEncode>::encoding(v.name);
        let e1 = <DiskSpan as DiskEncode>::encoding(v.name_span);
        let e2 = <DiskStringOffset as DiskEncode>::encoding(v.def_raw_code);
        let e3 = <DiskSpan as DiskEncode>::encoding(v.def_span);
        let e4 = <DiskVec<DiskGenArg> as DiskEncode>::encoding(v.genargs);
        let e5 = <DiskVec<DiskArg> as DiskEncode>::encoding(v.args);
        let e6 = <DiskTy as DiskEncode>::encoding(v.rty);
        let e7 = <DiskVec<DiskTy> as DiskEncode>::encoding(v.impl_self_ty);
        let data = Self::encoding(v) + rest;
        let a1 = e0;
        let a2 = a1 + e1;
        let a3 = a2 + e2;
        let a4 = a3 + e3;
        let a5 = a4 + e4;
        let a6 = a5 + e5;
        let a7 = a6 + e6;
        let a8 = a7 + e7;
        let s8 = rest;
        let s7 = e7 + s8;
        let s6 = e6 + s7;
        let s5 = e5 + s6;
        let s4 = e4 + s5;
        let s3 = e3 + s4;
        let s2 = e2 + s3;
        let s1 = e1 + s2;
        assert(data == a8 + s8);
        lemma_concat_associative(a7, e7, s8);
        assert(data == a7 + s7);
        lemma_concat_associative(a6, e6, s7);
        assert(data == a6 + s6);
        lemma_concat_associative(a5, e5, s6);
        assert(data == a5 + s5);
        lemma_concat_associative(a4, e4, s5);
        assert(data == a4 + s4);
        lemma_concat_associative(a3, e3, s4);
        assert(data == a3 + s3);
        lemma_concat_associative(a2, e2, s3);
        assert(data == a2 + s2);
        lemma_concat_associative(a1, e1, s2);
        assert(data == a1 + s1);
        lemma_field_first::<DiskStringOffset>(v.name, s1);
        assert(field::<DiskStringOffset>(data, 0) == Ok::<(<DiskStringOffset as View>::V, int), DepMetadataError>((v.name, a1.len() as int)));
        lemma_field::<DiskSpan>(a1, v.name_span, s2);
        assert(field::<DiskSpan>(data, a1.len() as int) == Ok::<(<DiskSpan as View>::V, int), DepMetadataError>((v.name_span, a2.len() as int)));
        lemma_field::<DiskStringOffset>(a2, v.def_raw_code, s3);
        assert(field::<DiskStringOffset>(data, a2.len() as int) == Ok::<(<DiskStringOffset as View>::V, int), DepMetadataError>((v.def_raw_code, a3.len() as int)));
        lemma_field::<DiskSpan>(a3, v.def_span, s4);
        assert(field::<DiskSpan>(data, a3.len() as int) == Ok::<(<DiskSpan as View>::V, int), DepMetadataError>((v.def_span, a4.len() as int)));
        lemma_field::<DiskVec<DiskGenArg>>(a4, v.genargs, s5);
        assert(field::<DiskVec<DiskGenArg>>(data, a4.len() as int) == Ok::<(<DiskVec<DiskGenArg> as View>::V, int), DepMetadataError>((v.genargs, a5.len() as int)));
        lemma_field::<DiskVec<DiskArg>>(a5, v.args, s6);
        assert(field::<DiskVec<DiskArg>>(data, a5.len() as int) == Ok::<(<DiskVec<DiskArg> as View>::V, int), DepMetadataError>((v.args, a6.len() as int)));
        lemma_field::<DiskTy>(a6, v.rty, s7);
        assert(field::<DiskTy>(data, a6.len() as int) == Ok::<(<DiskTy as View>::V, int), DepMetadataError>((v.rty, a7.len() as int)));
        lemma_field::<DiskVec<DiskTy>>(a7, v.impl_self_ty, s8);
        assert(field::<DiskVec<DiskTy>>(data, a7.len() as int) == Ok::<(<DiskVec<DiskTy> as View>::V, int), DepMetadataError>((v.impl_self_ty, a8.len() as int)));
    }
}

/// The body of a struct symbol.
#[derive(Debug)]
pub struct DiskStructData {
    pub name: DiskStringOffset,
    pub name_span: DiskSpan,
    pub def_raw_code: DiskStringOffset,
    pub def_span: DiskSpan,
    pub genargs: DiskVec<DiskGenArg>,
    pub members: DiskVec<DiskStructMember>,
    /// The symbols of its associated functions and methods.
    pub assoc_symbols: DiskVec<DiskSymbolIndex>,
}


/// A `DiskStructData` as plain values.
pub ghost struct DiskStructDataView {
    pub name: <DiskStringOffset as View>::V,
    pub name_span: <DiskSpan as View>::V,
    pub def_raw_code: <DiskStringOffset as View>::V,
    pub def_span: <DiskSpan as View>::V,
    pub genargs: <DiskVec<DiskGenArg> as View>::V,
    pub members: <DiskVec<DiskStructMember> as View>::V,
    pub assoc_symbols: <DiskVec<DiskSymbolIndex> as View>::V,
}

impl View for DiskStructData {
    type V = DiskStructDataView;

    open spec fn view(&self) -> DiskStructDataView {
        DiskStructDataView { name: self.name@, name_span: self.name_span@, def_raw_code: self.def_raw_code@, def_span: self.def_span@, genargs: self.genargs@, members: self.members@, assoc_symbols: self.assoc_symbols@ }
    }
}


impl DiskDecode for DiskStructData {
    closed spec fn parse(bytes: Seq<u8>) -> Result<(DiskStructDataView, int), DepMetadataError> {
        match field::<DiskStringOffset>(bytes, 0) {
            Err(e) => Err(e),
            Ok((name, p0)) => match field::<DiskSpan>(bytes, p0) {
                    Err(e) => Err(e),
                    Ok((name_span, p1)) => match field::<DiskStringOffset>(bytes, p1) {
                            Err(e) => Err(e),
                            Ok((def_raw_code, p2)) => match field::<DiskSpan>(bytes, p2) {
                                    Err(e) => Err(e),
                                    Ok((def_span, p3)) => match field::<DiskVec<DiskGenArg>>(bytes, p3) {
                                            Err(e) => Err(e),
                                            Ok((genargs, p4)) => match field::<DiskVec<DiskStructMember>>(bytes, p4) {
                                                    Err(e) => Err(e),
                                                    Ok((members, p5)) => match field::<DiskVec<DiskSymbolIndex>>(bytes, p5) {
                                                            Err(e) => Err(e),
                                                            Ok((assoc_symbols, p6)) => Ok((DiskStructDataView { name, name_span, def_raw_code, def_span, genargs, members, assoc_symbols }, p6)),
                                                        },
                                                },
                                        },
                                },
                        },
                },
        }
    }

    fn decode(bytes: &[u8]) -> (r: Result<(DiskStructData, usize), DepMetadataError>) {
        proof {
            assert(bytes@.subrange(0, bytes@.len() as int) =~= bytes@);
        }
        let mut pos: usize = 0;
        let (name, n) = match <DiskStringOffset as DiskDecode>::decode(&bytes[pos..bytes.len()]) {
            Ok(x) => x,
            Err(e) => return Err(e),
        };
        pos = pos + n;
        let (name_span, n) = match <DiskSpan as DiskDecode>::decode(&bytes[pos..bytes.len()]) {
            Ok(x) => x,
            Err(e) => return Err(e),
        };
        pos = pos + n;
        let (def_raw_code, n) = match <DiskStringOffset as DiskDecode>::decode(&bytes[pos..bytes.len()]) {
            Ok(x) => x,
            Err(e) => return Err(e),
        };
        pos = pos + n;
        let (def_span, n) = match <DiskSpan as DiskDecode>::decode(&bytes[pos..bytes.len()]) {
            Ok(x) => x,
            Err(e) => return Err(e),
        };
        pos = pos + n;
        let (genargs, n) = match <DiskVec<DiskGenArg> as DiskDecode>::decode(&bytes[pos..bytes.len()]) {
            Ok(x) => x,
            Err(e) => return Err(e),
        };
        pos = pos + n;
        let (members, n) = match <DiskVec<DiskStructMember> as DiskDecode>::decode(&bytes[pos..bytes.len()]) {
            Ok(x) => x,
            Err(e) => return Err(e),
        };
        pos = pos + n;
        let (assoc_symbols, n) = match <DiskVec<DiskSymbolIndex> as DiskDecode>::decode(&bytes[pos..bytes.len()]) {
            Ok(x) => x,
            Err(e) => return Err(e),
        };
        pos = pos + n;
        Ok((DiskStructData { name, name_span, def_raw_code, def_span, genargs, members, assoc_symbols }, pos))
    }
}


impl DiskEncode for DiskStructData {
    open spec fn encoding(v: DiskStructDataView) -> Seq<u8> {
        <DiskStringOffset as DiskEncode>::encoding(v.name) + <DiskSpan as DiskEncode>::encoding(v.name_span) + <DiskStringOffset as DiskEncode>::encoding(v.def_raw_code) + <DiskSpan as DiskEncode>::encoding(v.def_span) + <DiskVec<DiskGenArg> as DiskEncode>::encoding(v.genargs) + <DiskVec<DiskStructMember> as DiskEncode>::encoding(v.members) + <DiskVec<DiskSymbolIndex> as DiskEncode>::encoding(v.assoc_symbols)
    }

    fn encode(&self, buf: &mut Vec<u8>) {
        self.name.encode(buf);
        self.name_span.encode(buf);
        self.def_raw_code.encode(buf);
        self.def_span.encode(buf);
        self.genargs.encode(buf);
        self.members.encode(buf);
        self.assoc_symbols.encode(buf);
        assert(final(buf)@ =~= old(buf)@ + Self::encoding(self@));
    }
}


impl DiskCodec for DiskStructData {
    open spec fn encodable(v: DiskStructDataView) -> bool {
        <DiskStringOffset as DiskCodec>::encodable(v.name) && <DiskSpan as DiskCodec>::encodable(v.name_span) && <DiskStringOffset as DiskCodec>::encodable(v.def_raw_code) && <DiskSpan as DiskCodec>::encodable(v.def_span) && <DiskVec<DiskGenArg> as DiskCodec>::encodable(v.genargs) && <DiskVec<DiskStructMember> as DiskCodec>::encodable(v.members) && <DiskVec<DiskSymbolIndex> as DiskCodec>::encodable(v.assoc_symbols)
    }

    #[verifier::spinoff_prover]
    #[verifier::rlimit(100)]
    proof fn lemma_roundtrip(v: DiskStructDataView, rest: Seq<u8>) {
        let e0 = <DiskStringOffset as DiskEncode>::encoding(v.name);
        let e1 = <DiskSpan as DiskEncode>::encoding(v.name_span);
        let e2 = <DiskStringOffset as DiskEncode>::encoding(v.def_raw_code);
        let e3 = <DiskSpan as DiskEncode>::encoding(v.def_span);
        let e4 = <DiskVec<DiskGenArg> as DiskEncode>::encoding(v.genargs);
        let e5 = <DiskVec<DiskStructMember> as DiskEncode>::encoding(v.members);
        let e6 = <DiskVec<DiskSymbolIndex> as DiskEncode>::encoding(v.assoc_symbols);
        let data = Self::encoding(v) + rest;
        let a1 = e0;
        let a2 = a1 + e1;
        let a3 = a2 + e2;
        let a4 = a3 + e3;
        let a5 = a4 + e4;
        let a6 = a5 + e5;
        let a7 = a6 + e6;
        let s7 = rest;
        let s6 = e6 + s7;
        let s5 = e5 + s6;
        let s4 = e4 + s5;
        let s3 = e3 + s4;
        let s2 = e2 + s3;
        let s1 = e1 + s2;
        assert(data == a7 + s7);
        lemma_concat_associative(a6, e6, s7);
        assert(data == a6 + s6);
        lemma_concat_associative(a5, e5, s6);
        assert(data == a5 + s5);
        lemma_concat_associative(a4, e4, s5);
        assert(data == a4 + s4);
        lemma_concat_associative(a3, e3, s4);
        assert(data == a3 + s3);
        lemma_concat_associative(a2, e2, s3);
        assert(data == a2 + s2);
        lemma_concat_associative(a1, e1, s2);
        assert(data == a1 + s1);
        lemma_field_first::<DiskStringOffset>(v.name, s1);
        assert(field::<DiskStringOffset>(data, 0) == Ok::<(<DiskStringOffset as View>::V, int), DepMetadataError>((v.name, a1.len() as int)));
        lemma_field::<DiskSpan>(a1, v.name_span, s2);
        assert(field::<DiskSpan>(data, a1.len() as int) == Ok::<(<DiskSpan as View>::V, int), DepMetadataError>((v.name_span, a2.len() as int)));
        lemma_field::<DiskStringOffset>(a2, v.def_raw_code, s3);
        assert(field::<DiskStringOffset>(data, a2.len() as int) == Ok::<(<DiskStringOffset as View>::V, int), DepMetadataError>((v.def_raw_code, a3.len() as int)));
        lemma_field::<DiskSpan>(a3, v.def_span, s4);
        assert(field::<DiskSpan>(data, a3.len() as int) == Ok::<(<DiskSpan as View>::V, int), DepMetadataError>((v.def_span, a4.len() as int)));
        lemma_field::<DiskVec<DiskGenArg>>(a4, v.genargs, s5);
        assert(field::<DiskVec<DiskGenArg>>(data, a4.len() as int) == Ok::<(<DiskVec<DiskGenArg> as View>::V, int), DepMetadataError>((v.genargs, a5.len() as int)));
        lemma_field::<DiskVec<DiskStructMember>>(a5, v.members, s6);
        assert(field::<DiskVec<DiskStructMember>>(data, a5.len() as int) == Ok::<(<DiskVec<DiskStructMember> as View>::V, int), DepMetadataError>((v.members, a6.len() as int)));
        lemma_field::<DiskVec<DiskSymbolIndex>>(a6, v.assoc_symbols, s7);
        assert(field::<DiskVec<DiskSymbolIndex>>(data, a6.len() as int) == Ok::<(<DiskVec<DiskSymbolIndex> as View>::V, int), DepMetadataError>((v.assoc_symbols, a7.len() as int)));
    }
}

/// The body of a native type alias (`type String = {{ string }};`). Like a struct it is a type seen from outside the package and can have an `impl` block, so it has associated symbols.
#[derive(Debug)]
pub struct DiskNativeTypeAliasData {
    pub name: DiskStringOffset,
    pub name_span: DiskSpan,
    /// What stands between `{{` and `}}`: code of the target language.
    pub native: DiskStringOffset,
    pub native_span: DiskSpan,
    pub genargs: DiskVec<DiskGenArg>,
    /// The symbols of its associated functions and methods.
    pub assoc_symbols: DiskVec<DiskSymbolIndex>,
}


/// A `DiskNativeTypeAliasData` as plain values.
pub ghost struct DiskNativeTypeAliasDataView {
    pub name: <DiskStringOffset as View>::V,
    pub name_span: <DiskSpan as View>::V,
    pub native: <DiskStringOffset as View>::V,
    pub native_span: <DiskSpan as View>::V,
    pub genargs: <DiskVec<DiskGenArg> as View>::V,
    pub assoc_symbols: <DiskVec<DiskSymbolIndex> as View>::V,
}

impl View for DiskNativeTypeAliasData {
    type V = DiskNativeTypeAliasDataView;

    open spec fn view(&self) -> DiskNativeTypeAliasDataView {
        DiskNativeTypeAliasDataView { name: self.name@, name_span: self.name_span@, native: self.native@, native_span: self.native_span@, genargs: self.genargs@, assoc_symbols: self.assoc_symbols@ }
    }
}


impl DiskDecode for DiskNativeTypeAliasData {
    closed spec fn parse(bytes: Seq<u8>) -> Result<(DiskNativeTypeAliasDataView, int), DepMetadataError> {
        match field::<DiskStringOffset>(bytes, 0) {
            Err(e) => Err(e),
            Ok((name, p0)) => match field::<DiskSpan>(bytes, p0) {
                    Err(e) => Err(e),
                    Ok((name_span, p1)) => match field::<DiskStringOffset>(bytes, p1) {
                            Err(e) => Err(e),
                            Ok((native, p2)) => match field::<DiskSpan>(bytes, p2) {
                                    Err(e) => Err(e),
                                    Ok((native_span, p3)) => match field::<DiskVec<DiskGenArg>>(bytes, p3) {
                                            Err(e) => Err(e),
                                            Ok((genargs, p4)) => match field::<DiskVec<DiskSymbolIndex>>(bytes, p4) {
                                                    Err(e) => Err(e),
                                                    Ok((assoc_symbols, p5)) => Ok((DiskNativeTypeAliasDataView { name, name_span, native, native_span, genargs, assoc_symbols }, p5)),
                                                },
                                        },
                                },
                        },
                },
        }
    }

    fn decode(bytes: &[u8]) -> (r: Result<(DiskNativeTypeAliasData, usize), DepMetadataError>) {
        proof {
            assert(bytes@.subrange(0, bytes@.len() as int) =~= bytes@);
        }
        let mut pos: usize = 0;
        let (name, n) = match <DiskStringOffset as DiskDecode>::decode(&bytes[pos..bytes.len()]) {
            Ok(x) => x,
            Err(e) => return Err(e),
        };
        pos = pos + n;
        let (name_span, n) = match <DiskSpan as DiskDecode>::decode(&bytes[pos..bytes.len()]) {
            Ok(x) => x,
            Err(e) => return Err(e),
        };
        pos = pos + n;
        let (native, n) = match <DiskStringOffset as DiskDecode>::decode(&bytes[pos..bytes.len()]) {
            Ok(x) => x,
            Err(e) => return Err(e),
        };
        pos = pos + n;
        let (native_span, n) = match <DiskSpan as DiskDecode>::decode(&bytes[pos..bytes.len()]) {
            Ok(x) => x,
            Err(e) => return Err(e),
        };
        pos = pos + n;
        let (genargs, n) = match <DiskVec<DiskGenArg> as DiskDecode>::decode(&bytes[pos..bytes.len()]) {
            Ok(x) => x,
            Err(e) => return Err(e),
        };
        pos = pos + n;
        let (assoc_symbols, n) = match <DiskVec<DiskSymbolIndex> as DiskDecode>::decode(&bytes[pos..bytes.len()]) {
            Ok(x) => x,
            Err(e) => return Err(e),
        };
        pos = pos + n;
        Ok((DiskNativeTypeAliasData { name, name_span, native, native_span, genargs, assoc_symbols }, pos))
    }
}


impl DiskEncode for DiskNativeTypeAliasData {
    open spec fn encoding(v: DiskNativeTypeAliasDataView) -> Seq<u8> {
        <DiskStringOffset as DiskEncode>::encoding(v.name) + <DiskSpan as DiskEncode>::encoding(v.name_span) + <DiskStringOffset as DiskEncode>::encoding(v.native) + <DiskSpan as DiskEncode>::encoding(v.native_span) + <DiskVec<DiskGenArg> as DiskEncode>::encoding(v.genargs) + <DiskVec<DiskSymbolIndex> as DiskEncode>::encoding(v.assoc_symbols)
    }

    fn encode(&self, buf: &mut Vec<u8>) {
        self.name.encode(buf);
        self.name_span.encode(buf);
        self.native.encode(buf);
        self.native_span.encode(buf);
        self.genargs.encode(buf);
        self.assoc_symbols.encode(buf);
        assert(final(buf)@ =~= old(buf)@ + Self::encoding(self@));
    }
}


impl DiskCodec for DiskNativeTypeAliasData {
    open spec fn encodable(v: DiskNativeTypeAliasDataView) -> bool {
        <DiskStringOffset as DiskCodec>::encodable(v.name) && <DiskSpan as DiskCodec>::encodable(v.name_span) && <DiskStringOffset as DiskCodec>::encodable(v.native) && <DiskSpan as DiskCodec>::encodable(v.native_span) && <DiskVec<DiskGenArg> as DiskCodec>::encodable(v.genargs) && <DiskVec<DiskSymbolIndex> as DiskCodec>::encodable(v.assoc_symbols)
    }

    proof fn lemma_roundtrip(v: DiskNativeTypeAliasDataView, rest: Seq<u8>) {
        let e0 = <DiskStringOffset as DiskEncode>::encoding(v.name);
        let e1 = <DiskSpan as DiskEncode>::encoding(v.name_span);
        let e2 = <DiskStringOffset as DiskEncode>::encoding(v.native);
        let e3 = <DiskSpan as DiskEncode>::encoding(v.native_span);
        let e4 = <DiskVec<DiskGenArg> as DiskEncode>::encoding(v.genargs);
        let e5 = <DiskVec<DiskSymbolIndex> as DiskEncode>::encoding(v.assoc_symbols);
        let data = Self::encoding(v) + rest;
        let a1 = e0;
        let a2 = a1 + e1;
        let a3 = a2 + e2;
        let a4 = a3 + e3;
        let a5 = a4 + e4;
        let a6 = a5 + e5;
        let s6 = rest;
        let s5 = e5 + s6;
        let s4 = e4 + s5;
        let s3 = e3 + s4;
        let s2 = e2 + s3;
        let s1 = e1 + s2;
        assert(data == a6 + s6);
        lemma_concat_associative(a5, e5, s6);
        assert(data == a5 + s5);
        lemma_concat_associative(a4, e4, s5);
        assert(data == a4 + s4);
        lemma_concat_associative(a3, e3, s4);
        assert(data == a3 + s3);
        lemma_concat_associative(a2, e2, s3);
        assert(data == a2 + s2);
        lemma_concat_associative(a1, e1, s2);
        assert(data == a1 + s1);
        lemma_field_first::<DiskStringOffset>(v.name, s1);
        assert(field::<DiskStringOffset>(data, 0) == Ok::<(<DiskStringOffset as View>::V, int), DepMetadataError>((v.name, a1.len() as int)));
        lemma_field::<DiskSpan>(a1, v.name_span, s2);
        assert(field::<DiskSpan>(data, a1.len() as int) == Ok::<(<DiskSpan as View>::V, int), DepMetadataError>((v.name_span, a2.len() as int)));
        lemma_field::<DiskStringOffset>(a2, v.native, s3);
        assert(field::<DiskStringOffset>(data, a2.len() as int) == Ok::<(<DiskStringOffset as View>::V, int), DepMetadataError>((v.native, a3.len() as int)));
        lemma_field::<DiskSpan>(a3, v.native_span, s4);
        assert(field::<DiskSpan>(data, a3.len() as int) == Ok::<(<DiskSpan as View>::V, int), DepMetadataError>((v.native_span, a4.len() as int)));
        lemma_field::<DiskVec<DiskGenArg>>(a4, v.genargs, s5);
        assert(field::<DiskVec<DiskGenArg>>(data, a4.len() as int) == Ok::<(<DiskVec<DiskGenArg> as View>::V, int), DepMetadataError>((v.genargs, a5.len() as int)));
        lemma_field::<DiskVec<DiskSymbolIndex>>(a5, v.assoc_symbols, s6);
        assert(field::<DiskVec<DiskSymbolIndex>>(data, a5.len() as int) == Ok::<(<DiskVec<DiskSymbolIndex> as View>::V, int), DepMetadataError>((v.assoc_symbols, a6.len() as int)));
    }
}

/// The body of a module symbol.
#[derive(Debug)]
pub struct DiskModData {
    pub name: DiskStringOffset,
    pub name_span: DiskSpan,
    /// Its child symbols: submodules, types, functions.
    pub children: DiskVec<DiskSymbolIndex>,
}


/// A `DiskModData` as plain values.
pub ghost struct DiskModDataView {
    pub name: <DiskStringOffset as View>::V,
    pub name_span: <DiskSpan as View>::V,
    pub children: <DiskVec<DiskSymbolIndex> as View>::V,
}

impl View for DiskModData {
    type V = DiskModDataView;

    open spec fn view(&self) -> DiskModDataView {
        DiskModDataView { name: self.name@, name_span: self.name_span@, children: self.children@ }
    }
}


impl DiskDecode for DiskModData {
    closed spec fn parse(bytes: Seq<u8>) -> Result<(DiskModDataView, int), DepMetadataError> {
        match field::<DiskStringOffset>(bytes, 0) {
            Err(e) => Err(e),
            Ok((name, p0)) => match field::<DiskSpan>(bytes, p0) {
                    Err(e) => Err(e),
                    Ok((name_span, p1)) => match field::<DiskVec<DiskSymbolIndex>>(bytes, p1) {
                            Err(e) => Err(e),
                            Ok((children, p2)) => Ok((DiskModDataView { name, name_span, children }, p2)),
                        },
                },
        }
    }

    fn decode(bytes: &[u8]) -> (r: Result<(DiskModData, usize), DepMetadataError>) {
        proof {
            assert(bytes@.subrange(0, bytes@.len() as int) =~= bytes@);
        }
        let mut pos: usize = 0;
        let (name, n) = match <DiskStringOffset as DiskDecode>::decode(&bytes[pos..bytes.len()]) {
            Ok(x) => x,
            Err(e) => return Err(e),
        };
        pos = pos + n;
        let (name_span, n) = match <DiskSpan as DiskDecode>::decode(&bytes[pos..bytes.len()]) {
            Ok(x) => x,
            Err(e) => return Err(e),
        };
        pos = pos + n;
        let (children, n) = match <DiskVec<DiskSymbolIndex> as DiskDecode>::decode(&bytes[pos..bytes.len()]) {
            Ok(x) => x,
            Err(e) => return Err(e),
        };
        pos = pos + n;
        Ok((DiskModData { name, name_span, children }, pos))
    }
}


impl DiskEncode for DiskModData {
    open spec fn encoding(v: DiskModDataView) -> Seq<u8> {
        <DiskStringOffset as DiskEncode>::encoding(v.name) + <DiskSpan as DiskEncode>::encoding(v.name_span) + <DiskVec<DiskSymbolIndex> as DiskEncode>::encoding(v.children)
    }

    fn encode(&self, buf: &mut Vec<u8>) {
        self.name.encode(buf);
        self.name_span.encode(buf);
        self.children.encode(buf);
        assert(final(buf)@ =~= old(buf)@ + Self::encoding(self@));
    }
}


impl DiskCodec for DiskModData {
    open spec fn encodable(v: DiskModDataView) -> bool {
        <DiskStringOffset as DiskCodec>::encodable(v.name) && <DiskSpan as DiskCodec>::encodable(v.name_span) && <DiskVec<DiskSymbolIndex> as DiskCodec>::encodable(v.children)
    }

    proof fn lemma_roundtrip(v: DiskModDataView, rest: Seq<u8>) {
        let e0 = <DiskStringOffset as DiskEncode>::encoding(v.name);
        let e1 = <DiskSpan as DiskEncode>::encoding(v.name_span);
        let e2 = <DiskVec<DiskSymbolIndex> as DiskEncode>::encoding(v.children);
        let data = Self::encoding(v) + rest;
        let a1 = e0;
        let a2 = a1 + e1;
        let a3 = a2 + e2;
        let s3 = rest;
        let s2 = e2 + s3;
        let s1 = e1 + s2;
        assert(data == a3 + s3);
        lemma_concat_associative(a2, e2, s3);
        assert(data == a2 + s2);
        lemma_concat_associative(a1, e1, s2);
        assert(data == a1 + s1);
        lemma_field_first::<DiskStringOffset>(v.name, s1);
        assert(field::<DiskStringOffset>(data, 0) == Ok::<(<DiskStringOffset as View>::V, int), DepMetadataError>((v.name, a1.len() as int)));
        lemma_field::<DiskSpan>(a1, v.name_span, s2);
        assert(field::<DiskSpan>(data, a1.len() as int) == Ok::<(<DiskSpan as View>::V, int), DepMetadataError>((v.name_span, a2.len() as int)));
        lemma_field::<DiskVec<DiskSymbolIndex>>(a2, v.children, s3);
        assert(field::<DiskVec<DiskSymbolIndex>>(data, a2.len() as int) == Ok::<(<DiskVec<DiskSymbolIndex> as View>::V, int), DepMetadataError>((v.children, a3.len() as int)));
    }
}

// --- the SVH of a dependency (12 bytes) ---
//
// For every package in the transitive dependency graph at build time, its
// `(PackageId, Svh)`. A package id is a stable hash of (name, version), so it
// means the same in every file. Used to check consistency at load time and
// to decide freshness in incremental builds.

/// The SVH a dependency had when this package was built.
#[derive(Debug, Clone, Copy, PartialEq, Eq, Structural)]
pub struct DiskDepSvh {
    /// The raw value of the dependency's `PackageId`.
    pub pkg: u32,
    /// The hash of that package's interface.
    pub svh: u64,
}


impl View for DiskDepSvh {
    type V = DiskDepSvh;

    open spec fn view(&self) -> DiskDepSvh {
        *self
    }
}


impl DiskDecode for DiskDepSvh {
    closed spec fn parse(bytes: Seq<u8>) -> Result<(DiskDepSvh, int), DepMetadataError> {
        match field::<u32>(bytes, 0) {
            Err(e) => Err(e),
            Ok((pkg, p0)) => match field::<u64>(bytes, p0) {
                    Err(e) => Err(e),
                    Ok((svh, p1)) => Ok((DiskDepSvh { pkg, svh }, p1)),
                },
        }
    }

    fn decode(bytes: &[u8]) -> (r: Result<(DiskDepSvh, usize), DepMetadataError>) {
        proof {
            assert(bytes@.subrange(0, bytes@.len() as int) =~= bytes@);
        }
        let mut pos: usize = 0;
        let (pkg, n) = match <u32 as DiskDecode>::decode(&bytes[pos..bytes.len()]) {
            Ok(x) => x,
            Err(e) => return Err(e),
        };
        pos = pos + n;
        let (svh, n) = match <u64 as DiskDecode>::decode(&bytes[pos..bytes.len()]) {
            Ok(x) => x,
            Err(e) => return Err(e),
        };
        pos = pos + n;
        Ok((DiskDepSvh { pkg, svh }, pos))
    }
}


impl DiskEncode for DiskDepSvh {
    open spec fn encoding(v: DiskDepSvh) -> Seq<u8> {
        <u32 as DiskEncode>::encoding(v.pkg) + <u64 as DiskEncode>::encoding(v.svh)
    }

    fn encode(&self, buf: &mut Vec<u8>) {
        self.pkg.encode(buf);
        self.svh.encode(buf);
        assert(final(buf)@ =~= old(buf)@ + Self::encoding(self@));
    }
}


impl DiskCodec for DiskDepSvh {
    open spec fn encodable(v: DiskDepSvh) -> bool {
        <u32 as DiskCodec>::encodable(v.pkg) && <u64 as DiskCodec>::encodable(v.svh)
    }

    proof fn lemma_roundtrip(v: DiskDepSvh, rest: Seq<u8>) {
        let e0 = <u32 as DiskEncode>::encoding(v.pkg);
        let e1 = <u64 as DiskEncode>::encoding(v.svh);
        let data = Self::encoding(v) + rest;
        let a1 = e0;
        let a2 = a1 + e1;
        let s2 = rest;
        let s1 = e1 + s2;
        assert(data == a2 + s2);
        lemma_concat_associative(a1, e1, s2);
        assert(data == a1 + s1);
        lemma_field_first::<u32>(v.pkg, s1);
        assert(field::<u32>(data, 0) == Ok::<(<u32 as View>::V, int), DepMetadataError>((v.pkg, a1.len() as int)));
        lemma_field::<u64>(a1, v.svh, s2);
        assert(field::<u64>(data, a1.len() as int) == Ok::<(<u64 as View>::V, int), DepMetadataError>((v.svh, a2.len() as int)));
    }
}

// --- external symbols (8 bytes) ---
//
// A reference to a symbol of a dependency; the `sym_id` of an
// `ExternalDefined` type points into this table. `sym` is the index in the
// dependency's own `.biwameta`, so when the dependency is rebuilt and
// renumbered these references go stale; the dependency SVH table detects that.

/// An entry of the external symbol table.
#[derive(Debug, Clone, Copy, PartialEq, Eq, Structural)]
pub struct DiskExternalSymbol {
    /// The raw value of the dependency's `PackageId`.
    pub pkg: u32,
    pub sym: DiskSymbolIndex,
}


impl View for DiskExternalSymbol {
    type V = DiskExternalSymbol;

    open spec fn view(&self) -> DiskExternalSymbol {
        *self
    }
}


impl DiskDecode for DiskExternalSymbol {
    closed spec fn parse(bytes: Seq<u8>) -> Result<(DiskExternalSymbol, int), DepMetadataError> {
        match field::<u32>(bytes, 0) {
            Err(e) => Err(e),
            Ok((pkg, p0)) => match field::<DiskSymbolIndex>(bytes, p0) {
                    Err(e) => Err(e),
                    Ok((sym, p1)) => Ok((DiskExternalSymbol { pkg, sym }, p1)),
                },
        }
    }

    fn decode(bytes: &[u8]) -> (r: Result<(DiskExternalSymbol, usize), DepMetadataError>) {
        proof {
            assert(bytes@.subrange(0, bytes@.len() as int) =~= bytes@);
        }
        let mut pos: usize = 0;
        let (pkg, n) = match <u32 as DiskDecode>::decode(&bytes[pos..bytes.len()]) {
            Ok(x) => x,
            Err(e) => return Err(e),
        };
        pos = pos + n;
        let (sym, n) = match <DiskSymbolIndex as DiskDecode>::decode(&bytes[pos..bytes.len()]) {
            Ok(x) => x,
            Err(e) => return Err(e),
        };
        pos = pos + n;
        Ok((DiskExternalSymbol { pkg, sym }, pos))
    }
}


impl DiskEncode for DiskExternalSymbol {
    open spec fn encoding(v: DiskExternalSymbol) -> Seq<u8> {
        <u32 as DiskEncode>::encoding(v.pkg) + <DiskSymbolIndex as DiskEncode>::encoding(v.sym)
    }

    fn encode(&self, buf: &mut Vec<u8>) {
        self.pkg.encode(buf);
        self.sym.encode(buf);
        assert(final(buf)@ =~= old(buf)@ + Self::encoding(self@));
    }
}


impl DiskCodec for DiskExternalSymbol {
    open spec fn encodable(v: DiskExternalSymbol) -> bool {
        <u32 as DiskCodec>::encodable(v.pkg) && <DiskSymbolIndex as DiskCodec>::encodable(v.sym)
    }

    proof fn lemma_roundtrip(v: DiskExternalSymbol, rest: Seq<u8>) {
        let e0 = <u32 as DiskEncode>::encoding(v.pkg);
        let e1 = <DiskSymbolIndex as DiskEncode>::encoding(v.sym);
        let data = Self::encoding(v) + rest;
        let a1 = e0;
        let a2 = a1 + e1;
        let s2 = rest;
        let s1 = e1 + s2;
        assert(data == a2 + s2);
        lemma_concat_associative(a1, e1, s2);
        assert(data == a1 + s1);
        lemma_field_first::<u32>(v.pkg, s1);
        assert(field::<u32>(data, 0) == Ok::<(<u32 as View>::V, int), DepMetadataError>((v.pkg, a1.len() as int)));
        lemma_field::<DiskSymbolIndex>(a1, v.sym, s2);
        assert(field::<DiskSymbolIndex>(data, a1.len() as int) == Ok::<(<DiskSymbolIndex as View>::V, int), DepMetadataError>((v.sym, a2.len() as int)));
    }
}

// --- source files (4 bytes) ---

/// A source file of the package.
#[derive(Debug, Clone, Copy, PartialEq, Eq, Structural)]
pub struct DiskSourceInfo {
    pub file_path: DiskStringOffset,
}


impl View for DiskSourceInfo {
    type V = DiskSourceInfo;

    open spec fn view(&self) -> DiskSourceInfo {
        *self
    }
}


impl DiskDecode for DiskSourceInfo {
    closed spec fn parse(bytes: Seq<u8>) -> Result<(DiskSourceInfo, int), DepMetadataError> {
        match field::<DiskStringOffset>(bytes, 0) {
            Err(e) => Err(e),
            Ok((file_path, p0)) => Ok((DiskSourceInfo { file_path }, p0)),
        }
    }

    fn decode(bytes: &[u8]) -> (r: Result<(DiskSourceInfo, usize), DepMetadataError>) {
        proof {
            assert(bytes@.subrange(0, bytes@.len() as int) =~= bytes@);
        }
        let mut pos: usize = 0;
        let (file_path, n) = match <DiskStringOffset as DiskDecode>::decode(&bytes[pos..bytes.len()]) {
            Ok(x) => x,
            Err(e) => return Err(e),
        };
        pos = pos + n;
        Ok((DiskSourceInfo { file_path }, pos))
    }
}


impl DiskEncode for DiskSourceInfo {
    open spec fn encoding(v: DiskSourceInfo) -> Seq<u8> {
        <DiskStringOffset as DiskEncode>::encoding(v.file_path)
    }

    fn encode(&self, buf: &mut Vec<u8>) {
        self.file_path.encode(buf);
        assert(final(buf)@ =~= old(buf)@ + Self::encoding(self@));
    }
}


impl DiskCodec for DiskSourceInfo {
    open spec fn encodable(v: DiskSourceInfo) -> bool {
        <DiskStringOffset as DiskCodec>::encodable(v.file_path)
    }

    proof fn lemma_roundtrip(v: DiskSourceInfo, rest: Seq<u8>) {
        let e0 = <DiskStringOffset as DiskEncode>::encoding(v.file_path);
        let data = Self::encoding(v) + rest;
        lemma_field_first::<DiskStringOffset>(v.file_path, rest);
    }
}

} // verus!
