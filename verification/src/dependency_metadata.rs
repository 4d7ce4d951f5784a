//! The `.biwameta` format: what a package exports, read by the packages
//! that depend on it.
//!
//! The symbol header table and the source file table are always read whole
//! (fixed size, small); symbol bodies are decoded when asked for; the string
//! table is read whole, being referred to all the time.

pub mod error;
pub mod codec;
pub mod format;
pub mod lang_item;
pub mod body;
pub mod table;
pub mod svh;
pub mod module_view;
pub mod external_package;
pub mod encode_ty;
pub mod writer;
pub mod svh_invariance;
pub mod fit;

use vstd::prelude::*;
use crate::hash::Hash64;
use crate::le_bytes::{u32_le, u64_le, u32_read_le, push_u32_le, push_u64_le, push_bytes,
    lemma_u32_le_roundtrip};
use vstd::seq_lib::lemma_concat_associative;
use error::DepMetadataError;
use codec::{DiskDecode, DiskEncode, DiskCodec, DiskVec, field, encode_counted, lemma_field,
    lemma_plain_views};
use format::{BIWAC_DEPENDENCY_METADATA_MAGIC, BIWAC_DEPENDENCY_METADATA_FORMAT_VERSION,
    DiskSymbolHeader, DiskSourceInfo, DiskDepSvh, DiskExternalSymbol, u32_at};
use lang_item::DiskLangItem;
use table::{LazyDiskVec, SourceFileTable, StringTable, body_at, string_at, file_at};
use body::{SymbolBody, SymbolBodyView};
use format::{DiskStringOffset, DiskSpan};
use crate::package::PackageId;
use crate::module::{ModPath, ModPathView, spec_from_file_name};

verus! {

/// The metadata of a dependency, as loaded.
pub struct DepMetadata {
    pub sym_hdrs: Vec<DiskSymbolHeader>,
    pub sym_bodies: LazyDiskVec,
    pub source_files: SourceFileTable,
    pub strings: StringTable,
    /// The symbol of the root module (the lib module).
    pub root_sym_idx: u32,
    /// The lang items this package defines; dependents rebuild their lang
    /// item table from them.
    pub lang_items: Vec<DiskLangItem>,
    /// The hash of this package's interface (Strict Version Hash). When it
    /// matches the previous one, the packages that depend on this one need
    /// no rebuild. Spans and comments are not in it, so a change of
    /// implementation alone does not propagate. See [`DepMetadata::compute_svh`].
    pub svh: Hash64,
    /// The SVH of every package of the dependency graph (transitive) at
    /// build time, for freshness and consistency checks.
    pub dep_svhs: Vec<DiskDepSvh>,
    /// The references to symbols of dependencies; the `sym_id` of an
    /// `ExternalDefined` type points here.
    pub ext_syms: Vec<DiskExternalSymbol>,
}

/// A `DepMetadata` as plain values.
pub ghost struct DepMetadataView {
    pub sym_hdrs: Seq<DiskSymbolHeader>,
    pub sym_bodies: Seq<u8>,
    pub source_files: Seq<DiskSourceInfo>,
    pub strings: Seq<u8>,
    pub root_sym_idx: u32,
    pub lang_items: Seq<DiskLangItem>,
    pub svh: u64,
    pub dep_svhs: Seq<DiskDepSvh>,
    pub ext_syms: Seq<DiskExternalSymbol>,
}

impl View for DepMetadata {
    type V = DepMetadataView;

    open spec fn view(&self) -> DepMetadataView {
        DepMetadataView {
            sym_hdrs: self.sym_hdrs@,
            sym_bodies: self.sym_bodies@,
            source_files: self.source_files@,
            strings: self.strings@,
            root_sym_idx: self.root_sym_idx,
            lang_items: self.lang_items@,
            svh: self.svh.0,
            dep_svhs: self.dep_svhs@,
            ext_syms: self.ext_syms@,
        }
    }
}

/// What asking for the body of symbol `i` gives.
pub open spec fn symbol_body_at(m: DepMetadataView, i: int) -> Result<SymbolBodyView, DepMetadataError> {
    if i < 0 || i >= m.sym_hdrs.len() {
        Err(
            DepMetadataError::SymbolIndexOutOfBounds {
                index: i as u32,
                sym_count: m.sym_hdrs.len() as u32,
            },
        )
    } else {
        body_at(m.sym_bodies, m.sym_hdrs[i])
    }
}

/// The entry `idx` of the external symbol table, as (package id, symbol).
pub open spec fn ext_sym_at(m: DepMetadataView, idx: u32) -> Option<(u32, u32)> {
    if (idx as int) < m.ext_syms.len() {
        Some((m.ext_syms[idx as int].pkg, m.ext_syms[idx as int].sym.0))
    } else {
        None
    }
}

/// The name of a body and where it is declared.
pub open spec fn body_name(b: SymbolBodyView) -> (DiskStringOffset, DiskSpan) {
    match b {
        SymbolBodyView::Mod(d) => (d.name, d.name_span),
        SymbolBodyView::Struct(d) => (d.name, d.name_span),
        SymbolBodyView::Fn(d) => (d.name, d.name_span),
        SymbolBodyView::NativeTypeAlias(d) => (d.name, d.name_span),
    }
}

/// The name of symbol `i` and the module path of the file it is declared
/// in, when all of them can be read.
pub open spec fn mangling_info(m: DepMetadataView, i: u32) -> Option<(Seq<char>, ModPathView)> {
    match symbol_body_at(m, i as int) {
        Err(_) => None,
        Ok(b) => match string_at(m.strings, body_name(b).0.0) {
            Err(_) => None,
            Ok(name) => match file_at(m.source_files, body_name(b).1.file.0) {
                Err(_) => None,
                Ok(f) => match string_at(m.strings, f.file_path.0) {
                    Err(_) => None,
                    Ok(path) => match spec_from_file_name(path) {
                        None => None,
                        Some(p) => Some((name, p)),
                    },
                },
            },
        },
    }
}

impl DepMetadata {
    /// Resolves entry `ext_sym_idx` of the external symbol table into
    /// `(PackageId, symbol index)`.
    fn resolve_ext_sym(&self, ext_sym_idx: u32) -> (r: Option<(PackageId, u32)>)
        ensures
            match ext_sym_at(self@, ext_sym_idx) {
                Some((p, s)) => r == Some((PackageId(p), s)),
                None => r is None,
            },
    {
        if (ext_sym_idx as usize) < self.ext_syms.len() {
            let entry = &self.ext_syms[ext_sym_idx as usize];
            Some((PackageId::new(entry.pkg), entry.sym.0))
        } else {
            None
        }
    }

    /// The `(PackageId, Svh)` of each dependency seen at build time.
    pub fn dep_svhs(&self) -> (r: Vec<(PackageId, Hash64)>)
        ensures
            r@.len() == self.dep_svhs@.len(),
            forall|i: int| 0 <= i < r@.len() ==> #[trigger] r@[i] == (
                PackageId(self.dep_svhs@[i].pkg),
                Hash64(self.dep_svhs@[i].svh),
            ),
    {
        let mut out: Vec<(PackageId, Hash64)> = Vec::new();
        let mut i: usize = 0;
        while i < self.dep_svhs.len()
            invariant
                i <= self.dep_svhs@.len(),
                out@.len() == i,
                forall|k: int| 0 <= k < i ==> #[trigger] out@[k] == (
                    PackageId(self.dep_svhs@[k].pkg),
                    Hash64(self.dep_svhs@[k].svh),
                ),
            decreases self.dep_svhs@.len() - i,
        {
            let d = &self.dep_svhs[i];
            out.push((PackageId::new(d.pkg), Hash64::from_u64(d.svh)));
            i = i + 1;
        }
        out
    }

    /// The body of symbol `sym_idx`, decoded.
    pub fn get_symbol_body(&self, sym_idx: usize) -> (r: Result<SymbolBody, DepMetadataError>)
        ensures
            match r {
                Ok(b) => symbol_body_at(self@, sym_idx as int) == Ok::<SymbolBodyView, DepMetadataError>(b@),
                Err(e) => symbol_body_at(self@, sym_idx as int) == Err::<SymbolBodyView, DepMetadataError>(e),
            },
    {
        if sym_idx >= self.sym_hdrs.len() {
            return Err(
                DepMetadataError::SymbolIndexOutOfBounds {
                    index: sym_idx as u32,
                    sym_count: self.sym_hdrs.len() as u32,
                },
            );
        }
        self.sym_bodies.get(sym_idx, &self.sym_hdrs[sym_idx])
    }

    pub fn get_str(&self, offset: DiskStringOffset) -> (r: Result<&str, DepMetadataError>)
        ensures
            match r {
                Ok(s) => string_at(self@.strings, offset.0) == Ok::<Seq<char>, DepMetadataError>(s@),
                Err(e) => string_at(self@.strings, offset.0) == Err::<Seq<char>, DepMetadataError>(e),
            },
    {
        self.strings.get(offset)
    }

    /// The trait that declares the associated item `assoc_sym_idx`, and the
    /// item's position in it. No body kind of this format is an associated
    /// item of a trait (a trait's items are read from the trait's own body),
    /// so no symbol has such an owner.
    pub fn trait_assoc_owner(&self, assoc_sym_idx: u32) -> (r: Option<(u32, u32)>)
        ensures
            r is None,
    {
        match self.get_symbol_body(assoc_sym_idx as usize) {
            Ok(SymbolBody::Mod(_)) | Ok(SymbolBody::Struct(_)) | Ok(SymbolBody::Fn(_))
            | Ok(SymbolBody::NativeTypeAlias(_)) | Err(_) => None,
        }
    }

    /// The enum that declares the variant `variant_sym_idx`, and the
    /// variant's position in it. No body kind of this format is an enum
    /// variant, so no symbol has such an owner.
    pub fn variant_owner(&self, variant_sym_idx: u32) -> (r: Option<(u32, u32)>)
        ensures
            r is None,
    {
        match self.get_symbol_body(variant_sym_idx as usize) {
            Ok(SymbolBody::Mod(_)) | Ok(SymbolBody::Struct(_)) | Ok(SymbolBody::Fn(_))
            | Ok(SymbolBody::NativeTypeAlias(_)) | Err(_) => None,
        }
    }

    /// The name of a symbol and the module path it belongs to, for symbol
    /// name mangling. Symbols restored from metadata have dummy spans, so
    /// the module can only be found here.
    pub fn symbol_mangling_info(&self, sym_idx: u32) -> (r: Option<(&str, ModPath)>)
        ensures
            match mangling_info(self@, sym_idx) {
                Some((n, p)) => r matches Some((s, q)) && s@ == n && q@ == p,
                None => r is None,
            },
    {
        let body = match self.get_symbol_body(sym_idx as usize) {
            Ok(b) => b,
            Err(_) => return None,
        };
        let (name, name_span) = match &body {
            SymbolBody::Struct(d) => (d.name, d.name_span),
            SymbolBody::Fn(d) => (d.name, d.name_span),
            SymbolBody::NativeTypeAlias(d) => (d.name, d.name_span),
            SymbolBody::Mod(d) => (d.name, d.name_span),
        };
        assert((name, name_span) == body_name(body@));
        let name = match self.get_str(name) {
            Ok(s) => s,
            Err(_) => return None,
        };
        let file = match self.source_files.get(name_span.file.0) {
            Ok(f) => f,
            Err(_) => return None,
        };
        let path = match self.get_str(file.file_path) {
            Ok(s) => s,
            Err(_) => return None,
        };
        let modu = match ModPath::from_file_name(path) {
            Some(m) => m,
            None => return None,
        };
        Some((name, modu))
    }
}

/// How a generic parameter is numbered: symbols of `.biwameta` have
/// indices, generic parameters do not, so their id is made of the symbol
/// that declares them and their ordinal in it (up to 1024 per symbol and
/// 4M symbols). `.biwamir` numbers them the same way.
pub open spec fn spec_compose_genarg_local_idx(owner_sym_idx: u32, ordinal: u32) -> u32 {
    (owner_sym_idx << 10u32) | ordinal
}

pub fn compose_genarg_local_idx(owner_sym_idx: u32, ordinal: u32) -> (r: u32)
    ensures
        r == spec_compose_genarg_local_idx(owner_sym_idx, ordinal),
{
    (owner_sym_idx << 10u32) | ordinal
}

/// The inverse of [`compose_genarg_local_idx`]: `(owning symbol, ordinal)`.
pub fn decompose_genarg_local_idx(local_idx: u32) -> (r: (u32, u32))
    ensures
        r == (local_idx >> 10u32, local_idx & 0x3FFu32),
{
    (local_idx >> 10u32, local_idx & 0x3FFu32)
}

/// Taking a generic parameter id apart gives back the symbol and ordinal it
/// was made of, when the ordinal is below 1024 and the symbol below 2^22.
pub proof fn lemma_genarg_local_idx_round_trip(owner_sym_idx: u32, ordinal: u32)
    requires
        ordinal < 1024,
        owner_sym_idx < 0x40_0000,
    ensures
        (spec_compose_genarg_local_idx(owner_sym_idx, ordinal) >> 10u32) == owner_sym_idx,
        (spec_compose_genarg_local_idx(owner_sym_idx, ordinal) & 0x3FFu32) == ordinal,
{
    assert(ordinal < 1024 && owner_sym_idx < 0x40_0000 ==> (((owner_sym_idx << 10u32) | ordinal) >> 10u32)
        == owner_sym_idx && (((owner_sym_idx << 10u32) | ordinal) & 0x3FFu32) == ordinal) by (bit_vector);
}

/// Every number a generic parameter id can be is taken apart and put back
/// together into itself.
pub proof fn lemma_genarg_local_idx_decompose_compose(local_idx: u32)
    ensures
        spec_compose_genarg_local_idx(local_idx >> 10u32, local_idx & 0x3FFu32) == local_idx,
{
    assert((((local_idx >> 10u32) << 10u32) | (local_idx & 0x3FFu32)) == local_idx) by (bit_vector);
}

// --- the file, as bytes ---

/// A run of raw bytes: its length as a `u32`, then the bytes.
pub open spec fn blob_bytes(b: Seq<u8>) -> Seq<u8> {
    u32_le(b.len() as u32) + b
}

/// A count as a `u32`, then the items.
pub open spec fn counted<T: DiskEncode>(vs: Seq<<T as View>::V>) -> Seq<u8> {
    <DiskVec<T> as DiskEncode>::encoding(vs)
}

/// The tables read first: symbol headers, root symbol, symbol bodies,
/// source files and strings.
pub open spec fn head_bytes(m: DepMetadataView) -> Seq<u8> {
    counted::<DiskSymbolHeader>(m.sym_hdrs) + u32_le(m.root_sym_idx) + blob_bytes(m.sym_bodies)
        + counted::<DiskSourceInfo>(m.source_files) + blob_bytes(m.strings)
}

/// The tables read last: lang items, SVH, dependency SVHs and external
/// symbols.
pub open spec fn tail_bytes(m: DepMetadataView) -> Seq<u8> {
    counted::<DiskLangItem>(m.lang_items) + u64_le(m.svh) + counted::<DiskDepSvh>(m.dep_svhs)
        + counted::<DiskExternalSymbol>(m.ext_syms)
}

/// The bytes of the `.biwameta` file of `m`.
pub open spec fn metadata_bytes(m: DepMetadataView) -> Seq<u8> {
    BIWAC_DEPENDENCY_METADATA_MAGIC@ + u32_le(BIWAC_DEPENDENCY_METADATA_FORMAT_VERSION) + head_bytes(m)
        + tail_bytes(m)
}

/// A run of raw bytes read at `p`, with the position after it. The error
/// counts from the start of the file.
#[verifier::opaque]
pub open spec fn parse_blob(data: Seq<u8>, p: int) -> Result<(Seq<u8>, int), DepMetadataError> {
    match field::<u32>(data, p) {
        Err(e) => Err(e),
        Ok((n, q)) => if q + n > data.len() {
            Err(
                DepMetadataError::UnexpectedEnd {
                    needed: (q + n) as usize,
                    available: data.len() as usize,
                },
            )
        } else {
            Ok((data.subrange(q, q + n), q + n))
        },
    }
}

/// The tables read first, from position 8 on, with the position after them.
pub open spec fn parse_head(data: Seq<u8>) -> Result<(MetadataHead, int), DepMetadataError> {
    match field::<DiskVec<DiskSymbolHeader>>(data, 8) {
        Err(e) => Err(e),
        Ok((sym_hdrs, p1)) => match field::<u32>(data, p1) {
            Err(e) => Err(e),
            Ok((root_sym_idx, p2)) => match parse_bodies_files_strings(data, p2) {
                Err(e) => Err(e),
                Ok((sym_bodies, source_files, strings, p5)) => Ok(
                    (MetadataHead { sym_hdrs, root_sym_idx, sym_bodies, source_files, strings }, p5),
                ),
            },
        },
    }
}

/// The symbol bodies, source files and strings, read from position `p` on.
pub open spec fn parse_bodies_files_strings(data: Seq<u8>, p: int) -> Result<
    (Seq<u8>, Seq<DiskSourceInfo>, Seq<u8>, int),
    DepMetadataError,
> {
    match parse_blob(data, p) {
        Err(e) => Err(e),
        Ok((sym_bodies, p3)) => match field::<DiskVec<DiskSourceInfo>>(data, p3) {
            Err(e) => Err(e),
            Ok((source_files, p4)) => match parse_blob(data, p4) {
                Err(e) => Err(e),
                Ok((strings, p5)) => Ok((sym_bodies, source_files, strings, p5)),
            },
        },
    }
}

/// The tables read last, from position `p` on.
pub open spec fn parse_tail(data: Seq<u8>, p: int) -> Result<MetadataTail, DepMetadataError> {
    match field::<DiskVec<DiskLangItem>>(data, p) {
        Err(e) => Err(e),
        Ok((lang_items, p6)) => match field::<u64>(data, p6) {
            Err(e) => Err(e),
            Ok((svh, p7)) => match field::<DiskVec<DiskDepSvh>>(data, p7) {
                Err(e) => Err(e),
                Ok((dep_svhs, p8)) => match field::<DiskVec<DiskExternalSymbol>>(data, p8) {
                    Err(e) => Err(e),
                    Ok((ext_syms, _)) => Ok(MetadataTail { lang_items, svh, dep_svhs, ext_syms }),
                },
            },
        },
    }
}

/// The tables read first.
pub ghost struct MetadataHead {
    pub sym_hdrs: Seq<DiskSymbolHeader>,
    pub root_sym_idx: u32,
    pub sym_bodies: Seq<u8>,
    pub source_files: Seq<DiskSourceInfo>,
    pub strings: Seq<u8>,
}

/// The tables read last.
pub ghost struct MetadataTail {
    pub lang_items: Seq<DiskLangItem>,
    pub svh: u64,
    pub dep_svhs: Seq<DiskDepSvh>,
    pub ext_syms: Seq<DiskExternalSymbol>,
}

/// The tables that follow the header, read from position 8 on.
pub open spec fn parse_tables(data: Seq<u8>) -> Result<DepMetadataView, DepMetadataError> {
    match parse_head(data) {
        Err(e) => Err(e),
        Ok((h, p)) => match parse_tail(data, p) {
            Err(e) => Err(e),
            Ok(t) => Ok(
                DepMetadataView {
                    sym_hdrs: h.sym_hdrs,
                    sym_bodies: h.sym_bodies,
                    source_files: h.source_files,
                    strings: h.strings,
                    root_sym_idx: h.root_sym_idx,
                    lang_items: t.lang_items,
                    svh: t.svh,
                    dep_svhs: t.dep_svhs,
                    ext_syms: t.ext_syms,
                },
            ),
        },
    }
}

/// What reading a `.biwameta` file gives. Bytes after the last table are
/// not looked at.
pub open spec fn parse_metadata(data: Seq<u8>) -> Result<DepMetadataView, DepMetadataError> {
    if data.len() < 8 {
        Err(DepMetadataError::UnexpectedEnd { needed: 8, available: data.len() as usize })
    } else if data.subrange(0, 4) != BIWAC_DEPENDENCY_METADATA_MAGIC@ {
        Err(DepMetadataError::InvalidMagic)
    } else if u32_at(data, 4) != BIWAC_DEPENDENCY_METADATA_FORMAT_VERSION {
        Err(DepMetadataError::InvalidVersion { got: u32_at(data, 4) })
    } else {
        parse_tables(data)
    }
}

/// Reads a run of raw bytes at `pos`.
fn read_blob(data: &[u8], pos: usize) -> (r: Result<(Vec<u8>, usize), DepMetadataError>)
    requires
        pos <= data@.len(),
    ensures
        match r {
            Ok((b, q)) => q <= data@.len() && parse_blob(data@, pos as int) == Ok::<(Seq<u8>, int), DepMetadataError>(
                (b@, q as int),
            ),
            Err(e) => parse_blob(data@, pos as int) == Err::<(Seq<u8>, int), DepMetadataError>(e),
        },
{
    proof {
        reveal(parse_blob);
    }
    let (n, k) = match u32::decode(&data[pos..data.len()]) {
        Ok(x) => x,
        Err(e) => return Err(e),
    };
    let start = pos + k;
    if n as usize > data.len() - start {
        let needed = #[verifier::truncate] ((start as u128 + n as u128) as usize);
        return Err(DepMetadataError::UnexpectedEnd { needed, available: data.len() });
    }
    let end = start + n as usize;
    let mut b: Vec<u8> = Vec::new();
    push_bytes(&mut b, &data[start..end]);
    assert(b@ =~= data@.subrange(start as int, end as int));
    Ok((b, end))
}

/// Reads a `DiskVec` at `pos`, into its items.
fn read_counted<T: DiskDecode>(data: &[u8], pos: usize) -> (r: Result<(Vec<T>, usize), DepMetadataError>)
    requires
        pos <= data@.len(),
    ensures
        match r {
            Ok((v, q)) => q <= data@.len() && field::<DiskVec<T>>(data@, pos as int) == Ok::<
                (Seq<<T as View>::V>, int),
                DepMetadataError,
            >((v@.map_values(|x: T| x@), q as int)),
            Err(e) => field::<DiskVec<T>>(data@, pos as int) == Err::<(Seq<<T as View>::V>, int), DepMetadataError>(e),
        },
{
    match DiskVec::<T>::decode(&data[pos..data.len()]) {
        Ok((v, n)) => Ok((v.0, pos + n)),
        Err(e) => Err(e),
    }
}

/// Reads a `u32` or `u64` at `pos`.
fn read_field<T: DiskDecode>(data: &[u8], pos: usize) -> (r: Result<(T, usize), DepMetadataError>)
    requires
        pos <= data@.len(),
    ensures
        match r {
            Ok((v, q)) => q <= data@.len() && field::<T>(data@, pos as int) == Ok::<(<T as View>::V, int), DepMetadataError>(
                (v@, q as int),
            ),
            Err(e) => field::<T>(data@, pos as int) == Err::<(<T as View>::V, int), DepMetadataError>(e),
        },
{
    match T::decode(&data[pos..data.len()]) {
        Ok((v, n)) => Ok((v, pos + n)),
        Err(e) => Err(e),
    }
}


impl DepMetadata {
    /// Reads a `.biwameta` file.
    ///
    /// External symbol references hold raw `PackageId`s, stable hashes of
    /// (name, version), so nothing has to be bound again at load time.
    pub fn decode_file(data: &[u8]) -> (r: Result<Self, DepMetadataError>)
        ensures
            match r {
                Ok(m) => parse_metadata(data@) == Ok::<DepMetadataView, DepMetadataError>(m@),
                Err(e) => parse_metadata(data@) == Err::<DepMetadataView, DepMetadataError>(e),
            },
    {
        if data.len() < 8 {
            return Err(DepMetadataError::UnexpectedEnd { needed: 8, available: data.len() });
        }
        if data[0] != BIWAC_DEPENDENCY_METADATA_MAGIC[0] || data[1] != BIWAC_DEPENDENCY_METADATA_MAGIC[1]
            || data[2] != BIWAC_DEPENDENCY_METADATA_MAGIC[2] || data[3]
            != BIWAC_DEPENDENCY_METADATA_MAGIC[3] {
            proof {
                assert(data@.subrange(0, 4) != BIWAC_DEPENDENCY_METADATA_MAGIC@) by {
                    assert(BIWAC_DEPENDENCY_METADATA_MAGIC@.len() == 4);
                }
            }
            return Err(DepMetadataError::InvalidMagic);
        }
        assert(data@.subrange(0, 4) =~= BIWAC_DEPENDENCY_METADATA_MAGIC@);
        let version = u32_read_le(data, 4);
        if version != BIWAC_DEPENDENCY_METADATA_FORMAT_VERSION {
            return Err(DepMetadataError::InvalidVersion { got: version });
        }
        let (sym_hdrs, pos) = match read_counted::<DiskSymbolHeader>(data, 8) {
            Ok(x) => x,
            Err(e) => return Err(e),
        };
        let (root_sym_idx, pos) = match read_field::<u32>(data, pos) {
            Ok(x) => x,
            Err(e) => return Err(e),
        };
        let (sym_body_bytes, pos) = match read_blob(data, pos) {
            Ok(x) => x,
            Err(e) => return Err(e),
        };
        let (source_file_entries, pos) = match read_counted::<DiskSourceInfo>(data, pos) {
            Ok(x) => x,
            Err(e) => return Err(e),
        };
        let (string_bytes, pos) = match read_blob(data, pos) {
            Ok(x) => x,
            Err(e) => return Err(e),
        };
        let (lang_items, pos) = match read_counted::<DiskLangItem>(data, pos) {
            Ok(x) => x,
            Err(e) => return Err(e),
        };
        let (svh, pos) = match read_field::<u64>(data, pos) {
            Ok(x) => x,
            Err(e) => return Err(e),
        };
        let (dep_svhs, pos) = match read_counted::<DiskDepSvh>(data, pos) {
            Ok(x) => x,
            Err(e) => return Err(e),
        };
        let (ext_syms, _pos) = match read_counted::<DiskExternalSymbol>(data, pos) {
            Ok(x) => x,
            Err(e) => return Err(e),
        };
        proof {
            lemma_plain_views(sym_hdrs@);
            lemma_plain_views(source_file_entries@);
            lemma_plain_views(lang_items@);
            lemma_plain_views(dep_svhs@);
            lemma_plain_views(ext_syms@);
        }
        let sym_count = sym_hdrs.len();
        Ok(
            DepMetadata {
                sym_hdrs,
                sym_bodies: LazyDiskVec::new(sym_body_bytes, sym_count),
                source_files: SourceFileTable::new(source_file_entries),
                strings: StringTable::new(string_bytes),
                root_sym_idx,
                lang_items,
                svh: Hash64::from_u64(svh),
                dep_svhs,
                ext_syms,
            },
        )
    }

    /// The bytes of this metadata's file. The symbol body table is written
    /// as it is held.
    pub fn encode_file(&self) -> (r: Vec<u8>)
        ensures
            r@ == metadata_bytes(self@),
    {
        proof {
            lemma_plain_views(self.sym_hdrs@);
            lemma_plain_views(self.source_files@);
            lemma_plain_views(self.lang_items@);
            lemma_plain_views(self.dep_svhs@);
            lemma_plain_views(self.ext_syms@);
        }
        let ghost m = self@;
        let mut buf: Vec<u8> = Vec::new();
        push_bytes(&mut buf, &BIWAC_DEPENDENCY_METADATA_MAGIC);
        assert(buf@ =~= BIWAC_DEPENDENCY_METADATA_MAGIC@);
        push_u32_le(&mut buf, BIWAC_DEPENDENCY_METADATA_FORMAT_VERSION);
        encode_counted(self.sym_hdrs.as_slice(), &mut buf);
        push_u32_le(&mut buf, self.root_sym_idx);
        let bodies = self.sym_bodies.data();
        let ghost before = buf@;
        push_u32_le(&mut buf, bodies.len() as u32);
        push_bytes(&mut buf, bodies);
        proof {
            lemma_concat_associative(before, u32_le(bodies@.len() as u32), bodies@);
        }
        assert(buf@ == before + blob_bytes(m.sym_bodies));
        encode_counted(self.source_files.entries(), &mut buf);
        let strings = self.strings.data();
        let ghost before = buf@;
        push_u32_le(&mut buf, strings.len() as u32);
        push_bytes(&mut buf, strings);
        proof {
            lemma_concat_associative(before, u32_le(strings@.len() as u32), strings@);
        }
        assert(buf@ == before + blob_bytes(m.strings));
        encode_counted(self.lang_items.as_slice(), &mut buf);
        push_u64_le(&mut buf, self.svh.as_u64());
        encode_counted(self.dep_svhs.as_slice(), &mut buf);
        encode_counted(self.ext_syms.as_slice(), &mut buf);
        assert(buf@ == metadata_bytes(self@));
        buf
    }
}

/// Whether every count and length of `m` fits in a `u32`, as the format
/// stores them.
pub open spec fn metadata_encodable(m: DepMetadataView) -> bool {
    &&& m.sym_hdrs.len() <= u32::MAX
    &&& m.sym_bodies.len() <= u32::MAX
    &&& m.source_files.len() <= u32::MAX
    &&& m.strings.len() <= u32::MAX
    &&& m.lang_items.len() <= u32::MAX
    &&& m.dep_svhs.len() <= u32::MAX
    &&& m.ext_syms.len() <= u32::MAX
}

/// Reading back a run of raw bytes where it was written.
proof fn lemma_parse_blob(pre: Seq<u8>, b: Seq<u8>, post: Seq<u8>)
    requires
        b.len() <= u32::MAX,
    ensures
        parse_blob(pre + blob_bytes(b) + post, pre.len() as int) == Ok::<(Seq<u8>, int), DepMetadataError>(
            (b, (pre.len() + 4 + b.len()) as int),
        ),
{
    reveal(parse_blob);
    let data = pre + blob_bytes(b) + post;
    assert(data == pre + u32_le(b.len() as u32) + (b + post)) by {
        lemma_concat_associative(pre, u32_le(b.len() as u32), b);
        lemma_concat_associative(pre + u32_le(b.len() as u32), b, post);
        assert(data =~= pre + u32_le(b.len() as u32) + (b + post));
    }
    lemma_field::<u32>(pre, b.len() as u32, b + post);
    let q: int = pre.len() + 4int;
    assert(data.subrange(q, q + b.len()) =~= b);
}

/// Reading back the symbol bodies, source files and strings where they
/// were written.
#[verifier::spinoff_prover]
proof fn lemma_parse_bodies_files_strings(pre: Seq<u8>, m: DepMetadataView, post: Seq<u8>)
    requires
        metadata_encodable(m),
    ensures
        parse_bodies_files_strings(
            pre + (blob_bytes(m.sym_bodies) + counted::<DiskSourceInfo>(m.source_files) + blob_bytes(
                m.strings,
            )) + post,
            pre.len() as int,
        ) == Ok::<(Seq<u8>, Seq<DiskSourceInfo>, Seq<u8>, int), DepMetadataError>(
            (
                m.sym_bodies,
                m.source_files,
                m.strings,
                (pre.len() + blob_bytes(m.sym_bodies).len() + counted::<DiskSourceInfo>(
                    m.source_files,
                ).len() + blob_bytes(m.strings).len()) as int,
            ),
        ),
{
    let e1 = blob_bytes(m.sym_bodies);
    let e2 = counted::<DiskSourceInfo>(m.source_files);
    let e3 = blob_bytes(m.strings);
    let data = pre + (e1 + e2 + e3) + post;
    let a2 = pre + e1;
    let a3 = a2 + e2;
    let a4 = a3 + e3;
    let s4 = post;
    let s3 = e3 + s4;
    let s2 = e2 + s3;
    assert(data == a4 + s4) by {
        lemma_concat_associative(pre, e1 + e2, e3);
        lemma_concat_associative(pre, e1, e2);
    }
    lemma_concat_associative(a3, e3, s4);
    assert(data == a3 + s3);
    lemma_concat_associative(a2, e2, s3);
    assert(data == a2 + s2);
    lemma_concat_associative(pre, e1, s2);
    assert(data == pre + e1 + s2);
    lemma_parse_blob(pre, m.sym_bodies, s2);
    lemma_field::<DiskVec<DiskSourceInfo>>(a2, m.source_files, s3);
    lemma_parse_blob(a3, m.strings, s4);
}

/// Reading back the first tables where they were written after an 8-byte header.
#[verifier::spinoff_prover]
proof fn lemma_parse_head(pre: Seq<u8>, m: DepMetadataView, post: Seq<u8>)
    requires
        pre.len() == 8,
        metadata_encodable(m),
    ensures
        parse_head(pre + head_bytes(m) + post) == Ok::<(MetadataHead, int), DepMetadataError>(
            (
                MetadataHead {
                    sym_hdrs: m.sym_hdrs,
                    root_sym_idx: m.root_sym_idx,
                    sym_bodies: m.sym_bodies,
                    source_files: m.source_files,
                    strings: m.strings,
                },
                (8 + head_bytes(m).len()) as int,
            ),
        ),
{
    let e1 = counted::<DiskSymbolHeader>(m.sym_hdrs);
    let e2 = u32_le(m.root_sym_idx);
    let r = blob_bytes(m.sym_bodies) + counted::<DiskSourceInfo>(m.source_files) + blob_bytes(m.strings);
    let data = pre + head_bytes(m) + post;
    assert(head_bytes(m) =~= e1 + e2 + r);
    let a2 = pre + e1;
    let a3 = a2 + e2;
    assert(data == a3 + r + post) by {
        lemma_concat_associative(pre, e1 + e2, r);
        lemma_concat_associative(pre, e1, e2);
    }
    lemma_concat_associative(a3, r, post);
    lemma_concat_associative(a2, e2, r + post);
    lemma_concat_associative(pre, e1, e2 + (r + post));
    lemma_field::<DiskVec<DiskSymbolHeader>>(pre, m.sym_hdrs, e2 + (r + post));
    lemma_field::<u32>(a2, m.root_sym_idx, r + post);
    lemma_parse_bodies_files_strings(a3, m, post);
}

/// Reading back the last tables where they were written.
#[verifier::spinoff_prover]
#[verifier::rlimit(50)]
proof fn lemma_parse_tail(pre: Seq<u8>, m: DepMetadataView, post: Seq<u8>)
    requires
        metadata_encodable(m),
    ensures
        parse_tail(pre + tail_bytes(m) + post, pre.len() as int) == Ok::<MetadataTail, DepMetadataError>(
            MetadataTail {
                lang_items: m.lang_items,
                svh: m.svh,
                dep_svhs: m.dep_svhs,
                ext_syms: m.ext_syms,
            },
        ),
{
    let e1 = counted::<DiskLangItem>(m.lang_items);
    let e2 = u64_le(m.svh);
    let e3 = counted::<DiskDepSvh>(m.dep_svhs);
    let e4 = counted::<DiskExternalSymbol>(m.ext_syms);
    let data = pre + tail_bytes(m) + post;
    let a1 = pre;
    let a2 = a1 + e1;
    let a3 = a2 + e2;
    let a4 = a3 + e3;
    let a5 = a4 + e4;
    let s5 = post;
    let s4 = e4 + s5;
    let s3 = e3 + s4;
    let s2 = e2 + s3;
    assert(data == a5 + s5) by {
        lemma_concat_associative(pre, e1 + e2 + e3, e4);
        lemma_concat_associative(pre, e1 + e2, e3);
        lemma_concat_associative(pre, e1, e2);
    }
    lemma_concat_associative(a4, e4, s5);
    assert(data == a4 + s4);
    lemma_concat_associative(a3, e3, s4);
    assert(data == a3 + s3);
    lemma_concat_associative(a2, e2, s3);
    assert(data == a2 + s2);
    lemma_field::<DiskVec<DiskLangItem>>(a1, m.lang_items, s2);
    lemma_field::<u64>(a2, m.svh, s3);
    lemma_field::<DiskVec<DiskDepSvh>>(a3, m.dep_svhs, s4);
    lemma_field::<DiskVec<DiskExternalSymbol>>(a4, m.ext_syms, s5);
}

/// Reading a `.biwameta` file gives back the metadata that was written,
/// whatever bytes follow it, when its counts and lengths fit in a `u32`.
pub proof fn lemma_metadata_roundtrip(m: DepMetadataView, rest: Seq<u8>)
    requires
        metadata_encodable(m),
    ensures
        parse_metadata(metadata_bytes(m) + rest) == Ok::<DepMetadataView, DepMetadataError>(m),
{
    let magic = BIWAC_DEPENDENCY_METADATA_MAGIC@;
    let version = u32_le(BIWAC_DEPENDENCY_METADATA_FORMAT_VERSION);
    let h = head_bytes(m);
    let t = tail_bytes(m);
    let pre = magic + version;
    let data = metadata_bytes(m) + rest;
    assert(magic.len() == 4);
    assert(pre.len() == 8);
    lemma_concat_associative(pre + h, t, rest);
    lemma_concat_associative(pre, h, t + rest);
    assert(data == pre + h + (t + rest));
    lemma_parse_head(pre, m, t + rest);
    assert(data == (pre + h) + t + rest);
    lemma_parse_tail(pre + h, m, rest);
    assert(data.subrange(0, 4) =~= magic);
    lemma_u32_le_roundtrip(BIWAC_DEPENDENCY_METADATA_FORMAT_VERSION);
    assert(data.subrange(4, 8) =~= version);
}

} // verus!
