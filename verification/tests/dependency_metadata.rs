use biwac::dependency_metadata::body::SymbolBody;
use biwac::dependency_metadata::codec::{DiskDecode, DiskEncode, DiskVec};
use biwac::dependency_metadata::error::DepMetadataError;
use biwac::dependency_metadata::format::{
    DiskArg, DiskBodyOffset, DiskDepSvh, DiskExternalSymbol, DiskFileIndex, DiskFnData,
    DiskGenArg, DiskModData, DiskSourceInfo, DiskSpan, DiskStringOffset, DiskStructData,
    DiskStructMember, DiskSymbolHeader, DiskSymbolIndex, DiskSymbolKind, DiskTy, DiskTyHeader,
    DiskTyKind, DiskVisibility,
};
use biwac::dependency_metadata::lang_item::DiskLangItem;
use biwac::dependency_metadata::module_view::{
    DepMetadataModuleView, ExternalChildKind, ExternalChildRef, PackageModuleView,
};
use biwac::dependency_metadata::table::{LazyDiskVec, SourceFileTable, StringTable};
use biwac::dependency_metadata::{
    compose_genarg_local_idx, decompose_genarg_local_idx, DepMetadata,
};
use biwac::hash::Hash64;
use biwac::ident::IdentInterner;
use biwac::module::ModPath;
use biwac::package::PackageId;
use std::sync::Arc;

fn span(file: u32, begin: u32, end: u32) -> DiskSpan {
    DiskSpan { file: DiskFileIndex(file), begin, end }
}

fn ty(kind: u32, sym_id: u32, genargs: Vec<DiskTy>) -> DiskTy {
    DiskTy {
        hdr: DiskTyHeader { kind, sym_id: DiskSymbolIndex(sym_id), span: span(0, 1, 2) },
        genargs,
    }
}

/// A package with a root module `lib` holding a struct `Point { y: Int, x: Int }`
/// with one method `len`, and a function `origin() -> Point`.
fn sample(shift: u32) -> DepMetadata {
    let mut strings = StringTable::empty();
    let lib = strings.push("lib");
    let file = strings.push("lib.biwa");
    let point = strings.push("Point");
    let x = strings.push("x");
    let y = strings.push("y");
    let len = strings.push("len");
    let origin = strings.push("origin");
    let code = strings.push("fn origin() -> Point");
    let this = strings.push("self");

    let bodies = vec![
        // 0: the root module
        SymbolBody::Mod(DiskModData {
            name: lib,
            name_span: span(0, 0, 0),
            children: DiskVec(vec![DiskSymbolIndex(1), DiskSymbolIndex(3)]),
        }),
        // 1: struct Point
        SymbolBody::Struct(DiskStructData {
            name: point,
            name_span: span(0, 10 + shift, 15 + shift),
            def_raw_code: code,
            def_span: span(0, 5 + shift, 40 + shift),
            genargs: DiskVec(vec![]),
            members: DiskVec(vec![
                DiskStructMember { name: y, name_span: span(0, 20, 21), ty: ty(0, 0, vec![]) },
                DiskStructMember { name: x, name_span: span(0, 25, 26), ty: ty(0, 0, vec![]) },
            ]),
            assoc_symbols: DiskVec(vec![DiskSymbolIndex(2)]),
        }),
        // 2: method len(self) -> Int
        SymbolBody::Fn(DiskFnData {
            name: len,
            name_span: span(0, 50 + shift, 53 + shift),
            def_raw_code: code,
            def_span: span(0, 48, 70),
            genargs: DiskVec(vec![]),
            args: DiskVec(vec![DiskArg { name: this, name_span: span(0, 54, 58), ty: ty(4, 1, vec![]) }]),
            rty: ty(0, 0, vec![]),
            impl_self_ty: DiskVec(vec![ty(4, 1, vec![])]),
        }),
        // 3: fn origin[T]() -> Point
        SymbolBody::Fn(DiskFnData {
            name: origin,
            name_span: span(0, 80, 86),
            def_raw_code: code,
            def_span: span(0, 77, 100),
            genargs: DiskVec(vec![DiskGenArg { name: x, name_span: span(0, 87, 88) }]),
            args: DiskVec(vec![]),
            rty: ty(4, 1, vec![ty(6, 0, vec![]), ty(8, 0, vec![])]),
            impl_self_ty: DiskVec(vec![]),
        }),
    ];
    let kinds = [0u32, 1, 2, 2];
    let (sym_bodies, offsets) = LazyDiskVec::from_bodies(&bodies);
    let sym_hdrs = kinds
        .iter()
        .zip(offsets.iter())
        .map(|(k, o)| DiskSymbolHeader { kind: *k, vis: 3, offset: *o })
        .collect();
    let _ = lib;
    DepMetadata {
        sym_hdrs,
        sym_bodies,
        source_files: SourceFileTable::new(vec![DiskSourceInfo { file_path: file }]),
        strings,
        root_sym_idx: 0,
        lang_items: vec![DiskLangItem { lang_item: 7, sym_idx: DiskSymbolIndex(1) }],
        svh: Hash64::from_u64(0),
        dep_svhs: vec![DiskDepSvh { pkg: 42, svh: 99 }],
        ext_syms: vec![DiskExternalSymbol { pkg: 42, sym: DiskSymbolIndex(5) }],
    }
}

#[test]
fn metadata_round_trip() {
    let mut m = sample(0);
    m.svh = m.compute_svh();
    let bytes = m.encode_file();
    assert_eq!(&bytes[0..4], b"bwmt");
    assert_eq!(&bytes[4..8], &[5, 0, 0, 0]);
    let d = DepMetadata::decode_file(&bytes).unwrap();
    assert_eq!(d.sym_hdrs, m.sym_hdrs);
    assert_eq!(d.root_sym_idx, 0);
    assert_eq!(d.svh, m.svh);
    assert_eq!(d.dep_svhs, m.dep_svhs);
    assert_eq!(d.lang_items.len(), 1);
    assert_eq!(d.lang_items[0].lang_item, 7);
    assert_eq!(d.ext_syms.len(), 1);
    assert_eq!(d.strings.data(), m.strings.data());
    assert_eq!(d.sym_bodies.data(), m.sym_bodies.data());
    assert_eq!(d.encode_file(), bytes);
    // The SVH computed again after loading is the one that was recorded.
    assert_eq!(d.compute_svh(), m.svh);
}

#[test]
fn decoding_rejects_bad_headers() {
    let bytes = sample(0).encode_file();
    assert!(matches!(
        DepMetadata::decode_file(&bytes[..5]),
        Err(DepMetadataError::UnexpectedEnd { needed: 8, available: 5 })
    ));
    let mut bad = bytes.clone();
    bad[0] = b'x';
    assert!(matches!(DepMetadata::decode_file(&bad), Err(DepMetadataError::InvalidMagic)));
    let mut bad = bytes.clone();
    bad[4] = 4;
    assert!(matches!(
        DepMetadata::decode_file(&bad),
        Err(DepMetadataError::InvalidVersion { got: 4 })
    ));
    assert!(matches!(
        DepMetadata::decode_file(&bytes[..bytes.len() - 1]),
        Err(DepMetadataError::UnexpectedEnd { .. })
    ));
}

#[test]
fn symbol_bodies_decode_by_kind() {
    let m = sample(0);
    match m.get_symbol_body(1).unwrap() {
        SymbolBody::Struct(d) => {
            assert_eq!(d.members.0.len(), 2);
            assert_eq!(m.get_str(d.name).unwrap(), "Point");
        }
        other => panic!("unexpected body {other:?}"),
    }
    match m.get_symbol_body(3).unwrap() {
        SymbolBody::Fn(d) => {
            assert_eq!(d.rty.genargs.len(), 2);
            assert_eq!(d.rty.genargs[1].hdr.kind, 8);
        }
        other => panic!("unexpected body {other:?}"),
    }
    assert!(matches!(
        m.get_symbol_body(9),
        Err(DepMetadataError::SymbolIndexOutOfBounds { index: 9, sym_count: 4 })
    ));
}

#[test]
fn mangling_info_names_symbol_and_module() {
    let m = sample(0);
    let (name, modu) = m.symbol_mangling_info(3).unwrap();
    assert_eq!(name, "origin");
    assert_eq!(modu, ModPath::Lib);
    assert!(m.symbol_mangling_info(17).is_none());
}

#[test]
fn svh_ignores_span_offsets() {
    assert_eq!(sample(0).compute_svh(), sample(7).compute_svh());
}

#[test]
fn svh_follows_names() {
    let a = sample(0);
    let mut b = sample(0);
    b.lang_items[0].lang_item = 8;
    assert_ne!(a.compute_svh(), b.compute_svh());
    let mut c = sample(0);
    c.ext_syms[0].sym = DiskSymbolIndex(6);
    assert_ne!(a.compute_svh(), c.compute_svh());
}

#[test]
fn dep_svhs_lists_ids_and_hashes() {
    let m = sample(0);
    assert_eq!(m.dep_svhs(), vec![(PackageId::new(42), Hash64::from_u64(99))]);
}

#[test]
fn string_table_reads_back_pushed_strings() {
    let mut t = StringTable::empty();
    let a = t.push("alpha");
    let b = t.push("βeta");
    assert_eq!(a.0, 0);
    assert_eq!(b.0, 6);
    assert_eq!(t.get(a).unwrap(), "alpha");
    assert_eq!(t.get(b).unwrap(), "βeta");
    assert!(matches!(
        t.get(DiskStringOffset(100)),
        Err(DepMetadataError::StringOffsetOutOfBounds { offset: 100, table_len: 12 })
    ));
    let t = StringTable::new(vec![b'a', b'b']);
    assert!(matches!(
        t.get(DiskStringOffset(0)),
        Err(DepMetadataError::NulTerminatorNotFound { offset: 0 })
    ));
    let t = StringTable::new(vec![0xff, 0]);
    assert!(matches!(t.get(DiskStringOffset(0)), Err(DepMetadataError::InvalidUtf8)));
}

#[test]
fn source_file_table_lookup() {
    let t = SourceFileTable::new(vec![DiskSourceInfo { file_path: DiskStringOffset(3) }]);
    assert_eq!(t.len(), 1);
    assert_eq!(t.get(0).unwrap().file_path, DiskStringOffset(3));
    assert!(matches!(
        t.get(1),
        Err(DepMetadataError::FileIndexOutOfBounds { index: 1, file_count: 1 })
    ));
}

#[test]
fn body_table_errors() {
    let t = LazyDiskVec::new(vec![5, 0, 0, 0, 1], 1);
    let hdr = DiskSymbolHeader { kind: 0, vis: 0, offset: DiskBodyOffset(0) };
    assert!(matches!(
        t.get(0, &hdr),
        Err(DepMetadataError::BodySizeMismatch { declared: 5, available: 1 })
    ));
    let hdr = DiskSymbolHeader { kind: 0, vis: 0, offset: DiskBodyOffset(3) };
    assert!(matches!(
        t.get(0, &hdr),
        Err(DepMetadataError::UnexpectedEnd { needed: 7, available: 5 })
    ));
    let t = LazyDiskVec::new(vec![0, 0, 0, 0], 1);
    let hdr = DiskSymbolHeader { kind: 9, vis: 0, offset: DiskBodyOffset(0) };
    assert!(matches!(t.get(0, &hdr), Err(DepMetadataError::UnknownSymbolKind(9))));
}

#[test]
fn type_references_round_trip() {
    let t = ty(4, 1, vec![ty(0, 0, vec![]), ty(4, 2, vec![ty(2, 0, vec![])])]);
    let mut buf = Vec::new();
    t.encode(&mut buf);
    assert_eq!(buf.len(), 24 * 4);
    buf.push(0xaa);
    let (back, n) = DiskTy::decode(&buf).unwrap();
    assert_eq!(n, 24 * 4);
    assert_eq!(back.hdr, t.hdr);
    assert_eq!(back.genargs[1].genargs[0].hdr.kind, 2);
    assert!(matches!(
        DiskTy::decode(&buf[..30]),
        Err(DepMetadataError::UnexpectedEnd { .. })
    ));
}

#[test]
fn kinds_decode_from_numbers() {
    assert_eq!(DiskSymbolKind::try_from(3), Ok(DiskSymbolKind::NativeTypeAlias));
    assert_eq!(DiskSymbolKind::try_from(4), Err(DepMetadataError::UnknownSymbolKind(4)));
    assert_eq!(DiskVisibility::try_from(1), Ok(DiskVisibility::SuperModulePublic));
    assert_eq!(DiskVisibility::try_from(7), Err(DepMetadataError::UnknownVisibility(7)));
    assert_eq!(DiskTyKind::try_from(8), Ok(DiskTyKind::ExternalDefined));
    assert_eq!(DiskTyKind::try_from(9), Err(DepMetadataError::UnknownTyKind(9)));
    let h = DiskSymbolHeader { kind: 2, vis: 3, offset: DiskBodyOffset(0) };
    assert_eq!(h.kind(), Ok(DiskSymbolKind::Fn));
    assert_eq!(h.vis(), Ok(DiskVisibility::Public));
}

#[test]
fn error_messages() {
    assert_eq!(
        DepMetadataError::UnexpectedEnd { needed: 8, available: 3 }.message(),
        "unexpected end of data: needed 8 bytes, got 3"
    );
    assert_eq!(
        DepMetadataError::StringOffsetOutOfBounds { offset: 4, table_len: 2 }.message(),
        "string offset 4 out of bounds (table len: 2)"
    );
    assert_eq!(
        DepMetadataError::BodySizeMismatch { declared: 9, available: 1 }.message(),
        "body size 9 exceeds available bytes 1"
    );
}

#[test]
fn genarg_ids_round_trip() {
    let id = compose_genarg_local_idx(5, 3);
    assert_eq!(id, (5 << 10) | 3);
    assert_eq!(decompose_genarg_local_idx(id), (5, 3));
}

#[test]
fn module_view_finds_children_and_methods() {
    let m = Arc::new(sample(0));
    let mut interner = IdentInterner::new();
    let point = interner.get_or_insert("Point");
    let origin = interner.get_or_insert("origin");
    let len = interner.get_or_insert("len");
    let nothing = interner.get_or_insert("nothing");
    let view = DepMetadataModuleView::new_root(m.clone(), PackageId::new(42));
    assert_eq!(
        view.lookup_child(point, &interner),
        Some(ExternalChildRef { sym_idx: 1, kind: ExternalChildKind::Ty })
    );
    assert_eq!(
        view.lookup_child(origin, &interner),
        Some(ExternalChildRef { sym_idx: 3, kind: ExternalChildKind::Val })
    );
    assert_eq!(view.lookup_child(nothing, &interner), None);
    assert_eq!(
        view.lookup_assoc(1, len, &interner),
        Some(ExternalChildRef { sym_idx: 2, kind: ExternalChildKind::Val })
    );
    assert_eq!(view.lookup_assoc(1, origin, &interner), None);
    assert_eq!(view.pkg_id(), PackageId::new(42));
    let sub = view.get_module_view(0);
    assert_eq!(sub.lookup_child(point, &interner).map(|c| c.sym_idx), Some(1));
}

#[test]
fn no_symbol_is_a_trait_item_or_a_variant() {
    let m = sample(0);
    for i in 0..(m.sym_hdrs.len() as u32 + 2) {
        assert_eq!(m.trait_assoc_owner(i), None);
        assert_eq!(m.variant_owner(i), None);
    }
}
