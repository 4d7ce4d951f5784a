use biwac::dependency_metadata::body::SymbolBody;
use biwac::dependency_metadata::encode_ty::{HirArg, HirFnSig, HirTy, HirTyKind};
use biwac::dependency_metadata::format::DiskStringOffset;
use biwac::dependency_metadata::writer::{
    build_metadata, sort_keyed_pairs, HirFnDef, HirLangItem, HirMember, HirModule, HirPackage, HirStructDef,
    LangItemTarget,
};
use biwac::dependency_metadata::DepMetadata;
use biwac::module::ModPath;
use biwac::span::Span;
use biwac::src::ModId;

fn sp(m: u32, b: usize, e: usize) -> Span {
    Span::new(ModId::new_in_self(m), b, e)
}

fn int_ty() -> HirTy {
    HirTy { kind: HirTyKind::Int, span: sp(0, 3, 6) }
}

fn package() -> HirPackage {
    HirPackage {
        modules: vec![
            HirModule { mod_id: ModId::new_in_self(1), path: ModPath::Mod(vec!["util".to_string()]) },
            HirModule { mod_id: ModId::new_in_self(0), path: ModPath::Lib },
        ],
        structs: vec![
            HirStructDef {
                def_id: 9,
                name: "Point".to_string(),
                name_span: sp(0, 10, 15),
                raw_code: "Point".to_string(),
                genargs: vec![],
                members: vec![
                    HirMember { name: "y".to_string(), ty: int_ty() },
                    HirMember { name: "x".to_string(), ty: int_ty() },
                ],
            },
            HirStructDef {
                def_id: 4,
                name: "Size".to_string(),
                name_span: sp(1, 0, 4),
                raw_code: "Size".to_string(),
                genargs: vec![],
                members: vec![],
            },
        ],
        aliases: vec![],
        fns: vec![HirFnDef {
            def_id: 2,
            name: "area".to_string(),
            name_span: sp(0, 20, 24),
            raw_code: "fn area(p: Point) -> Int".to_string(),
            sig: HirFnSig {
                genargs: vec![],
                args: vec![HirArg { name: "p".to_string(), name_span: sp(0, 25, 26), ty: int_ty() }],
                rty: int_ty(),
                span: sp(0, 20, 40),
            },
            impl_genargs: vec![],
            impl_self_ty: None,
            parent: None,
        }],
        lang_items: vec![
            HirLangItem { item: 7, target: LangItemTarget::Fn(2) },
            HirLangItem { item: 3, target: LangItemTarget::Ty(9) },
            HirLangItem { item: 5, target: LangItemTarget::Ty(77) },
        ],
    }
}

#[test]
fn built_metadata_numbers_and_sorts() {
    let (m, map) = build_metadata(&package(), &[(8, 80), (3, 30), (8, 81)]);
    // structs by id, then the function, then the modules by file name
    assert_eq!(m.sym_hdrs.iter().map(|h| h.kind).collect::<Vec<_>>(), vec![1, 1, 2, 0, 0]);
    assert_eq!(map.tys, vec![(4, 0), (9, 1)]);
    assert_eq!(map.vals, vec![(2, 2)]);
    // lib.biwa comes before util.biwa
    assert_eq!(map.modules, vec![(ModId::new_in_self(0), 3), (ModId::new_in_self(1), 4)]);
    assert_eq!(m.root_sym_idx, 3);
    let files: Vec<&str> = m.source_files.entries().iter().map(|f| m.get_str(f.file_path).unwrap()).collect();
    assert_eq!(files, vec!["lib.biwa", "util.biwa"]);
    // lang items by number; the one naming an unknown type is left out
    let items: Vec<(u32, u32)> = m.lang_items.iter().map(|l| (l.lang_item, l.sym_idx.0)).collect();
    assert_eq!(items, vec![(3, 1), (7, 2)]);
    // dependency SVHs by package, equal packages in their order
    let deps: Vec<(u32, u64)> = m.dep_svhs.iter().map(|d| (d.pkg, d.svh)).collect();
    assert_eq!(deps, vec![(3, 30), (8, 80), (8, 81)]);
    assert_eq!(m.svh, m.compute_svh());
}

#[test]
fn built_metadata_bodies_read_back() {
    let (m, _) = build_metadata(&package(), &[]);
    let name = |o: DiskStringOffset| m.get_str(o).unwrap().to_string();
    match m.get_symbol_body(1).unwrap() {
        SymbolBody::Struct(d) => {
            assert_eq!(name(d.name), "Point");
            let members: Vec<String> = d.members.0.iter().map(|x| name(x.name)).collect();
            assert_eq!(members, vec!["x", "y"]);
        },
        other => panic!("{other:?}"),
    }
    match m.get_symbol_body(2).unwrap() {
        SymbolBody::Fn(d) => assert_eq!(name(d.name), "area"),
        other => panic!("{other:?}"),
    }
    match m.get_symbol_body(3).unwrap() {
        SymbolBody::Mod(d) => {
            assert_eq!(name(d.name), "lib");
            // the struct and the function declared in lib, then the util module
            assert_eq!(d.children.0.iter().map(|c| c.0).collect::<Vec<_>>(), vec![1, 2, 4]);
        },
        other => panic!("{other:?}"),
    }
    match m.get_symbol_body(4).unwrap() {
        SymbolBody::Mod(d) => {
            assert_eq!(name(d.name), "util");
            assert_eq!(d.children.0.iter().map(|c| c.0).collect::<Vec<_>>(), vec![0]);
        },
        other => panic!("{other:?}"),
    }
    let bytes = m.encode_file();
    let back = DepMetadata::decode_file(&bytes).unwrap();
    assert_eq!(back.svh, m.svh);
    assert_eq!(back.compute_svh(), m.svh);
}

#[test]
fn keyed_pairs_sort_stably() {
    assert_eq!(sort_keyed_pairs(&[(2, 1), (1, 2), (2, 0), (0, 9)]), vec![(0, 9), (1, 2), (2, 1), (2, 0)]);
}

#[test]
fn svh_ignores_offsets_and_source_text() {
    let (a, _) = build_metadata(&package(), &[]);
    let mut moved = package();
    moved.structs[0].name_span = sp(0, 110, 115);
    moved.structs[0].raw_code = "Point // the point".to_string();
    moved.fns[0].sig.span = sp(0, 120, 160);
    moved.fns[0].raw_code = "fn area(p: Point) -> Int // area".to_string();
    let (b, _) = build_metadata(&moved, &[(4, 44)]);
    assert_eq!(a.svh, b.svh);
    let mut renamed = package();
    renamed.fns[0].name = "size".to_string();
    let (c, _) = build_metadata(&renamed, &[]);
    assert_ne!(a.svh, c.svh);
}

#[test]
fn every_built_symbol_body_decodes() {
    let (m, _) = build_metadata(&package(), &[(1, 2)]);
    for i in 0..m.sym_hdrs.len() {
        assert!(m.get_symbol_body(i).is_ok(), "symbol {i}");
    }
    assert!(m.get_symbol_body(m.sym_hdrs.len()).is_err());
}
