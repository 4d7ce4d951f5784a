use biwac::dependency_metadata::encode_ty::{
    encode_fn_data, encode_ty, to_disk_span, ExtSymBuilder, HirArg, HirFnSig, HirGenArg, HirTy, HirTyKind, TyDefRef,
    TyEncodeTables,
};
use biwac::dependency_metadata::table::StringTable;
use biwac::dependency_metadata::format::{DiskExternalSymbol, DiskFileIndex, DiskSpan, DiskSymbolIndex, DiskTy, DiskTyHeader};
use biwac::mangle::PrimTy;
use biwac::package::PackageId;
use biwac::span::Span;
use biwac::src::ModId;

fn sp(m: u32, b: usize, e: usize) -> Span {
    Span::new(ModId::new_in_self(m), b, e)
}

fn ty(kind: HirTyKind) -> HirTy {
    HirTy { kind, span: sp(0, 1, 2) }
}

const TY_TO_SYM: [(u32, u32); 2] = [(7, 3), (9, 4)];
const GEN_ORD: [(u64, u32); 1] = [(100, 1)];
const LOC_GEN_ORD: [(u64, u32); 2] = [(200, 0), (201, 2)];

fn mod_to_file() -> Vec<(ModId, u32)> {
    vec![(ModId::new_in_self(0), 5), (ModId::new_in_self(1), 6)]
}

fn tables(mods: &[(ModId, u32)]) -> TyEncodeTables<'_> {
    TyEncodeTables { ty_to_sym: &TY_TO_SYM, gen_ord: &GEN_ORD, loc_gen_ord: &LOC_GEN_ORD, mod_to_file: mods }
}

fn hdr(kind: u32, sym: u32) -> DiskTyHeader {
    DiskTyHeader {
        kind,
        sym_id: DiskSymbolIndex(sym),
        span: DiskSpan { file: DiskFileIndex(5), begin: 1, end: 2 },
    }
}

fn shape(t: &DiskTy) -> (u32, u32, usize) {
    (t.hdr.kind, t.hdr.sym_id.0, t.genargs.len())
}

#[test]
fn spans_take_the_file_index_of_their_module() {
    let mods = mod_to_file();
    let t = tables(&mods);
    assert_eq!(
        to_disk_span(&sp(1, 10, 20), &t.mod_to_file),
        DiskSpan { file: DiskFileIndex(6), begin: 10, end: 20 }
    );
    assert_eq!(
        to_disk_span(&sp(9, 0, 3), &t.mod_to_file),
        DiskSpan { file: DiskFileIndex(0), begin: 0, end: 3 }
    );
}

#[test]
fn external_symbols_are_interned_once() {
    let mut ext = ExtSymBuilder::new();
    assert_eq!(ext.intern(PackageId::new(3), 10), 0);
    assert_eq!(ext.intern(PackageId::new(4), 10), 1);
    assert_eq!(ext.intern(PackageId::new(3), 10), 0);
    assert_eq!(ext.intern(PackageId::new(3), 11), 2);
    assert_eq!(
        ext.finish(),
        vec![
            DiskExternalSymbol { pkg: 3, sym: DiskSymbolIndex(10) },
            DiskExternalSymbol { pkg: 4, sym: DiskSymbolIndex(10) },
            DiskExternalSymbol { pkg: 3, sym: DiskSymbolIndex(11) },
        ]
    );
}

#[test]
fn primitive_and_generic_types() {
    let mods = mod_to_file();
    let t = tables(&mods);
    let mut ext = ExtSymBuilder::new();
    assert_eq!(encode_ty(&ty(HirTyKind::Int), &t, &mut ext).hdr, hdr(0, 0));
    assert_eq!(encode_ty(&ty(HirTyKind::Float), &t, &mut ext).hdr, hdr(1, 0));
    assert_eq!(encode_ty(&ty(HirTyKind::Bool), &t, &mut ext).hdr, hdr(2, 0));
    assert_eq!(encode_ty(&ty(HirTyKind::Void), &t, &mut ext).hdr, hdr(3, 0));
    assert_eq!(encode_ty(&ty(HirTyKind::Infer), &t, &mut ext).hdr, hdr(3, 0));
    assert_eq!(encode_ty(&ty(HirTyKind::Gen(100)), &t, &mut ext).hdr, hdr(5, 1));
    assert_eq!(encode_ty(&ty(HirTyKind::Gen(999)), &t, &mut ext).hdr, hdr(5, 0));
    assert_eq!(encode_ty(&ty(HirTyKind::LocGen(201)), &t, &mut ext).hdr, hdr(6, 2));
    assert_eq!(
        encode_ty(&ty(HirTyKind::Defined { def: TyDefRef::Prim(PrimTy::Float), genargs: vec![] }), &t, &mut ext).hdr,
        hdr(1, 0)
    );
    assert!(ext.finish().is_empty());
}

#[test]
fn defined_and_function_types() {
    let mods = mod_to_file();
    let t = tables(&mods);
    let mut ext = ExtSymBuilder::new();
    // Map[Int, dep::Thing] where Map is of this package (local 9).
    let map = ty(HirTyKind::Defined {
        def: TyDefRef::Def { pkg: PackageId::new(0), local_idx: 9 },
        genargs: vec![
            ty(HirTyKind::Int),
            ty(HirTyKind::Defined { def: TyDefRef::Def { pkg: PackageId::new(5), local_idx: 2 }, genargs: vec![] }),
        ],
    });
    let d = encode_ty(&map, &t, &mut ext);
    assert_eq!(shape(&d), (4, 4, 2));
    assert_eq!(shape(&d.genargs[0]), (0, 0, 0));
    assert_eq!(shape(&d.genargs[1]), (8, 0, 0));
    // fn(Bool, dep2::Other) -> dep::Thing: arguments, then the result last.
    let f = ty(HirTyKind::Fn {
        args: vec![
            ty(HirTyKind::Bool),
            ty(HirTyKind::Defined { def: TyDefRef::Def { pkg: PackageId::new(6), local_idx: 1 }, genargs: vec![] }),
        ],
        rty: Box::new(ty(HirTyKind::Defined { def: TyDefRef::Def { pkg: PackageId::new(5), local_idx: 2 }, genargs: vec![] })),
    });
    let d = encode_ty(&f, &t, &mut ext);
    assert_eq!(shape(&d), (7, 2, 3));
    assert_eq!(shape(&d.genargs[0]), (2, 0, 0));
    assert_eq!(shape(&d.genargs[1]), (8, 1, 0));
    assert_eq!(shape(&d.genargs[2]), (8, 0, 0));
    // A type of this package missing from the symbol table gets symbol 0.
    let lost = ty(HirTyKind::Defined { def: TyDefRef::Def { pkg: PackageId::new(0), local_idx: 77 }, genargs: vec![] });
    assert_eq!(encode_ty(&lost, &t, &mut ext).hdr, hdr(4, 0));
    assert_eq!(
        ext.finish(),
        vec![
            DiskExternalSymbol { pkg: 5, sym: DiskSymbolIndex(2) },
            DiskExternalSymbol { pkg: 6, sym: DiskSymbolIndex(1) },
        ]
    );
}

#[test]
fn function_bodies() {
    let mods = mod_to_file();
    let t = tables(&mods);
    let mut strings = StringTable::empty();
    let mut ext = ExtSymBuilder::new();
    let impl_genargs = vec![HirGenArg { def_id: 200, name: "T".to_string(), name_span: sp(1, 4, 5) }];
    let sig = HirFnSig {
        genargs: vec![HirGenArg { def_id: 300, name: "U".to_string(), name_span: sp(1, 9, 10) }],
        args: vec![
            HirArg { name: "a".to_string(), name_span: sp(1, 11, 12), ty: ty(HirTyKind::LocGen(300)) },
            HirArg {
                name: "b".to_string(),
                name_span: sp(1, 14, 15),
                ty: ty(HirTyKind::Defined { def: TyDefRef::Def { pkg: PackageId::new(5), local_idx: 2 }, genargs: vec![] }),
            },
        ],
        rty: ty(HirTyKind::LocGen(200)),
        span: sp(1, 0, 20),
    };
    let self_ty = Some(ty(HirTyKind::Defined {
        def: TyDefRef::Def { pkg: PackageId::new(0), local_idx: 7 },
        genargs: vec![ty(HirTyKind::LocGen(200))],
    }));
    let (data, ords) = encode_fn_data("map", &sp(1, 3, 6), "fn map[U](a: U, b: dep::Thing) -> T", &sig, &impl_genargs, &self_ty, &t, &mut strings, &mut ext);
    assert_eq!(ords, vec![(300, 1), (200, 0)]);
    assert_eq!(data.name.0, 0);
    assert_eq!(data.def_raw_code.0, 4);
    assert_eq!(data.name_span, DiskSpan { file: DiskFileIndex(6), begin: 3, end: 6 });
    assert_eq!(data.def_span, DiskSpan { file: DiskFileIndex(6), begin: 0, end: 20 });
    let gnames: Vec<u32> = data.genargs.0.iter().map(|g| g.name.0).collect();
    // "map\0" then the 35 bytes of the signature and its NUL.
    assert_eq!(gnames, vec![40, 42]);
    assert_eq!(data.args.0.len(), 2);
    assert_eq!(data.args.0[0].name.0, 44);
    assert_eq!(shape(&data.args.0[0].ty), (6, 1, 0));
    assert_eq!(shape(&data.args.0[1].ty), (8, 0, 0));
    assert_eq!(shape(&data.rty), (6, 0, 0));
    assert_eq!(data.impl_self_ty.0.len(), 1);
    assert_eq!(shape(&data.impl_self_ty.0[0]), (4, 3, 1));
    assert_eq!(shape(&data.impl_self_ty.0[0].genargs[0]), (6, 0, 0));
    assert_eq!(ext.finish(), vec![DiskExternalSymbol { pkg: 5, sym: DiskSymbolIndex(2) }]);
    assert_eq!(strings.get(data.args.0[1].name).unwrap(), "b");
}
