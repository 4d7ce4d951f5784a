use biwac::mangle::{
    path_mangled, prim_method_mangled, prim_tag, TempNames, push_name, push_owner, push_pkg_and_mods, push_path, push_type, value_mangled, MangleTy,
    PlaceholderNumbering, PrimTy, SymbolPath, ValueItem,
};
use biwac::module::ModPath;

#[test]
fn name_is_length_prefixed() {
    let mut s = String::from("x");
    push_name(&mut s, "hello");
    assert_eq!(s, "x5hello");
    push_name(&mut s, "");
    assert_eq!(s, "x5hello0");
}

#[test]
fn package_and_modules() {
    let mut s = String::new();
    push_pkg_and_mods(&mut s, "std", &ModPath::Lib);
    assert_eq!(s, "3std");
    let mut t = String::new();
    push_pkg_and_mods(&mut t, "std", &ModPath::Mod(vec!["types".to_string(), "string".to_string()]));
    assert_eq!(t, "3std5types6string");
}

#[test]
fn mangled_paths() {
    let p = SymbolPath {
        pkg: "std".to_string(),
        modu: ModPath::Mod(vec!["types".to_string(), "string".to_string()]),
        name: "String".to_string(),
    };
    assert_eq!(path_mangled(&p), "_ZN3std5types6string6StringE");
    let mut s = String::from("a");
    push_path(&mut s, &p);
    assert_eq!(s, "a3std5types6string6String");
    let root = SymbolPath { pkg: "demo".to_string(), modu: ModPath::Main, name: "main".to_string() };
    assert_eq!(path_mangled(&root), "_ZN4demo4mainE");
    // Names are counted in bytes.
    let wide = SymbolPath { pkg: "p".to_string(), modu: ModPath::Lib, name: "é".to_string() };
    assert_eq!(path_mangled(&wide), "_ZN1p2éE");
}

fn path(pkg: &str, mods: &[&str], name: &str) -> SymbolPath {
    SymbolPath {
        pkg: pkg.to_string(),
        modu: if mods.is_empty() { ModPath::Lib } else { ModPath::Mod(mods.iter().map(|m| m.to_string()).collect()) },
        name: name.to_string(),
    }
}

#[test]
fn primitive_tags() {
    assert_eq!(prim_tag(PrimTy::Int), 'i');
    assert_eq!(prim_tag(PrimTy::Float), 'f');
    assert_eq!(prim_tag(PrimTy::Bool), 'b');
    assert_eq!(prim_tag(PrimTy::Void), 'v');
}

#[test]
fn placeholders_number_by_first_appearance() {
    let mut nums = PlaceholderNumbering::default();
    assert_eq!(nums.placeholder(40), "T0_");
    assert_eq!(nums.placeholder(7), "T1_");
    assert_eq!(nums.placeholder(40), "T0_");
    assert_eq!(nums.assigned, vec![40, 7]);
}

#[test]
fn types_in_names() {
    let ty = MangleTy::Defined {
        path: path("std", &["collections"], "Map"),
        genargs: vec![
            MangleTy::Gen(9),
            MangleTy::Fn { ret: Box::new(MangleTy::Prim(PrimTy::Int)), args: vec![MangleTy::Prim(PrimTy::Bool), MangleTy::Gen(9), MangleTy::Gen(3)] },
        ],
    };
    let mut s = String::new();
    let mut nums = PlaceholderNumbering::default();
    push_type(&mut s, &ty, &mut nums);
    assert_eq!(s, "N3std11collections3MapIT0_FibT0_T1_EEE");
    assert_eq!(nums.assigned, vec![9, 3]);
}

#[test]
fn owners_and_values() {
    let pair_tu = MangleTy::Defined { path: path("demo", &[], "Pair"), genargs: vec![MangleTy::Gen(1), MangleTy::Gen(2)] };
    let pair_tt = MangleTy::Defined { path: path("demo", &[], "Pair"), genargs: vec![MangleTy::Gen(1), MangleTy::Gen(1)] };
    let mut a = String::new();
    push_owner(&mut a, &pair_tu);
    let mut b = String::new();
    push_owner(&mut b, &pair_tt);
    assert_eq!(a, "4demo4PairIT0_T1_E");
    assert_eq!(b, "4demo4PairIT0_T0_E");
    assert_ne!(a, b);

    let sqrt = ValueItem::Assoc { owner: MangleTy::Prim(PrimTy::Int), trait_path: None, name: "sqrt".to_string() };
    assert_eq!(value_mangled(&sqrt), "_ZNi4sqrtE");
    let by_a = ValueItem::Assoc {
        owner: MangleTy::Defined { path: path("std", &["types"], "String"), genargs: vec![] },
        trait_path: Some(path("a", &[], "Foo")),
        name: "bar".to_string(),
    };
    let by_b = ValueItem::Assoc {
        owner: MangleTy::Defined { path: path("std", &["types"], "String"), genargs: vec![] },
        trait_path: Some(path("b", &[], "Baz")),
        name: "bar".to_string(),
    };
    assert_eq!(value_mangled(&by_a), "_ZN3std5types6StringR1a3Foo3barE");
    assert_eq!(value_mangled(&by_b), "_ZN3std5types6StringR1b3Baz3barE");
    let top = ValueItem::TopLevel(path("demo", &["util"], "helper"));
    assert_eq!(value_mangled(&top), "_ZN4demo4util6helperE");
}

#[test]
fn primitive_methods_in_typescript() {
    assert_eq!(prim_method_mangled(PrimTy::Int, "abs"), "_ZN3Int3absE");
    assert_eq!(prim_method_mangled(PrimTy::Float, "floor"), "_ZN5Float5floorE");
    assert_eq!(prim_method_mangled(PrimTy::Bool, "not"), "_ZN4Bool3notE");
}

#[test]
fn temporaries_are_fresh() {
    let mut t = TempNames::new();
    let a = t.alloc_temp();
    let b = t.alloc_temp();
    assert_eq!(a, "__biwa_tmp0");
    assert_eq!(b, "__biwa_tmp1");
    assert_ne!(a, b);
    assert!(!a.starts_with("_ZN"));
}
