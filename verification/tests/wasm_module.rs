use biwac::wasm_module::{assemble, assembly_outcome, emit_module, validation_outcome, FieldDef, ModuleParts, TypeDef};
use biwac::wasm_text::WasmError;

fn field(name: &str, ty: &str) -> FieldDef {
    FieldDef { name: name.to_string(), ty: Ok(ty.to_string()) }
}

fn parts() -> ModuleParts {
    ModuleParts {
        entry: Some("_ZN4demo4mainE.i0".to_string()),
        natives: vec!["\n  (import \"host\" \"print\" (func $print (param externref)))   \n\n".to_string()],
        strings: vec!["hi\"".to_string(), "é".to_string()],
        types: vec![
            TypeDef::Struct { name: "P.t0".to_string(), fields: vec![field("x", "i32"), field("y", "f32")] },
            TypeDef::Enum {
                name: "E.t1".to_string(),
                variants: vec![("E.t1.v0".to_string(), vec![]), ("E.t1.v1".to_string(), vec![field("0", "i32")])],
            },
        ],
        funcs: vec![Ok("  (func $f\n  )\n".to_string())],
    }
}

#[test]
fn whole_module() {
    let text = emit_module(parts()).unwrap();
    let expected = [
        "(module\n",
        "    (import \"host\" \"print\" (func $print (param externref)))\n",
        "  (import \"biwa:runtime\" \"string_const\"\n    (func $__biwa_string_const (param i32 i32) (result externref)))\n",
        "\n",
        "  (memory (export \"memory\") 1)\n",
        "  (data (i32.const 0) \"hi\\\"\")\n",
        "  (data (i32.const 3) \"\\c3\\a9\")\n",
        "\n",
        "  (rec\n",
        "    (type $P.t0 (struct (field $x (mut i32)) (field $y (mut f32))))\n",
        "    (type $E.t1 (sub (struct (field $__tag (mut i32)))))\n",
        "    (type $E.t1.v0 (sub $E.t1 (struct (field $__tag (mut i32)))))\n",
        "    (type $E.t1.v1 (sub $E.t1 (struct (field $__tag (mut i32)) (field $0 (mut i32)))))\n",
        "  )\n",
        "\n",
        "  (func $f\n  )\n",
        "\n",
        "  (export \"__biwa_entrypoint\" (func $_ZN4demo4mainE.i0))\n",
        ")\n",
    ]
    .concat();
    assert_eq!(text, expected);
}

#[test]
fn bare_module() {
    let m = ModuleParts { entry: Some("main".to_string()), natives: vec![], strings: vec![], types: vec![], funcs: vec![] };
    assert_eq!(
        emit_module(m).unwrap(),
        "(module\n  (import \"biwa:runtime\" \"string_const\"\n    (func $__biwa_string_const (param i32 i32) (result externref)))\n\n  (export \"__biwa_entrypoint\" (func $main))\n)\n"
    );
}

#[test]
fn module_errors_in_order() {
    let mut m = parts();
    m.entry = None;
    m.funcs = vec![Err(WasmError::Structure("x".to_string()))];
    assert_eq!(emit_module(m).unwrap_err(), WasmError::NoEntryPoint);

    let mut m = parts();
    let bad = WasmError::UnsupportedType { ty: "Void".to_string() };
    m.types = vec![TypeDef::Enum {
        name: "E".to_string(),
        variants: vec![("E.v0".to_string(), vec![field("a", "i32"), FieldDef { name: "b".to_string(), ty: Err(bad.clone()) }])],
    }];
    m.funcs = vec![Err(WasmError::Structure("x".to_string()))];
    assert_eq!(emit_module(m).unwrap_err(), bad);

    let mut m = parts();
    m.funcs = vec![Ok(String::new()), Err(WasmError::Structure("later".to_string()))];
    assert_eq!(emit_module(m).unwrap_err(), WasmError::Structure("later".to_string()));
}

#[test]
fn assembling_checks_the_binary() {
    let bin = assemble("(module (func (export \"f\") (result i32) i32.const 1))").unwrap();
    assert_eq!(&bin[0..4], b"\0asm");
    assert!(assemble("(module").is_err());
    let err = assemble("(module (func (result i32)))").unwrap_err();
    assert!(err.starts_with("the generated wasm is invalid: "), "{err}");
}

#[test]
fn assembly_outcomes() {
    assert_eq!(
        assembly_outcome(Err("expected `(`".to_string())),
        Err("expected `(`".to_string())
    );
    let bin = vec![0u8, 0x61, 0x73, 0x6d, 1, 0, 0, 0];
    assert_eq!(assembly_outcome(Ok(bin.clone())), Ok(bin));
    let err = assembly_outcome(Ok(vec![1, 2, 3])).unwrap_err();
    assert!(err.starts_with("the generated wasm is invalid: "), "{err}");
}

#[test]
fn validation_outcomes() {
    assert_eq!(validation_outcome(vec![1, 2], Ok(())), Ok(vec![1, 2]));
    assert_eq!(
        validation_outcome(vec![1, 2], Err("type mismatch".to_string())),
        Err("the generated wasm is invalid: type mismatch".to_string())
    );
}

#[test]
fn emitted_modules_assemble() {
    let m = ModuleParts {
        entry: Some("main".to_string()),
        natives: vec![],
        strings: vec!["hello".to_string()],
        types: vec![TypeDef::Struct { name: "P".to_string(), fields: vec![field("x", "i32")] }],
        funcs: vec![Ok("  (func $main\n  )\n".to_string())],
    };
    let text = emit_module(m).unwrap();
    assert!(assemble(&text).is_ok(), "{text}");
}
