use biwac::structure::{BasicBlock, Structured};
use biwac::wasm_text::{
    bin_op, emit_native, emit_structured, BlockCode, CodeFailure, escape_data, expand_native_placeholders, NativeRet, fn_instance_name, memory_pages, string_layout, ty_instance_name, variant_ty_name, wasm_local,
    BinOp, WasmError,
};

#[test]
fn wasm_error_messages() {
    assert_eq!(WasmError::NoEntryPoint.message(), "no entry point to generate wasm from");
    assert_eq!(
        WasmError::UnsupportedType { ty: "Void".to_string() }.message(),
        "`Void` cannot be represented in wasm yet"
    );
    assert_eq!(
        WasmError::MissingInstance { name: "f".to_string() }.message(),
        "the instance `f` was not monomorphized"
    );
    assert_eq!(WasmError::Structure("irreducible".to_string()).message(), "irreducible");
}

#[test]
fn instance_names() {
    assert_eq!(fn_instance_name("_ZN4demo4mainE", 3), "_ZN4demo4mainE.i3");
    assert_eq!(ty_instance_name("_ZN4demo5PointE", 12), "_ZN4demo5PointE.t12");
    assert_eq!(variant_ty_name("_ZN4demo4ShapeE.t0", 1), "_ZN4demo4ShapeE.t0.v1");
}

#[test]
fn strings_are_packed_from_zero() {
    assert_eq!(string_layout(&[3, 0, 5, 2]), vec![(0, 3), (3, 0), (3, 5), (8, 2)]);
    assert!(string_layout(&[]).is_empty());
    assert_eq!(memory_pages(0), 1);
    assert_eq!(memory_pages(1), 1);
    assert_eq!(memory_pages(65536), 1);
    assert_eq!(memory_pages(65537), 2);
    assert_eq!(memory_pages(u32::MAX), 65536);
}

#[test]
fn data_escapes() {
    assert_eq!(escape_data("plain text!"), "plain text!");
    assert_eq!(escape_data("a\"b\\c"), "a\\\"b\\\\c");
    assert_eq!(escape_data("\n\t\u{7f}"), "\\0a\\09\\7f");
    assert_eq!(escape_data("é"), "\\c3\\a9");
}

#[test]
fn locals_put_arguments_first() {
    assert_eq!(wasm_local(0, 2), 2);
    assert_eq!(wasm_local(1, 2), 0);
    assert_eq!(wasm_local(2, 2), 1);
    assert_eq!(wasm_local(3, 2), 3);
    assert_eq!(wasm_local(0, 0), 0);
}

#[test]
fn operator_instructions() {
    assert_eq!(bin_op(BinOp::Add, false), "i32.add");
    assert_eq!(bin_op(BinOp::Div, false), "i32.div_s");
    assert_eq!(bin_op(BinOp::Rem, false), "i32.rem_s");
    assert_eq!(bin_op(BinOp::Lt, false), "i32.lt_s");
    assert_eq!(bin_op(BinOp::Div, true), "f32.div");
    assert_eq!(bin_op(BinOp::Rem, true), "f32.div");
    assert_eq!(bin_op(BinOp::Ge, true), "f32.ge");
}

fn ok(s: &str) -> Result<String, WasmError> {
    Ok(s.to_string())
}

#[test]
fn placeholders_are_filled() {
    let body = "local.get 0\nref.cast (ref $%param1%)\n;; returns %ret%";
    assert_eq!(
        expand_native_placeholders(body, NativeRet::Ty(ok("i32")), vec![ok("externref"), ok("T.t0")]).unwrap(),
        "local.get 0\nref.cast (ref $T.t0)\n;; returns i32"
    );
    // No `%`: the body as it is, whatever the types.
    assert_eq!(
        expand_native_placeholders("i32.add", NativeRet::Void, vec![Err(WasmError::NoEntryPoint)]).unwrap(),
        "i32.add"
    );
    // A type that is not needed is not asked for.
    assert_eq!(
        expand_native_placeholders("%param0% %param0%", NativeRet::Void, vec![ok("f32"), Err(WasmError::NoEntryPoint)]).unwrap(),
        "f32 f32"
    );
    assert_eq!(
        expand_native_placeholders("%ret%", NativeRet::Void, vec![]).unwrap_err(),
        WasmError::UnsupportedType { ty: "%ret% in a native with no return value".to_string() }
    );
    let bad = WasmError::UnsupportedType { ty: "Void".to_string() };
    assert_eq!(
        expand_native_placeholders("x %param1%", NativeRet::Void, vec![ok("i32"), Err(bad.clone())]).unwrap_err(),
        bad
    );
}

#[test]
fn native_functions() {
    let body = "\n   local.get 0  \r\n\n\t  local.get 1\n i32.add\n   \n";
    assert_eq!(
        emit_native("_ZN3std3addE.i0", vec![ok("i32"), ok("i32")], NativeRet::Ty(ok("i32")), body).unwrap(),
        "  (func $_ZN3std3addE.i0 (param i32) (param i32) (result i32)\n    local.get 0\n    local.get 1\n    i32.add\n  )\n"
    );
    assert_eq!(emit_native("f", vec![], NativeRet::Void, "nop").unwrap(), "  (func $f\n    nop\n  )\n");
    let bad = WasmError::UnsupportedType { ty: "Void".to_string() };
    assert_eq!(
        emit_native("f", vec![ok("i32"), Err(bad.clone())], NativeRet::Ty(Err(WasmError::NoEntryPoint)), "nop").unwrap_err(),
        bad
    );
    assert_eq!(
        emit_native("f", vec![], NativeRet::Ty(Err(WasmError::NoEntryPoint)), "nop").unwrap_err(),
        WasmError::NoEntryPoint
    );
}

fn lines(ls: &[&str]) -> Vec<String> {
    ls.iter().map(|l| l.to_string()).collect()
}

#[test]
fn structured_control_flow_text() {
    // bb0: `local.get 0` then a switch on it; bb1 and bb2 the arms; bb3 a loop body.
    let code = BlockCode {
        stmts: vec![
            Ok(lines(&["i32.const 1", "local.set 2"])),
            Ok(lines(&["i32.const 7", "local.set 1"])),
            Ok(vec![]),
            Err(WasmError::NoEntryPoint),
        ],
        conds: vec![Some((Ok(lines(&["local.get 2"])), 1)), None, None, None],
        return_local: Some(1),
    };
    let tree = Structured::Block(vec![
        Structured::Simple(BasicBlock::new(0)),
        Structured::If {
            bb: BasicBlock::new(0),
            then: vec![Structured::Simple(BasicBlock::new(1)), Structured::Br(1)],
            els: vec![Structured::Simple(BasicBlock::new(2)), Structured::Unreachable],
        },
        Structured::Loop(Box::new(Structured::Block(vec![Structured::Br(1)]))),
        Structured::Return,
    ]);
    let mut out = String::from("x\n");
    assert_eq!(emit_structured(&mut out, &tree, 2, &code), Ok(()));
    assert_eq!(
        out,
        "x\n    block\n      i32.const 1\n      local.set 2\n      local.get 2\n      i32.const 1\n      i32.eq\n      if\n        i32.const 7\n        local.set 1\n        br 1\n      else\n        unreachable\n      end\n      loop\n        block\n          br 1\n        end\n      end\n      local.get 1\n      return\n    end\n"
    );
    let bad = Structured::Block(vec![Structured::Simple(BasicBlock::new(1)), Structured::Simple(BasicBlock::new(3))]);
    let mut out2 = String::new();
    assert_eq!(emit_structured(&mut out2, &bad, 0, &code), Err(CodeFailure::Stmts(BasicBlock::new(3))));
    let code2 = BlockCode {
        stmts: vec![Ok(vec![])],
        conds: vec![Some((Err(WasmError::NoEntryPoint), 0))],
        return_local: None,
    };
    let iff = Structured::If { bb: BasicBlock::new(0), then: vec![], els: vec![] };
    let mut out3 = String::new();
    assert_eq!(emit_structured(&mut out3, &iff, 0, &code2), Err(CodeFailure::Cond(BasicBlock::new(0))));
    let mut out4 = String::new();
    assert_eq!(emit_structured(&mut out4, &Structured::Return, 1, &code2), Ok(()));
    assert_eq!(out4, "  return\n");
}
