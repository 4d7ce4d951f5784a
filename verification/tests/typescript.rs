use biwac::ast::{BinOperator, UnOperator};
use biwac::typescript::{
    fn_as_ts, generate, native_fn_as_ts, stmt_as_ts, struct_as_ts, HAliasDef, HArg, HAssocDef, HAssocEntry,
    HBlock, HExpr, HField, HFnDef, HImport, HMember, HNativeArg, HNativeFnDef, HSceneDef, HStmt, HStructDef, HTy,
    HTyDef, HTyEntry, HValDef, HValEntry, HVar, TsBinOp, TsExpr, TsItem, TsParam, TsProgramInput, TsProp,
    TsStmt, TsTarget, TsType,
};

fn local(n: u64) -> HExpr {
    HExpr::Var(HVar::Local(n))
}

fn ident(s: &str) -> TsExpr {
    TsExpr::Ident(s.to_string())
}

fn add_fn() -> HFnDef {
    HFnDef {
        self_ty: None,
        self_var: 0,
        args: vec![HArg { var: 1, ty: HTy::Int }, HArg { var: 2, ty: HTy::Int }],
        impl_genargs: vec![],
        genargs: vec![],
        rty: HTy::Int,
        stmts: vec![HStmt::VarDecl {
            var: 3,
            ty: HTy::Int,
            init: HExpr::Binary { op: BinOperator::Add, left: Box::new(local(1)), right: Box::new(local(2)) },
        }],
        expr: Some(local(3)),
    }
}

#[test]
fn function_with_let_and_value() {
    let it = fn_as_ts(&"_ZN3add".to_string(), &add_fn());
    let expected = TsItem::Function {
        name: "_ZN3add".to_string(),
        type_params: vec![],
        params: vec![
            TsParam { name: "__lv1".to_string(), ty: TsType::Number },
            TsParam { name: "__lv2".to_string(), ty: TsType::Number },
        ],
        ret: TsType::Number,
        body: vec![
            TsStmt::Let {
                name: "__lv3".to_string(),
                ty: TsType::Number,
                init: TsExpr::Binary {
                    op: TsBinOp::Addition,
                    left: Box::new(ident("__lv1")),
                    right: Box::new(ident("__lv2")),
                },
            },
            TsStmt::Return(ident("__lv3")),
        ],
    };
    assert_eq!(it, expected);
}

#[test]
fn block_value_hoists_its_statements() {
    let mut acc = Vec::new();
    let s = HStmt::Expr(HExpr::Call {
        callee: HVar::Global("_ZN1f".to_string()),
        args: vec![HExpr::Block(HBlock {
            stmts: vec![HStmt::VarDecl { var: 5, ty: HTy::Bool, init: HExpr::Bool(true) }],
            expr: Box::new(local(5)),
        })],
    });
    let t = stmt_as_ts(&s, &mut acc);
    assert_eq!(acc, vec![TsStmt::Let { name: "__lv5".to_string(), ty: TsType::Boolean, init: TsExpr::Boolean(true) }]);
    assert_eq!(t, TsStmt::Expr(TsExpr::Call { callee: "_ZN1f".to_string(), args: vec![ident("__lv5")] }));
}

#[test]
fn if_value_becomes_conditional_and_equality_is_strict() {
    let mut acc = Vec::new();
    let e = HExpr::If {
        cond: Box::new(HExpr::Binary { op: BinOperator::Eq, left: Box::new(local(1)), right: Box::new(HExpr::Int(0)) }),
        then: HBlock { stmts: vec![], expr: Box::new(HExpr::Str("zero".to_string())) },
        els: HBlock { stmts: vec![], expr: Box::new(HExpr::Str("other".to_string())) },
    };
    let t = biwac::typescript::expr_as_ts(&e, &mut acc);
    assert!(acc.is_empty());
    assert_eq!(
        t,
        TsExpr::Conditional {
            test: Box::new(TsExpr::Binary {
                op: TsBinOp::StrictEquality,
                left: Box::new(ident("__lv1")),
                right: Box::new(TsExpr::Number(0)),
            }),
            consequent: Box::new(TsExpr::Str("zero".to_string())),
            alternate: Box::new(TsExpr::Str("other".to_string())),
        }
    );
}

#[test]
fn method_call_passes_the_receiver_first() {
    let mut acc = Vec::new();
    let e = HExpr::MethodCall {
        callee: "_ZN3len".to_string(),
        left: Box::new(HExpr::Member { left: Box::new(local(7)), member: "xs".to_string() }),
        args: vec![HExpr::Unary { op: UnOperator::Neg, right: Box::new(HExpr::Int(2)) }],
    };
    let t = biwac::typescript::expr_as_ts(&e, &mut acc);
    assert_eq!(
        t,
        TsExpr::Call {
            callee: "_ZN3len".to_string(),
            args: vec![
                TsExpr::Member { object: Box::new(ident("__lv7")), property: "xs".to_string() },
                TsExpr::Negation(Box::new(TsExpr::Number(2))),
            ],
        }
    );
}

#[test]
fn assignments_and_syscalls() {
    let mut acc = Vec::new();
    let a = HStmt::Assign {
        dst: HExpr::Member { left: Box::new(local(1)), member: "x".to_string() },
        src: HExpr::Struct(vec![HField { name: "y".to_string(), value: HExpr::Int(3) }]),
    };
    assert_eq!(
        stmt_as_ts(&a, &mut acc),
        TsStmt::Assign {
            target: TsTarget::Member { object: ident("__lv1"), property: "x".to_string() },
            value: TsExpr::Object(vec![TsProp { key: "y".to_string(), value: TsExpr::Number(3) }]),
        }
    );
    let y = HStmt::Syscall(HExpr::Call { callee: HVar::Local(4), args: vec![] });
    assert_eq!(
        stmt_as_ts(&y, &mut acc),
        TsStmt::Expr(TsExpr::Yield(Box::new(TsExpr::Call { callee: "__lv4".to_string(), args: vec![] })))
    );
}

#[test]
fn struct_becomes_object_type_alias() {
    let d = HStructDef {
        genargs: vec![0],
        members: vec![
            HMember { name: "x".to_string(), ty: HTy::Float },
            HMember {
                name: "next".to_string(),
                ty: HTy::Defined { name: "_ZN4List".to_string(), args: vec![HTy::Gen(0)] },
            },
        ],
    };
    assert_eq!(
        struct_as_ts(&"_ZN4List".to_string(), &d),
        TsItem::TypeAlias {
            name: "_ZN4List".to_string(),
            params: vec!["T0".to_string()],
            members: vec![
                TsParam { name: "x".to_string(), ty: TsType::Number },
                TsParam {
                    name: "next".to_string(),
                    ty: TsType::Ref {
                        name: "_ZN4List".to_string(),
                        args: vec![TsType::Ref { name: "T0".to_string(), args: vec![] }],
                    },
                },
            ],
        }
    );
}

#[test]
fn native_method_takes_self() {
    let f = HNativeFnDef {
        self_ty: Some(HTy::Int),
        args: vec![HNativeArg { name: "by".to_string(), ty: HTy::LocGen(4) }],
        impl_genargs: vec![],
        genargs: vec![4],
        rty: HTy::Void,
        native_body: "return self;".to_string(),
    };
    assert_eq!(
        native_fn_as_ts(&"_ZN3Int4stepE".to_string(), &f),
        TsItem::NativeFunction {
            name: "_ZN3Int4stepE".to_string(),
            type_params: vec!["T4".to_string()],
            params: vec![
                TsParam { name: "self".to_string(), ty: TsType::Number },
                TsParam { name: "by".to_string(), ty: TsType::Ref { name: "T4".to_string(), args: vec![] } },
            ],
            ret: TsType::Void,
            body_source: "return self;".to_string(),
        }
    );
}

#[test]
fn module_items_come_in_order() {
    let p = TsProgramInput {
        natives: vec!["const k = 1;".to_string()],
        ty_imports: vec![HImport { name: "_ZN3dep1TE".to_string(), package: "dep".to_string() }],
        val_imports: vec![HImport { name: "_ZN3dep1fE".to_string(), package: "dep".to_string() }],
        tys: vec![
            HTyEntry { name: "_ZN1AE".to_string(), def: HTyDef::Struct { is_self: false, def: HStructDef { genargs: vec![], members: vec![] } } },
            HTyEntry { name: "_ZN1BE".to_string(), def: HTyDef::Opaque },
            HTyEntry {
                name: "_ZN1CE".to_string(),
                def: HTyDef::NativeAlias(HAliasDef { genargs: vec!["U".to_string()], native: "Array<U>".to_string() }),
            },
        ],
        assoc: vec![HAssocEntry { name: "_ZN1m".to_string(), def: HAssocDef::Fn(add_fn()) }],
        vals: vec![
            HValEntry { name: "_ZN1x".to_string(), def: HValDef::External },
            HValEntry {
                name: "_ZN1s".to_string(),
                def: HValDef::Scene(HSceneDef { args: vec![], rty: HTy::Void, stmts: vec![] }),
            },
        ],
    };
    let m = generate(&p);
    assert_eq!(m.items.len(), 6);
    assert_eq!(m.items[0], TsItem::Native("const k = 1;".to_string()));
    assert_eq!(
        m.items[1],
        TsItem::Import { name: "_ZN3dep1TE".to_string(), source: "./dep.ts".to_string(), type_only: true }
    );
    assert_eq!(
        m.items[2],
        TsItem::Import { name: "_ZN3dep1fE".to_string(), source: "./dep.ts".to_string(), type_only: false }
    );
    assert_eq!(
        m.items[3],
        TsItem::NativeTypeAlias {
            name: "_ZN1CE".to_string(),
            params: vec!["U".to_string()],
            source: "type X = Array<U>;".to_string(),
        }
    );
    assert!(matches!(&m.items[4], TsItem::Function { name, .. } if name == "_ZN1m"));
    assert_eq!(
        m.items[5],
        TsItem::Function {
            name: "_ZN1s".to_string(),
            type_params: vec![],
            params: vec![],
            ret: TsType::Void,
            body: vec![],
        }
    );
}
