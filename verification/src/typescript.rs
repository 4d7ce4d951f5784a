//! The TypeScript back end: the package's items, as the analysis hands them
//! over, turned into the syntax tree of one TypeScript module. Printing the
//! tree, and reading the native TypeScript it carries, is left to the
//! caller.

use vstd::prelude::*;
use crate::ast::{BinOperator, UnOperator};
use crate::decimal::{decimal, push_decimal_u128};
use crate::text::{push_str, string_of_str};

verus! {

// --- the input: types, expressions and statements of a function body ---

/// A type as the analysis gives it.
#[derive(Debug)]
pub enum HTy {
    /// A type variable inference left open.
    Infer,
    Int,
    Float,
    Bool,
    Void,
    /// A defined type, by its mangled name, with its generic arguments.
    Defined { name: String, args: Vec<HTy> },
    /// A function type.
    Fn,
    /// A generic parameter of a type definition, by number.
    Gen(u64),
    /// A generic parameter of a function, by number.
    LocGen(u64),
}

/// A variable: a global value by its mangled name, or a local by number.
#[derive(Debug)]
pub enum HVar {
    Global(String),
    Local(u64),
}

/// A member of a struct literal.
#[derive(Debug)]
pub struct HField {
    pub name: String,
    pub value: HExpr,
}

/// Statements, then the value of the block.
#[derive(Debug)]
pub struct HBlock {
    pub stmts: Vec<HStmt>,
    pub expr: Box<HExpr>,
}

#[derive(Debug)]
pub enum HExpr {
    Int(i64),
    Bool(bool),
    Str(String),
    Struct(Vec<HField>),
    Var(HVar),
    Call { callee: HVar, args: Vec<HExpr> },
    If { cond: Box<HExpr>, then: HBlock, els: HBlock },
    Member { left: Box<HExpr>, member: String },
    Block(HBlock),
    /// A method, by the mangled name of its definition, on `left`.
    MethodCall { callee: String, left: Box<HExpr>, args: Vec<HExpr> },
    Unary { op: UnOperator, right: Box<HExpr> },
    Binary { op: BinOperator, left: Box<HExpr>, right: Box<HExpr> },
}

#[derive(Debug)]
pub enum HStmt {
    /// `let`, with the type inferred for the variable.
    VarDecl { var: u64, ty: HTy, init: HExpr },
    Return(HExpr),
    Expr(HExpr),
    If { cond: HExpr, then: Vec<HStmt>, els: Option<Vec<HStmt>> },
    Block(Vec<HStmt>),
    While { cond: HExpr, body: Vec<HStmt> },
    Assign { dst: HExpr, src: HExpr },
    /// A call that suspends the scene it stands in.
    Syscall(HExpr),
}

// --- the output: a TypeScript syntax tree ---

#[derive(Debug, PartialEq, Eq)]
pub enum TsType {
    Number,
    Boolean,
    Void,
    /// A type by name, with type arguments.
    Ref { name: String, args: Vec<TsType> },
}

#[derive(Debug, Clone, Copy, PartialEq, Eq)]
pub enum TsBinOp {
    Addition,
    Subtraction,
    Multiplication,
    Division,
    Remainder,
    GreaterThan,
    LessThan,
    GreaterEqualThan,
    LessEqualThan,
    StrictEquality,
    StrictInequality,
}

#[derive(Debug, PartialEq, Eq)]
pub struct TsProp {
    pub key: String,
    pub value: TsExpr,
}

#[derive(Debug, PartialEq, Eq)]
pub enum TsExpr {
    Number(i64),
    Boolean(bool),
    Str(String),
    Object(Vec<TsProp>),
    Ident(String),
    Call { callee: String, args: Vec<TsExpr> },
    Conditional { test: Box<TsExpr>, consequent: Box<TsExpr>, alternate: Box<TsExpr> },
    Member { object: Box<TsExpr>, property: String },
    Negation(Box<TsExpr>),
    Binary { op: TsBinOp, left: Box<TsExpr>, right: Box<TsExpr> },
    /// `yield e` (not delegating).
    Yield(Box<TsExpr>),
}

#[derive(Debug, PartialEq, Eq)]
pub enum TsTarget {
    Ident(String),
    Member { object: TsExpr, property: String },
}

#[derive(Debug, PartialEq, Eq)]
pub enum TsStmt {
    /// `let name: ty = init;`
    Let { name: String, ty: TsType, init: TsExpr },
    Return(TsExpr),
    Expr(TsExpr),
    If { test: TsExpr, then: Vec<TsStmt>, els: Option<Vec<TsStmt>> },
    Assign { target: TsTarget, value: TsExpr },
}

// --- the abstract form of the output ---

pub ghost enum TsTypeV {
    Number,
    Boolean,
    Void,
    Ref { name: Seq<char>, args: Seq<TsTypeV> },
}

pub ghost struct TsPropV {
    pub key: Seq<char>,
    pub value: TsExprV,
}

pub ghost enum TsExprV {
    Number(i64),
    Boolean(bool),
    Str(Seq<char>),
    Object(Seq<TsPropV>),
    Ident(Seq<char>),
    Call { callee: Seq<char>, args: Seq<TsExprV> },
    Conditional { test: Box<TsExprV>, consequent: Box<TsExprV>, alternate: Box<TsExprV> },
    Member { object: Box<TsExprV>, property: Seq<char> },
    Negation(Box<TsExprV>),
    Binary { op: TsBinOp, left: Box<TsExprV>, right: Box<TsExprV> },
    Yield(Box<TsExprV>),
}

pub ghost enum TsTargetV {
    Ident(Seq<char>),
    Member { object: TsExprV, property: Seq<char> },
}

pub ghost enum TsStmtV {
    Let { name: Seq<char>, ty: TsTypeV, init: TsExprV },
    Return(TsExprV),
    Expr(TsExprV),
    If { test: TsExprV, then: Seq<TsStmtV>, els: Option<Seq<TsStmtV>> },
    Assign { target: TsTargetV, value: TsExprV },
}

pub open spec fn type_v(t: TsType) -> TsTypeV
    decreases t, 1nat,
{
    match t {
        TsType::Number => TsTypeV::Number,
        TsType::Boolean => TsTypeV::Boolean,
        TsType::Void => TsTypeV::Void,
        TsType::Ref { name, args } => TsTypeV::Ref { name: name@, args: types_v(args@) },
    }
}

pub open spec fn types_v(ts: Seq<TsType>) -> Seq<TsTypeV>
    decreases ts, 0nat,
{
    if ts.len() == 0 {
        Seq::empty()
    } else {
        types_v(ts.subrange(0, ts.len() - 1)).push(type_v(ts[ts.len() - 1]))
    }
}

impl View for TsType {
    type V = TsTypeV;

    open spec fn view(&self) -> TsTypeV {
        type_v(*self)
    }
}

pub open spec fn expr_v(e: TsExpr) -> TsExprV
    decreases e, 1nat,
{
    match e {
        TsExpr::Number(n) => TsExprV::Number(n),
        TsExpr::Boolean(b) => TsExprV::Boolean(b),
        TsExpr::Str(s) => TsExprV::Str(s@),
        TsExpr::Object(ps) => TsExprV::Object(props_v(ps@)),
        TsExpr::Ident(s) => TsExprV::Ident(s@),
        TsExpr::Call { callee, args } => TsExprV::Call { callee: callee@, args: exprs_v(args@) },
        TsExpr::Conditional { test, consequent, alternate } => TsExprV::Conditional {
            test: Box::new(expr_v(*test)),
            consequent: Box::new(expr_v(*consequent)),
            alternate: Box::new(expr_v(*alternate)),
        },
        TsExpr::Member { object, property } => TsExprV::Member { object: Box::new(expr_v(*object)), property: property@ },
        TsExpr::Negation(x) => TsExprV::Negation(Box::new(expr_v(*x))),
        TsExpr::Binary { op, left, right } => TsExprV::Binary {
            op,
            left: Box::new(expr_v(*left)),
            right: Box::new(expr_v(*right)),
        },
        TsExpr::Yield(x) => TsExprV::Yield(Box::new(expr_v(*x))),
    }
}

pub open spec fn exprs_v(es: Seq<TsExpr>) -> Seq<TsExprV>
    decreases es, 0nat,
{
    if es.len() == 0 {
        Seq::empty()
    } else {
        exprs_v(es.subrange(0, es.len() - 1)).push(expr_v(es[es.len() - 1]))
    }
}

pub open spec fn props_v(ps: Seq<TsProp>) -> Seq<TsPropV>
    decreases ps, 0nat,
{
    if ps.len() == 0 {
        Seq::empty()
    } else {
        let p = ps[ps.len() - 1];
        props_v(ps.subrange(0, ps.len() - 1)).push(TsPropV { key: p.key@, value: expr_v(p.value) })
    }
}

impl View for TsExpr {
    type V = TsExprV;

    open spec fn view(&self) -> TsExprV {
        expr_v(*self)
    }
}

pub open spec fn target_v(t: TsTarget) -> TsTargetV {
    match t {
        TsTarget::Ident(s) => TsTargetV::Ident(s@),
        TsTarget::Member { object, property } => TsTargetV::Member { object: expr_v(object), property: property@ },
    }
}

pub open spec fn stmt_v(s: TsStmt) -> TsStmtV
    decreases s, 1nat,
{
    match s {
        TsStmt::Let { name, ty, init } => TsStmtV::Let { name: name@, ty: type_v(ty), init: expr_v(init) },
        TsStmt::Return(e) => TsStmtV::Return(expr_v(e)),
        TsStmt::Expr(e) => TsStmtV::Expr(expr_v(e)),
        TsStmt::If { test, then, els } => TsStmtV::If {
            test: expr_v(test),
            then: stmts_v(then@),
            els: match els {
                Some(v) => Some(stmts_v(v@)),
                None => None,
            },
        },
        TsStmt::Assign { target, value } => TsStmtV::Assign { target: target_v(target), value: expr_v(value) },
    }
}

pub open spec fn stmts_v(ss: Seq<TsStmt>) -> Seq<TsStmtV>
    decreases ss, 0nat,
{
    if ss.len() == 0 {
        Seq::empty()
    } else {
        stmts_v(ss.subrange(0, ss.len() - 1)).push(stmt_v(ss[ss.len() - 1]))
    }
}

impl View for TsStmt {
    type V = TsStmtV;

    open spec fn view(&self) -> TsStmtV {
        stmt_v(*self)
    }
}

// --- types ---

/// Whether the type can be written: no open type variable and no function
/// type, at any depth.
pub open spec fn ty_ok(t: HTy) -> bool
    decreases t, 1nat,
{
    match t {
        HTy::Infer => false,
        HTy::Fn => false,
        HTy::Defined { args, .. } => tys_ok(args@),
        _ => true,
    }
}

pub open spec fn tys_ok(ts: Seq<HTy>) -> bool
    decreases ts, 0nat,
{
    if ts.len() == 0 {
        true
    } else {
        tys_ok(ts.subrange(0, ts.len() - 1)) && ty_ok(ts[ts.len() - 1])
    }
}

/// The name a generic parameter is written under: `T` and its number.
pub open spec fn gen_name(n: u64) -> Seq<char> {
    seq!['T'] + decimal(n as nat)
}

/// The name a local variable is written under: `__lv` and its number.
pub open spec fn local_name(n: u64) -> Seq<char> {
    seq!['_', '_', 'l', 'v'] + decimal(n as nat)
}

/// The TypeScript type of a type: integers and floats are `number`.
pub open spec fn ts_of_ty(t: HTy) -> TsTypeV
    decreases t, 1nat,
{
    match t {
        HTy::Int => TsTypeV::Number,
        HTy::Float => TsTypeV::Number,
        HTy::Bool => TsTypeV::Boolean,
        HTy::Void => TsTypeV::Void,
        HTy::Defined { name, args } => TsTypeV::Ref { name: name@, args: ts_of_tys(args@) },
        HTy::Gen(g) => TsTypeV::Ref { name: gen_name(g), args: Seq::empty() },
        HTy::LocGen(g) => TsTypeV::Ref { name: gen_name(g), args: Seq::empty() },
        _ => TsTypeV::Void,
    }
}

pub open spec fn ts_of_tys(ts: Seq<HTy>) -> Seq<TsTypeV>
    decreases ts, 0nat,
{
    if ts.len() == 0 {
        Seq::empty()
    } else {
        ts_of_tys(ts.subrange(0, ts.len() - 1)).push(ts_of_ty(ts[ts.len() - 1]))
    }
}

/// `T` and the number of a generic parameter.
pub fn gen_param_name(n: u64) -> (r: String)
    ensures
        r@ == gen_name(n),
{
    let mut s = String::new();
    proof {
        reveal_strlit("T");
    }
    push_str(&mut s, "T");
    push_decimal_u128(&mut s, n as u128);
    s
}

/// `__lv` and the number of a local variable.
pub fn local_var_name(n: u64) -> (r: String)
    ensures
        r@ == local_name(n),
{
    let mut s = String::new();
    proof {
        reveal_strlit("__lv");
    }
    push_str(&mut s, "__lv");
    push_decimal_u128(&mut s, n as u128);
    s
}

/// Writes a type.
pub fn ty_as_ts(t: &HTy) -> (r: TsType)
    requires
        ty_ok(*t),
    ensures
        r@ == ts_of_ty(*t),
    decreases t, 1nat,
{
    match t {
        HTy::Int => TsType::Number,
        HTy::Float => TsType::Number,
        HTy::Bool => TsType::Boolean,
        HTy::Void => TsType::Void,
        HTy::Defined { name, args } => {
            proof {
                assert(decreases_to!(*t => *args));
            }
            let a = tys_as_ts(args);
            TsType::Ref { name: string_of_str(name.as_str()), args: a }
        },
        HTy::Gen(g) => {
            let r = TsType::Ref { name: gen_param_name(*g), args: Vec::new() };
            assert(types_v(Seq::<TsType>::empty()) =~= Seq::<TsTypeV>::empty());
            r
        },
        HTy::LocGen(g) => {
            let r = TsType::Ref { name: gen_param_name(*g), args: Vec::new() };
            assert(types_v(Seq::<TsType>::empty()) =~= Seq::<TsTypeV>::empty());
            r
        },
        HTy::Infer | HTy::Fn => {
            assert(false);
            TsType::Void
        },
    }
}

fn tys_as_ts(ts: &Vec<HTy>) -> (r: Vec<TsType>)
    requires
        tys_ok(ts@),
    ensures
        types_v(r@) == ts_of_tys(ts@),
    decreases ts, 0nat,
{
    let ghost v = ts@;
    let mut out: Vec<TsType> = Vec::new();
    let mut i: usize = 0;
    assert(v.take(0) =~= Seq::<HTy>::empty());
    assert(types_v(out@) =~= Seq::<TsTypeV>::empty());
    proof {
        lemma_tys_ok_each(v);
    }
    while i < ts.len()
        invariant
            i <= v.len(),
            v == ts@,
            forall|k: int| 0 <= k < v.len() ==> ty_ok(#[trigger] v[k]),
            types_v(out@) == ts_of_tys(v.take(i as int)),
        decreases v.len() - i,
    {
        proof {
            assert(decreases_to!(*ts => ts@));
            assert(decreases_to!(ts@ => ts@[i as int]));
            let tk = v.take(i + 1);
            assert(tk.subrange(0, tk.len() - 1) =~= v.take(i as int));
            assert(tk[tk.len() - 1] == v[i as int]);
        }
        let ghost before = out@;
        let x = ty_as_ts(&ts[i]);
        out.push(x);
        proof {
            assert(out@.subrange(0, out@.len() - 1) =~= before);
        }
        i = i + 1;
    }
    assert(v.take(v.len() as int) =~= v);
    out
}

proof fn lemma_tys_ok_each(ts: Seq<HTy>)
    requires
        tys_ok(ts),
    ensures
        forall|k: int| 0 <= k < ts.len() ==> ty_ok(#[trigger] ts[k]),
    decreases ts.len(),
{
    if ts.len() > 0 {
        let init = ts.subrange(0, ts.len() - 1);
        lemma_tys_ok_each(init);
        assert forall|k: int| 0 <= k < ts.len() implies ty_ok(#[trigger] ts[k]) by {
            if k < ts.len() - 1 {
                assert(init[k] == ts[k]);
            }
        }
    }
}

// --- expressions and statements ---

/// The name a variable is written under.
pub open spec fn var_name(v: HVar) -> Seq<char> {
    match v {
        HVar::Global(s) => s@,
        HVar::Local(n) => local_name(n),
    }
}

/// The TypeScript operator of a binary operator: equality is strict.
pub open spec fn ts_bin_op(op: BinOperator) -> TsBinOp {
    match op {
        BinOperator::Add => TsBinOp::Addition,
        BinOperator::Sub => TsBinOp::Subtraction,
        BinOperator::Mul => TsBinOp::Multiplication,
        BinOperator::Div => TsBinOp::Division,
        BinOperator::Mod => TsBinOp::Remainder,
        BinOperator::Gt => TsBinOp::GreaterThan,
        BinOperator::Lt => TsBinOp::LessThan,
        BinOperator::Ge => TsBinOp::GreaterEqualThan,
        BinOperator::Le => TsBinOp::LessEqualThan,
        BinOperator::Eq => TsBinOp::StrictEquality,
        BinOperator::Ne => TsBinOp::StrictInequality,
    }
}

/// Whether an expression can be written: every `if` used as a value has
/// branches without statements, and what it holds can be written.
pub open spec fn expr_ok(e: HExpr) -> bool
    decreases e, 1nat,
{
    match e {
        HExpr::Struct(fs) => fields_ok(fs@),
        HExpr::Call { args, .. } => exprs_ok(args@),
        HExpr::If { cond, then, els } => expr_ok(*cond) && then.stmts@.len() == 0 && els.stmts@.len() == 0
            && expr_ok(*then.expr) && expr_ok(*els.expr),
        HExpr::Member { left, .. } => expr_ok(*left),
        HExpr::Block(b) => block_ok(b),
        HExpr::MethodCall { left, args, .. } => expr_ok(*left) && exprs_ok(args@),
        HExpr::Unary { right, .. } => expr_ok(*right),
        HExpr::Binary { left, right, .. } => expr_ok(*left) && expr_ok(*right),
        _ => true,
    }
}

pub open spec fn exprs_ok(es: Seq<HExpr>) -> bool
    decreases es, 0nat,
{
    if es.len() == 0 {
        true
    } else {
        exprs_ok(es.subrange(0, es.len() - 1)) && expr_ok(es[es.len() - 1])
    }
}

pub open spec fn fields_ok(fs: Seq<HField>) -> bool
    decreases fs, 0nat,
{
    if fs.len() == 0 {
        true
    } else {
        fields_ok(fs.subrange(0, fs.len() - 1)) && expr_ok(fs[fs.len() - 1].value)
    }
}

pub open spec fn block_ok(b: HBlock) -> bool
    decreases b, 1nat,
{
    stmts_ok(b.stmts@) && expr_ok(*b.expr)
}

/// Whether a statement can be written: no nested block or `while`, only a
/// variable or a member assigned to, and its types and expressions can be
/// written.
pub open spec fn stmt_ok(s: HStmt) -> bool
    decreases s, 1nat,
{
    match s {
        HStmt::VarDecl { ty, init, .. } => ty_ok(ty) && expr_ok(init),
        HStmt::Return(e) => expr_ok(e),
        HStmt::Expr(e) => expr_ok(e),
        HStmt::If { cond, then, els } => expr_ok(cond) && stmts_ok(then@) && match els {
            Some(v) => stmts_ok(v@),
            None => true,
        },
        HStmt::Block(_) => false,
        HStmt::While { .. } => false,
        HStmt::Assign { dst, src } => expr_ok(src) && match dst {
            HExpr::Var(_) => true,
            HExpr::Member { left, .. } => expr_ok(*left),
            _ => false,
        },
        HStmt::Syscall(e) => expr_ok(e),
    }
}

pub open spec fn stmts_ok(ss: Seq<HStmt>) -> bool
    decreases ss, 0nat,
{
    if ss.len() == 0 {
        true
    } else {
        stmts_ok(ss.subrange(0, ss.len() - 1)) && stmt_ok(ss[ss.len() - 1])
    }
}

/// An expression as written, with the statements written before it:
/// `acc` holds those written so far, and a block used as a value adds its
/// statements there, ahead of the statement it stands in.
pub open spec fn tr_expr(e: HExpr, acc: Seq<TsStmtV>) -> (TsExprV, Seq<TsStmtV>)
    decreases e, 1nat,
{
    match e {
        HExpr::Int(i) => (TsExprV::Number(i), acc),
        HExpr::Bool(b) => (TsExprV::Boolean(b), acc),
        HExpr::Str(s) => (TsExprV::Str(s@), acc),
        HExpr::Struct(fs) => {
            let (ps, a) = tr_fields(fs@, acc);
            (TsExprV::Object(ps), a)
        },
        HExpr::Var(v) => (TsExprV::Ident(var_name(v)), acc),
        HExpr::Call { callee, args } => {
            let (xs, a) = tr_exprs(args@, acc);
            (TsExprV::Call { callee: var_name(callee), args: xs }, a)
        },
        HExpr::If { cond, then, els } => {
            let (c, a1) = tr_expr(*cond, acc);
            let (t, a2) = tr_block(then, a1);
            let (f, a3) = tr_block(els, a2);
            (TsExprV::Conditional { test: Box::new(c), consequent: Box::new(t), alternate: Box::new(f) }, a3)
        },
        HExpr::Member { left, member } => {
            let (o, a) = tr_expr(*left, acc);
            (TsExprV::Member { object: Box::new(o), property: member@ }, a)
        },
        HExpr::Block(b) => tr_block(b, acc),
        HExpr::MethodCall { callee, left, args } => {
            let (l, a1) = tr_expr(*left, acc);
            let (xs, a2) = tr_exprs(args@, a1);
            (TsExprV::Call { callee: callee@, args: seq![l] + xs }, a2)
        },
        HExpr::Unary { right, .. } => {
            let (x, a) = tr_expr(*right, acc);
            (TsExprV::Negation(Box::new(x)), a)
        },
        HExpr::Binary { op, left, right } => {
            let (l, a1) = tr_expr(*left, acc);
            let (r, a2) = tr_expr(*right, a1);
            (TsExprV::Binary { op: ts_bin_op(op), left: Box::new(l), right: Box::new(r) }, a2)
        },
    }
}

pub open spec fn tr_exprs(es: Seq<HExpr>, acc: Seq<TsStmtV>) -> (Seq<TsExprV>, Seq<TsStmtV>)
    decreases es, 0nat,
{
    if es.len() == 0 {
        (Seq::empty(), acc)
    } else {
        let (init, a1) = tr_exprs(es.subrange(0, es.len() - 1), acc);
        let (x, a2) = tr_expr(es[es.len() - 1], a1);
        (init.push(x), a2)
    }
}

pub open spec fn tr_fields(fs: Seq<HField>, acc: Seq<TsStmtV>) -> (Seq<TsPropV>, Seq<TsStmtV>)
    decreases fs, 0nat,
{
    if fs.len() == 0 {
        (Seq::empty(), acc)
    } else {
        let f = fs[fs.len() - 1];
        let (init, a1) = tr_fields(fs.subrange(0, fs.len() - 1), acc);
        let (x, a2) = tr_expr(f.value, a1);
        (init.push(TsPropV { key: f.name@, value: x }), a2)
    }
}

/// A block used as a value: its statements are written out into `acc`,
/// and its value is the expression.
pub open spec fn tr_block(b: HBlock, acc: Seq<TsStmtV>) -> (TsExprV, Seq<TsStmtV>)
    decreases b, 1nat,
{
    let (ts, a1) = tr_stmts(b.stmts@, acc);
    tr_expr(*b.expr, a1 + ts)
}

/// A statement as written, with the statements written before it.
pub open spec fn tr_stmt(s: HStmt, acc: Seq<TsStmtV>) -> (TsStmtV, Seq<TsStmtV>)
    decreases s, 1nat,
{
    match s {
        HStmt::VarDecl { var, ty, init } => {
            let (x, a) = tr_expr(init, acc);
            (TsStmtV::Let { name: local_name(var), ty: ts_of_ty(ty), init: x }, a)
        },
        HStmt::Return(e) => {
            let (x, a) = tr_expr(e, acc);
            (TsStmtV::Return(x), a)
        },
        HStmt::Expr(e) => {
            let (x, a) = tr_expr(e, acc);
            (TsStmtV::Expr(x), a)
        },
        HStmt::If { cond, then, els } => {
            let (c, a1) = tr_expr(cond, acc);
            let (t, a2) = tr_stmts(then@, a1);
            match els {
                Some(v) => {
                    let (f, a3) = tr_stmts(v@, a2);
                    (TsStmtV::If { test: c, then: t, els: Some(f) }, a3)
                },
                None => (TsStmtV::If { test: c, then: t, els: None }, a2),
            }
        },
        HStmt::Assign { dst, src } => match dst {
            HExpr::Member { left, member } => {
                let (o, a1) = tr_expr(*left, acc);
                let (x, a2) = tr_expr(src, a1);
                (TsStmtV::Assign { target: TsTargetV::Member { object: o, property: member@ }, value: x }, a2)
            },
            HExpr::Var(v) => {
                let (x, a) = tr_expr(src, acc);
                (TsStmtV::Assign { target: TsTargetV::Ident(var_name(v)), value: x }, a)
            },
            _ => (TsStmtV::Expr(TsExprV::Boolean(false)), acc),
        },
        HStmt::Syscall(e) => {
            let (x, a) = tr_expr(e, acc);
            (TsStmtV::Expr(TsExprV::Yield(Box::new(x))), a)
        },
        _ => (TsStmtV::Expr(TsExprV::Boolean(false)), acc),
    }
}

pub open spec fn tr_stmts(ss: Seq<HStmt>, acc: Seq<TsStmtV>) -> (Seq<TsStmtV>, Seq<TsStmtV>)
    decreases ss, 0nat,
{
    if ss.len() == 0 {
        (Seq::empty(), acc)
    } else {
        let (init, a1) = tr_stmts(ss.subrange(0, ss.len() - 1), acc);
        let (x, a2) = tr_stmt(ss[ss.len() - 1], a1);
        (init.push(x), a2)
    }
}

proof fn lemma_exprs_ok_each(es: Seq<HExpr>)
    requires
        exprs_ok(es),
    ensures
        forall|k: int| 0 <= k < es.len() ==> expr_ok(#[trigger] es[k]),
    decreases es.len(),
{
    if es.len() > 0 {
        let init = es.subrange(0, es.len() - 1);
        lemma_exprs_ok_each(init);
        assert forall|k: int| 0 <= k < es.len() implies expr_ok(#[trigger] es[k]) by {
            if k < es.len() - 1 {
                assert(init[k] == es[k]);
            }
        }
    }
}

proof fn lemma_fields_ok_each(fs: Seq<HField>)
    requires
        fields_ok(fs),
    ensures
        forall|k: int| 0 <= k < fs.len() ==> expr_ok(#[trigger] fs[k].value),
    decreases fs.len(),
{
    if fs.len() > 0 {
        let init = fs.subrange(0, fs.len() - 1);
        lemma_fields_ok_each(init);
        assert forall|k: int| 0 <= k < fs.len() implies expr_ok(#[trigger] fs[k].value) by {
            if k < fs.len() - 1 {
                assert(init[k] == fs[k]);
            }
        }
    }
}

proof fn lemma_stmts_ok_each(ss: Seq<HStmt>)
    requires
        stmts_ok(ss),
    ensures
        forall|k: int| 0 <= k < ss.len() ==> stmt_ok(#[trigger] ss[k]),
    decreases ss.len(),
{
    if ss.len() > 0 {
        let init = ss.subrange(0, ss.len() - 1);
        lemma_stmts_ok_each(init);
        assert forall|k: int| 0 <= k < ss.len() implies stmt_ok(#[trigger] ss[k]) by {
            if k < ss.len() - 1 {
                assert(init[k] == ss[k]);
            }
        }
    }
}

proof fn lemma_stmts_v_push(a: Seq<TsStmt>, x: TsStmt)
    ensures
        stmts_v(a.push(x)) == stmts_v(a).push(stmt_v(x)),
{
    assert(a.push(x).subrange(0, a.len() as int) =~= a);
}

proof fn lemma_stmts_v_concat(a: Seq<TsStmt>, b: Seq<TsStmt>)
    ensures
        stmts_v(a + b) == stmts_v(a) + stmts_v(b),
    decreases b.len(),
{
    if b.len() == 0 {
        assert(a + b =~= a);
        assert(stmts_v(a) + stmts_v(b) =~= stmts_v(a));
    } else {
        let b0 = b.subrange(0, b.len() - 1);
        lemma_stmts_v_concat(a, b0);
        assert((a + b).subrange(0, (a + b).len() - 1) =~= a + b0);
        assert((a + b)[(a + b).len() - 1] == b[b.len() - 1]);
        assert(stmts_v(a) + stmts_v(b) =~= (stmts_v(a) + stmts_v(b0)).push(stmt_v(b[b.len() - 1])));
    }
}

/// Writes an expression; statements it needs written before it go to
/// `acc`.
pub fn expr_as_ts(e: &HExpr, acc: &mut Vec<TsStmt>) -> (r: TsExpr)
    requires
        expr_ok(*e),
    ensures
        (r@, stmts_v(final(acc)@)) == tr_expr(*e, stmts_v(old(acc)@)),
    decreases e, 1nat,
{
    match e {
        HExpr::Int(i) => TsExpr::Number(*i),
        HExpr::Bool(b) => TsExpr::Boolean(*b),
        HExpr::Str(s) => TsExpr::Str(string_of_str(s.as_str())),
        HExpr::Struct(fs) => {
            let ps = fields_as_ts(fs, acc);
            TsExpr::Object(ps)
        },
        HExpr::Var(v) => TsExpr::Ident(var_as_ts(v)),
        HExpr::Call { callee, args } => {
            let name = var_as_ts(callee);
            let xs = exprs_as_ts(args, acc);
            TsExpr::Call { callee: name, args: xs }
        },
        HExpr::If { cond, then, els } => {
            let c = expr_as_ts(cond, acc);
            let t = block_as_ts(then, acc);
            let f = block_as_ts(els, acc);
            TsExpr::Conditional { test: Box::new(c), consequent: Box::new(t), alternate: Box::new(f) }
        },
        HExpr::Member { left, member } => {
            let o = expr_as_ts(left, acc);
            TsExpr::Member { object: Box::new(o), property: string_of_str(member.as_str()) }
        },
        HExpr::Block(b) => block_as_ts(b, acc),
        HExpr::MethodCall { callee, left, args } => {
            let l = expr_as_ts(left, acc);
            let xs = exprs_as_ts(args, acc);
            let ghost lv = l;
            let mut all: Vec<TsExpr> = Vec::new();
            all.push(l);
            let mut xs = xs;
            let ghost xv = xs@;
            assert(all@ =~= seq![lv]);
            all.append(&mut xs);
            proof {
                lemma_exprs_v_concat(seq![lv], xv);
                assert(seq![lv].subrange(0, 0) =~= Seq::<TsExpr>::empty());
                assert(exprs_v(Seq::<TsExpr>::empty()) =~= Seq::<TsExprV>::empty());
                assert(exprs_v(seq![lv]) =~= seq![expr_v(lv)]);
            }
            TsExpr::Call { callee: string_of_str(callee.as_str()), args: all }
        },
        HExpr::Unary { right, .. } => {
            let x = expr_as_ts(right, acc);
            TsExpr::Negation(Box::new(x))
        },
        HExpr::Binary { op, left, right } => {
            let l = expr_as_ts(left, acc);
            let r = expr_as_ts(right, acc);
            TsExpr::Binary { op: bin_op_as_ts(op), left: Box::new(l), right: Box::new(r) }
        },
    }
}

proof fn lemma_exprs_v_concat(a: Seq<TsExpr>, b: Seq<TsExpr>)
    ensures
        exprs_v(a + b) == exprs_v(a) + exprs_v(b),
    decreases b.len(),
{
    if b.len() == 0 {
        assert(a + b =~= a);
        assert(exprs_v(a) + exprs_v(b) =~= exprs_v(a));
    } else {
        let b0 = b.subrange(0, b.len() - 1);
        lemma_exprs_v_concat(a, b0);
        assert((a + b).subrange(0, (a + b).len() - 1) =~= a + b0);
        assert((a + b)[(a + b).len() - 1] == b[b.len() - 1]);
        assert(exprs_v(a) + exprs_v(b) =~= (exprs_v(a) + exprs_v(b0)).push(expr_v(b[b.len() - 1])));
    }
}

/// The name a variable is written under.
pub fn var_as_ts(v: &HVar) -> (r: String)
    ensures
        r@ == var_name(*v),
{
    match v {
        HVar::Global(s) => string_of_str(s.as_str()),
        HVar::Local(n) => local_var_name(*n),
    }
}

/// The TypeScript operator of a binary operator.
pub fn bin_op_as_ts(op: &BinOperator) -> (r: TsBinOp)
    ensures
        r == ts_bin_op(*op),
{
    match op {
        BinOperator::Add => TsBinOp::Addition,
        BinOperator::Sub => TsBinOp::Subtraction,
        BinOperator::Mul => TsBinOp::Multiplication,
        BinOperator::Div => TsBinOp::Division,
        BinOperator::Mod => TsBinOp::Remainder,
        BinOperator::Gt => TsBinOp::GreaterThan,
        BinOperator::Lt => TsBinOp::LessThan,
        BinOperator::Ge => TsBinOp::GreaterEqualThan,
        BinOperator::Le => TsBinOp::LessEqualThan,
        BinOperator::Eq => TsBinOp::StrictEquality,
        BinOperator::Ne => TsBinOp::StrictInequality,
    }
}

fn exprs_as_ts(es: &Vec<HExpr>, acc: &mut Vec<TsStmt>) -> (r: Vec<TsExpr>)
    requires
        exprs_ok(es@),
    ensures
        (exprs_v(r@), stmts_v(final(acc)@)) == tr_exprs(es@, stmts_v(old(acc)@)),
    decreases es, 0nat,
{
    let ghost v = es@;
    let ghost a0 = stmts_v(acc@);
    let mut out: Vec<TsExpr> = Vec::new();
    let mut i: usize = 0;
    assert(v.take(0) =~= Seq::<HExpr>::empty());
    assert(exprs_v(out@) =~= Seq::<TsExprV>::empty());
    proof {
        lemma_exprs_ok_each(v);
    }
    while i < es.len()
        invariant
            i <= v.len(),
            v == es@,
            forall|k: int| 0 <= k < v.len() ==> expr_ok(#[trigger] v[k]),
            (exprs_v(out@), stmts_v(acc@)) == tr_exprs(v.take(i as int), a0),
        decreases v.len() - i,
    {
        proof {
            assert(decreases_to!(*es => es@));
            assert(decreases_to!(es@ => es@[i as int]));
            let tk = v.take(i + 1);
            assert(tk.subrange(0, tk.len() - 1) =~= v.take(i as int));
            assert(tk[tk.len() - 1] == v[i as int]);
        }
        let ghost before = out@;
        let x = expr_as_ts(&es[i], acc);
        out.push(x);
        proof {
            assert(out@.subrange(0, out@.len() - 1) =~= before);
        }
        i = i + 1;
    }
    assert(v.take(v.len() as int) =~= v);
    out
}

fn fields_as_ts(fs: &Vec<HField>, acc: &mut Vec<TsStmt>) -> (r: Vec<TsProp>)
    requires
        fields_ok(fs@),
    ensures
        (props_v(r@), stmts_v(final(acc)@)) == tr_fields(fs@, stmts_v(old(acc)@)),
    decreases fs, 0nat,
{
    let ghost v = fs@;
    let ghost a0 = stmts_v(acc@);
    let mut out: Vec<TsProp> = Vec::new();
    let mut i: usize = 0;
    assert(v.take(0) =~= Seq::<HField>::empty());
    assert(props_v(out@) =~= Seq::<TsPropV>::empty());
    proof {
        lemma_fields_ok_each(v);
    }
    while i < fs.len()
        invariant
            i <= v.len(),
            v == fs@,
            forall|k: int| 0 <= k < v.len() ==> expr_ok(#[trigger] v[k].value),
            (props_v(out@), stmts_v(acc@)) == tr_fields(v.take(i as int), a0),
        decreases v.len() - i,
    {
        proof {
            assert(decreases_to!(*fs => fs@));
            assert(decreases_to!(fs@ => fs@[i as int]));
            assert(decreases_to!(fs@[i as int] => fs@[i as int].value));
            let tk = v.take(i + 1);
            assert(tk.subrange(0, tk.len() - 1) =~= v.take(i as int));
            assert(tk[tk.len() - 1] == v[i as int]);
        }
        let ghost before = out@;
        let f = &fs[i];
        let x = expr_as_ts(&f.value, acc);
        out.push(TsProp { key: string_of_str(f.name.as_str()), value: x });
        proof {
            assert(out@.subrange(0, out@.len() - 1) =~= before);
        }
        i = i + 1;
    }
    assert(v.take(v.len() as int) =~= v);
    out
}

/// A block used as a value: its statements go to `acc`.
fn block_as_ts(b: &HBlock, acc: &mut Vec<TsStmt>) -> (r: TsExpr)
    requires
        block_ok(*b),
    ensures
        (r@, stmts_v(final(acc)@)) == tr_block(*b, stmts_v(old(acc)@)),
    decreases b, 1nat,
{
    let ts = stmts_as_ts(&b.stmts, acc);
    let mut ts = ts;
    let ghost av = acc@;
    let ghost tv = ts@;
    acc.append(&mut ts);
    proof {
        lemma_stmts_v_concat(av, tv);
    }
    expr_as_ts(&b.expr, acc)
}

/// Writes a statement; statements it needs written before it go to `acc`.
pub fn stmt_as_ts(s: &HStmt, acc: &mut Vec<TsStmt>) -> (r: TsStmt)
    requires
        stmt_ok(*s),
    ensures
        (r@, stmts_v(final(acc)@)) == tr_stmt(*s, stmts_v(old(acc)@)),
    decreases s, 1nat,
{
    match s {
        HStmt::VarDecl { var, ty, init } => {
            let name = local_var_name(*var);
            let t = ty_as_ts(ty);
            let x = expr_as_ts(init, acc);
            TsStmt::Let { name, ty: t, init: x }
        },
        HStmt::Return(e) => {
            let x = expr_as_ts(e, acc);
            TsStmt::Return(x)
        },
        HStmt::Expr(e) => {
            let x = expr_as_ts(e, acc);
            TsStmt::Expr(x)
        },
        HStmt::If { cond, then, els } => {
            let c = expr_as_ts(cond, acc);
            let t = stmts_as_ts(then, acc);
            match els {
                Some(v) => {
                    let f = stmts_as_ts(v, acc);
                    TsStmt::If { test: c, then: t, els: Some(f) }
                },
                None => TsStmt::If { test: c, then: t, els: None },
            }
        },
        HStmt::Assign { dst, src } => match dst {
            HExpr::Member { left, member } => {
                let o = expr_as_ts(left, acc);
                let x = expr_as_ts(src, acc);
                TsStmt::Assign { target: TsTarget::Member { object: o, property: string_of_str(member.as_str()) }, value: x }
            },
            HExpr::Var(v) => {
                let name = var_as_ts(v);
                let x = expr_as_ts(src, acc);
                TsStmt::Assign { target: TsTarget::Ident(name), value: x }
            },
            _ => {
                assert(false);
                TsStmt::Expr(TsExpr::Boolean(false))
            },
        },
        HStmt::Syscall(e) => {
            let x = expr_as_ts(e, acc);
            TsStmt::Expr(TsExpr::Yield(Box::new(x)))
        },
        HStmt::Block(_) | HStmt::While { .. } => {
            assert(false);
            TsStmt::Expr(TsExpr::Boolean(false))
        },
    }
}

fn stmts_as_ts(ss: &Vec<HStmt>, acc: &mut Vec<TsStmt>) -> (r: Vec<TsStmt>)
    requires
        stmts_ok(ss@),
    ensures
        (stmts_v(r@), stmts_v(final(acc)@)) == tr_stmts(ss@, stmts_v(old(acc)@)),
    decreases ss, 0nat,
{
    let ghost v = ss@;
    let ghost a0 = stmts_v(acc@);
    let mut out: Vec<TsStmt> = Vec::new();
    let mut i: usize = 0;
    assert(v.take(0) =~= Seq::<HStmt>::empty());
    assert(stmts_v(out@) =~= Seq::<TsStmtV>::empty());
    proof {
        lemma_stmts_ok_each(v);
    }
    while i < ss.len()
        invariant
            i <= v.len(),
            v == ss@,
            forall|k: int| 0 <= k < v.len() ==> stmt_ok(#[trigger] v[k]),
            (stmts_v(out@), stmts_v(acc@)) == tr_stmts(v.take(i as int), a0),
        decreases v.len() - i,
    {
        proof {
            assert(decreases_to!(*ss => ss@));
            assert(decreases_to!(ss@ => ss@[i as int]));
            let tk = v.take(i + 1);
            assert(tk.subrange(0, tk.len() - 1) =~= v.take(i as int));
            assert(tk[tk.len() - 1] == v[i as int]);
        }
        let ghost before = out@;
        let x = stmt_as_ts(&ss[i], acc);
        out.push(x);
        proof {
            lemma_stmts_v_push(before, x);
        }
        i = i + 1;
    }
    assert(v.take(v.len() as int) =~= v);
    out
}

// --- the package's items ---

/// An argument of a function, by its local variable.
#[derive(Debug)]
pub struct HArg {
    pub var: u64,
    pub ty: HTy,
}

/// A function written in biwa: its receiver's type for a method (with the
/// number of the variable that holds it), arguments, generic parameters
/// (the impl's, then its own), return type, and body.
#[derive(Debug)]
pub struct HFnDef {
    pub self_ty: Option<HTy>,
    pub self_var: u64,
    pub args: Vec<HArg>,
    pub impl_genargs: Vec<u64>,
    pub genargs: Vec<u64>,
    pub rty: HTy,
    pub stmts: Vec<HStmt>,
    pub expr: Option<HExpr>,
}

/// An argument of a native function, by the name it is written under.
#[derive(Debug)]
pub struct HNativeArg {
    pub name: String,
    pub ty: HTy,
}

/// A function whose body is TypeScript source.
#[derive(Debug)]
pub struct HNativeFnDef {
    pub self_ty: Option<HTy>,
    pub args: Vec<HNativeArg>,
    pub impl_genargs: Vec<u64>,
    pub genargs: Vec<u64>,
    pub rty: HTy,
    pub native_body: String,
}

/// A scene: a function of statements only, without generic parameters.
#[derive(Debug)]
pub struct HSceneDef {
    pub args: Vec<HArg>,
    pub rty: HTy,
    pub stmts: Vec<HStmt>,
}

#[derive(Debug)]
pub struct HMember {
    pub name: String,
    pub ty: HTy,
}

#[derive(Debug)]
pub struct HStructDef {
    pub genargs: Vec<u64>,
    pub members: Vec<HMember>,
}

/// A type written in TypeScript: its generic parameters by name, and the
/// type itself as source.
#[derive(Debug)]
pub struct HAliasDef {
    pub genargs: Vec<String>,
    pub native: String,
}

#[derive(Debug)]
pub enum HTyDef {
    /// A struct, and whether this package defines it.
    Struct { is_self: bool, def: HStructDef },
    NativeAlias(HAliasDef),
    /// A type with nothing to write.
    Opaque,
}

/// A type of the package, by its mangled name.
#[derive(Debug)]
pub struct HTyEntry {
    pub name: String,
    pub def: HTyDef,
}

#[derive(Debug)]
pub enum HAssocDef {
    Fn(HFnDef),
    Native(HNativeFnDef),
}

/// A method of a type, by its mangled name.
#[derive(Debug)]
pub struct HAssocEntry {
    pub name: String,
    pub def: HAssocDef,
}

#[derive(Debug)]
pub enum HValDef {
    Fn(HFnDef),
    Native(HNativeFnDef),
    Scene(HSceneDef),
    /// A function of another package: nothing is written.
    External,
}

/// A value of the package, by its mangled name.
#[derive(Debug)]
pub struct HValEntry {
    pub name: String,
    pub def: HValDef,
}

/// A symbol of another package, by mangled name, and that package's name.
#[derive(Debug)]
pub struct HImport {
    pub name: String,
    pub package: String,
}

/// What the TypeScript module of a package is made from, each list in the
/// order the analysis keeps it.
#[derive(Debug)]
pub struct TsProgramInput {
    /// Native TypeScript written at module level.
    pub natives: Vec<String>,
    /// The types and the values of other packages used.
    pub ty_imports: Vec<HImport>,
    pub val_imports: Vec<HImport>,
    pub tys: Vec<HTyEntry>,
    pub assoc: Vec<HAssocEntry>,
    pub vals: Vec<HValEntry>,
}

#[derive(Debug, PartialEq, Eq)]
pub struct TsParam {
    pub name: String,
    pub ty: TsType,
}

#[derive(Debug, PartialEq, Eq)]
pub enum TsItem {
    /// Native TypeScript, to be read and put in as it is.
    Native(String),
    /// `import { name } from source`, of a type only or of a value.
    Import { name: String, source: String, type_only: bool },
    /// `type name<params> = { members }`.
    TypeAlias { name: String, params: Vec<String>, members: Vec<TsParam> },
    /// `type name<params> = T`, where `T` is the type of the alias in
    /// `source`.
    NativeTypeAlias { name: String, params: Vec<String>, source: String },
    Function { name: String, type_params: Vec<String>, params: Vec<TsParam>, ret: TsType, body: Vec<TsStmt> },
    /// A function whose body is the TypeScript `body_source`.
    NativeFunction { name: String, type_params: Vec<String>, params: Vec<TsParam>, ret: TsType, body_source: String },
}

/// A TypeScript module: its items in order.
#[derive(Debug, PartialEq, Eq)]
pub struct TsModule {
    pub items: Vec<TsItem>,
}

pub ghost struct TsParamV {
    pub name: Seq<char>,
    pub ty: TsTypeV,
}

pub ghost enum TsItemV {
    Native(Seq<char>),
    Import { name: Seq<char>, source: Seq<char>, type_only: bool },
    TypeAlias { name: Seq<char>, params: Seq<Seq<char>>, members: Seq<TsParamV> },
    NativeTypeAlias { name: Seq<char>, params: Seq<Seq<char>>, source: Seq<char> },
    Function { name: Seq<char>, type_params: Seq<Seq<char>>, params: Seq<TsParamV>, ret: TsTypeV, body: Seq<TsStmtV> },
    NativeFunction { name: Seq<char>, type_params: Seq<Seq<char>>, params: Seq<TsParamV>, ret: TsTypeV, body_source: Seq<char> },
}

pub open spec fn strs_v(v: Seq<String>) -> Seq<Seq<char>> {
    Seq::new(v.len(), |i: int| v[i]@)
}

pub open spec fn params_v(v: Seq<TsParam>) -> Seq<TsParamV> {
    Seq::new(v.len(), |i: int| TsParamV { name: v[i].name@, ty: v[i].ty@ })
}

pub open spec fn item_v(it: TsItem) -> TsItemV {
    match it {
        TsItem::Native(s) => TsItemV::Native(s@),
        TsItem::Import { name, source, type_only } => TsItemV::Import { name: name@, source: source@, type_only },
        TsItem::TypeAlias { name, params, members } => TsItemV::TypeAlias {
            name: name@,
            params: strs_v(params@),
            members: params_v(members@),
        },
        TsItem::NativeTypeAlias { name, params, source } => TsItemV::NativeTypeAlias {
            name: name@,
            params: strs_v(params@),
            source: source@,
        },
        TsItem::Function { name, type_params, params, ret, body } => TsItemV::Function {
            name: name@,
            type_params: strs_v(type_params@),
            params: params_v(params@),
            ret: ret@,
            body: stmts_v(body@),
        },
        TsItem::NativeFunction { name, type_params, params, ret, body_source } => TsItemV::NativeFunction {
            name: name@,
            type_params: strs_v(type_params@),
            params: params_v(params@),
            ret: ret@,
            body_source: body_source@,
        },
    }
}

impl View for TsItem {
    type V = TsItemV;

    open spec fn view(&self) -> TsItemV {
        item_v(*self)
    }
}

impl View for TsModule {
    type V = Seq<TsItemV>;

    open spec fn view(&self) -> Seq<TsItemV> {
        Seq::new(self.items@.len(), |i: int| self.items@[i]@)
    }
}

// --- what each item is written as ---

pub open spec fn gen_names(ids: Seq<u64>) -> Seq<Seq<char>> {
    Seq::new(ids.len(), |i: int| gen_name(ids[i]))
}

/// The statements of a function body: each statement after those it
/// needs written before it, then `return` of the value, if any.
pub open spec fn tr_body_stmts(ss: Seq<HStmt>, acc: Seq<TsStmtV>) -> Seq<TsStmtV>
    decreases ss.len(),
{
    if ss.len() == 0 {
        acc
    } else {
        let a1 = tr_body_stmts(ss.subrange(0, ss.len() - 1), acc);
        let (t, a2) = tr_stmt(ss[ss.len() - 1], a1);
        a2.push(t)
    }
}

pub open spec fn tr_body(ss: Seq<HStmt>, e: Option<HExpr>) -> Seq<TsStmtV> {
    let a = tr_body_stmts(ss, Seq::empty());
    match e {
        Some(x) => {
            let (v, a2) = tr_expr(x, a);
            a2.push(TsStmtV::Return(v))
        },
        None => a,
    }
}

pub open spec fn arg_params(args: Seq<HArg>) -> Seq<TsParamV> {
    Seq::new(args.len(), |i: int| TsParamV { name: local_name(args[i].var), ty: ts_of_ty(args[i].ty) })
}

pub open spec fn native_params(args: Seq<HNativeArg>) -> Seq<TsParamV> {
    Seq::new(args.len(), |i: int| TsParamV { name: args[i].name@, ty: ts_of_ty(args[i].ty) })
}

pub open spec fn fn_def_ok(f: HFnDef) -> bool {
    &&& match f.self_ty {
        Some(t) => ty_ok(t),
        None => true,
    }
    &&& forall|i: int| 0 <= i < f.args@.len() ==> ty_ok(#[trigger] f.args@[i].ty)
    &&& ty_ok(f.rty)
    &&& stmts_ok(f.stmts@)
    &&& match f.expr {
        Some(e) => expr_ok(e),
        None => true,
    }
}

/// A function: the receiver, when there is one, as the first parameter.
pub open spec fn fn_item(name: Seq<char>, f: HFnDef) -> TsItemV {
    TsItemV::Function {
        name,
        type_params: gen_names(f.impl_genargs@) + gen_names(f.genargs@),
        params: match f.self_ty {
            Some(t) => seq![TsParamV { name: local_name(f.self_var), ty: ts_of_ty(t) }],
            None => Seq::empty(),
        } + arg_params(f.args@),
        ret: ts_of_ty(f.rty),
        body: tr_body(f.stmts@, f.expr),
    }
}

pub open spec fn native_fn_ok(f: HNativeFnDef) -> bool {
    &&& match f.self_ty {
        Some(t) => ty_ok(t),
        None => true,
    }
    &&& forall|i: int| 0 <= i < f.args@.len() ==> ty_ok(#[trigger] f.args@[i].ty)
    &&& ty_ok(f.rty)
}

/// A native function: the receiver is named `self`, the arguments by the
/// names the native body uses.
pub open spec fn native_fn_item(name: Seq<char>, f: HNativeFnDef) -> TsItemV {
    TsItemV::NativeFunction {
        name,
        type_params: gen_names(f.impl_genargs@) + gen_names(f.genargs@),
        params: match f.self_ty {
            Some(t) => seq![TsParamV { name: seq!['s', 'e', 'l', 'f'], ty: ts_of_ty(t) }],
            None => Seq::empty(),
        } + native_params(f.args@),
        ret: ts_of_ty(f.rty),
        body_source: f.native_body@,
    }
}

pub open spec fn scene_ok(f: HSceneDef) -> bool {
    &&& forall|i: int| 0 <= i < f.args@.len() ==> ty_ok(#[trigger] f.args@[i].ty)
    &&& ty_ok(f.rty)
    &&& stmts_ok(f.stmts@)
}

pub open spec fn scene_item(name: Seq<char>, f: HSceneDef) -> TsItemV {
    TsItemV::Function {
        name,
        type_params: Seq::empty(),
        params: arg_params(f.args@),
        ret: ts_of_ty(f.rty),
        body: tr_body(f.stmts@, None),
    }
}

pub open spec fn struct_ok(d: HStructDef) -> bool {
    forall|i: int| 0 <= i < d.members@.len() ==> ty_ok(#[trigger] d.members@[i].ty)
}

/// A struct: a type alias of an object type.
pub open spec fn struct_item(name: Seq<char>, d: HStructDef) -> TsItemV {
    TsItemV::TypeAlias {
        name,
        params: gen_names(d.genargs@),
        members: Seq::new(d.members@.len(), |i: int| TsParamV { name: d.members@[i].name@, ty: ts_of_ty(d.members@[i].ty) }),
    }
}

/// A native type alias: its type is read from `type X = <native>;`.
pub open spec fn alias_item(name: Seq<char>, d: HAliasDef) -> TsItemV {
    TsItemV::NativeTypeAlias {
        name,
        params: strs_v(d.genargs@),
        source: seq!['t', 'y', 'p', 'e', ' ', 'X', ' ', '='] + seq![' '] + d.native@ + seq![';'],
    }
}

/// The import of a symbol of package `p`: from `./p.ts`.
pub open spec fn import_item(i: HImport, type_only: bool) -> TsItemV {
    TsItemV::Import {
        name: i.name@,
        source: seq!['.', '/'] + i.package@ + seq!['.', 't', 's'],
        type_only,
    }
}

/// The types written: the structs of this package and the native type
/// aliases, in order.
pub open spec fn ty_items(ts: Seq<HTyEntry>) -> Seq<TsItemV>
    decreases ts.len(),
{
    if ts.len() == 0 {
        Seq::empty()
    } else {
        let r = ty_items(ts.subrange(0, ts.len() - 1));
        let e = ts[ts.len() - 1];
        match e.def {
            HTyDef::Struct { is_self, def } => if is_self {
                r.push(struct_item(e.name@, def))
            } else {
                r
            },
            HTyDef::NativeAlias(d) => r.push(alias_item(e.name@, d)),
            HTyDef::Opaque => r,
        }
    }
}

pub open spec fn assoc_item(e: HAssocEntry) -> TsItemV {
    match e.def {
        HAssocDef::Fn(f) => fn_item(e.name@, f),
        HAssocDef::Native(f) => native_fn_item(e.name@, f),
    }
}

/// The values written: all but those of other packages, in order.
pub open spec fn val_items(vs: Seq<HValEntry>) -> Seq<TsItemV>
    decreases vs.len(),
{
    if vs.len() == 0 {
        Seq::empty()
    } else {
        let r = val_items(vs.subrange(0, vs.len() - 1));
        let e = vs[vs.len() - 1];
        match e.def {
            HValDef::Fn(f) => r.push(fn_item(e.name@, f)),
            HValDef::Native(f) => r.push(native_fn_item(e.name@, f)),
            HValDef::Scene(f) => r.push(scene_item(e.name@, f)),
            HValDef::External => r,
        }
    }
}

/// The module: the module-level native code first, then the imports of
/// types and of values, the types, the methods, and the values.
pub open spec fn program_items(p: TsProgramInput) -> Seq<TsItemV> {
    Seq::new(p.natives@.len(), |i: int| TsItemV::Native(p.natives@[i]@))
        + Seq::new(p.ty_imports@.len(), |i: int| import_item(p.ty_imports@[i], true))
        + Seq::new(p.val_imports@.len(), |i: int| import_item(p.val_imports@[i], false))
        + ty_items(p.tys@)
        + Seq::new(p.assoc@.len(), |i: int| assoc_item(p.assoc@[i]))
        + val_items(p.vals@)
}

pub open spec fn ty_entry_ok(e: HTyEntry) -> bool {
    match e.def {
        HTyDef::Struct { is_self, def } => is_self ==> struct_ok(def),
        _ => true,
    }
}

pub open spec fn assoc_ok(e: HAssocEntry) -> bool {
    match e.def {
        HAssocDef::Fn(f) => fn_def_ok(f),
        HAssocDef::Native(f) => native_fn_ok(f),
    }
}

pub open spec fn val_ok(e: HValEntry) -> bool {
    match e.def {
        HValDef::Fn(f) => fn_def_ok(f),
        HValDef::Native(f) => native_fn_ok(f),
        HValDef::Scene(f) => scene_ok(f),
        HValDef::External => true,
    }
}

/// Whether every item can be written.
pub open spec fn program_ok(p: TsProgramInput) -> bool {
    &&& forall|i: int| 0 <= i < p.tys@.len() ==> ty_entry_ok(#[trigger] p.tys@[i])
    &&& forall|i: int| 0 <= i < p.assoc@.len() ==> assoc_ok(#[trigger] p.assoc@[i])
    &&& forall|i: int| 0 <= i < p.vals@.len() ==> val_ok(#[trigger] p.vals@[i])
}

pub open spec fn items_v(v: Seq<TsItem>) -> Seq<TsItemV> {
    Seq::new(v.len(), |i: int| v[i]@)
}

fn push_gen_names(ids: &Vec<u64>, out: &mut Vec<String>)
    ensures
        strs_v(final(out)@) == strs_v(old(out)@) + gen_names(ids@),
{
    let ghost o0 = strs_v(out@);
    let mut i: usize = 0;
    while i < ids.len()
        invariant
            i <= ids@.len(),
            strs_v(out@) == o0 + gen_names(ids@.take(i as int)),
        decreases ids@.len() - i,
    {
        let n = gen_param_name(ids[i]);
        let ghost before = out@;
        out.push(n);
        proof {
            let g0 = gen_names(ids@.take(i as int));
            assert(strs_v(out@) =~= strs_v(before).push(n@));
            assert(gen_names(ids@.take(i + 1)) =~= g0.push(gen_name(ids@[i as int])));
            assert((o0 + g0).push(n@) =~= o0 + g0.push(n@));
        }
        i = i + 1;
    }
    assert(ids@.take(ids@.len() as int) =~= ids@);
}

fn push_arg_params(args: &Vec<HArg>, out: &mut Vec<TsParam>)
    requires
        forall|i: int| 0 <= i < args@.len() ==> ty_ok(#[trigger] args@[i].ty),
    ensures
        params_v(final(out)@) == params_v(old(out)@) + arg_params(args@),
{
    let ghost o0 = params_v(out@);
    let mut i: usize = 0;
    while i < args.len()
        invariant
            i <= args@.len(),
            forall|i: int| 0 <= i < args@.len() ==> ty_ok(#[trigger] args@[i].ty),
            params_v(out@) == o0 + arg_params(args@.take(i as int)),
        decreases args@.len() - i,
    {
        let a = &args[i];
        let p = TsParam { name: local_var_name(a.var), ty: ty_as_ts(&a.ty) };
        let ghost before = out@;
        let ghost pv = TsParamV { name: p.name@, ty: p.ty@ };
        out.push(p);
        proof {
            let g0 = arg_params(args@.take(i as int));
            assert(params_v(out@) =~= params_v(before).push(pv));
            assert(arg_params(args@.take(i + 1)) =~= g0.push(pv));
            assert((o0 + g0).push(pv) =~= o0 + g0.push(pv));
        }
        i = i + 1;
    }
    assert(args@.take(args@.len() as int) =~= args@);
}

fn push_native_params(args: &Vec<HNativeArg>, out: &mut Vec<TsParam>)
    requires
        forall|i: int| 0 <= i < args@.len() ==> ty_ok(#[trigger] args@[i].ty),
    ensures
        params_v(final(out)@) == params_v(old(out)@) + native_params(args@),
{
    let ghost o0 = params_v(out@);
    let mut i: usize = 0;
    while i < args.len()
        invariant
            i <= args@.len(),
            forall|i: int| 0 <= i < args@.len() ==> ty_ok(#[trigger] args@[i].ty),
            params_v(out@) == o0 + native_params(args@.take(i as int)),
        decreases args@.len() - i,
    {
        let a = &args[i];
        let p = TsParam { name: string_of_str(a.name.as_str()), ty: ty_as_ts(&a.ty) };
        let ghost before = out@;
        let ghost pv = TsParamV { name: p.name@, ty: p.ty@ };
        out.push(p);
        proof {
            let g0 = native_params(args@.take(i as int));
            assert(params_v(out@) =~= params_v(before).push(pv));
            assert(native_params(args@.take(i + 1)) =~= g0.push(pv));
            assert((o0 + g0).push(pv) =~= o0 + g0.push(pv));
        }
        i = i + 1;
    }
    assert(args@.take(args@.len() as int) =~= args@);
}

/// The statements of a function body.
fn body_as_ts(ss: &Vec<HStmt>, e: &Option<HExpr>) -> (r: Vec<TsStmt>)
    requires
        stmts_ok(ss@),
        *e matches Some(x) ==> expr_ok(x),
    ensures
        stmts_v(r@) == tr_body(ss@, *e),
{
    let ghost v = ss@;
    let mut acc: Vec<TsStmt> = Vec::new();
    let mut i: usize = 0;
    assert(stmts_v(acc@) =~= Seq::<TsStmtV>::empty());
    assert(v.take(0) =~= Seq::<HStmt>::empty());
    proof {
        lemma_stmts_ok_each(v);
    }
    while i < ss.len()
        invariant
            i <= v.len(),
            v == ss@,
            forall|k: int| 0 <= k < v.len() ==> stmt_ok(#[trigger] v[k]),
            stmts_v(acc@) == tr_body_stmts(v.take(i as int), Seq::empty()),
        decreases v.len() - i,
    {
        proof {
            let tk = v.take(i + 1);
            assert(tk.subrange(0, tk.len() - 1) =~= v.take(i as int));
            assert(tk[tk.len() - 1] == v[i as int]);
        }
        let t = stmt_as_ts(&ss[i], &mut acc);
        let ghost before = acc@;
        acc.push(t);
        proof {
            lemma_stmts_v_push(before, t);
        }
        i = i + 1;
    }
    assert(v.take(v.len() as int) =~= v);
    match e {
        Some(x) => {
            let r = expr_as_ts(x, &mut acc);
            let ghost before = acc@;
            let ret = TsStmt::Return(r);
            acc.push(ret);
            proof {
                lemma_stmts_v_push(before, ret);
            }
        },
        None => {},
    }
    acc
}

/// Writes a function, under the name `name`.
pub fn fn_as_ts(name: &String, f: &HFnDef) -> (r: TsItem)
    requires
        fn_def_ok(*f),
    ensures
        r@ == fn_item(name@, *f),
{
    let mut tps: Vec<String> = Vec::new();
    assert(strs_v(tps@) =~= Seq::<Seq<char>>::empty());
    push_gen_names(&f.impl_genargs, &mut tps);
    push_gen_names(&f.genargs, &mut tps);
    let mut params: Vec<TsParam> = Vec::new();
    match &f.self_ty {
        Some(t) => {
            params.push(TsParam { name: local_var_name(f.self_var), ty: ty_as_ts(t) });
            assert(params_v(params@) =~= seq![TsParamV { name: local_name(f.self_var), ty: ts_of_ty(*t) }]);
        },
        None => {
            assert(params_v(params@) =~= Seq::<TsParamV>::empty());
        },
    }
    push_arg_params(&f.args, &mut params);
    let body = body_as_ts(&f.stmts, &f.expr);
    let r = TsItem::Function { name: string_of_str(name.as_str()), type_params: tps, params, ret: ty_as_ts(&f.rty), body };
    assert(strs_v(Seq::<String>::empty()) + gen_names(f.impl_genargs@) + gen_names(f.genargs@) =~= gen_names(f.impl_genargs@) + gen_names(f.genargs@));
    r
}

/// Writes a native function, under the name `name`.
pub fn native_fn_as_ts(name: &String, f: &HNativeFnDef) -> (r: TsItem)
    requires
        native_fn_ok(*f),
    ensures
        r@ == native_fn_item(name@, *f),
{
    let mut tps: Vec<String> = Vec::new();
    assert(strs_v(tps@) =~= Seq::<Seq<char>>::empty());
    push_gen_names(&f.impl_genargs, &mut tps);
    push_gen_names(&f.genargs, &mut tps);
    let mut params: Vec<TsParam> = Vec::new();
    proof {
        reveal_strlit("self");
    }
    match &f.self_ty {
        Some(t) => {
            let nm = string_of_str("self");
            proof {
                reveal_strlit("self");
                assert("self"@ =~= seq!['s', 'e', 'l', 'f']);
            }
            params.push(TsParam { name: nm, ty: ty_as_ts(t) });
            assert(params_v(params@) =~= seq![TsParamV { name: seq!['s', 'e', 'l', 'f'], ty: ts_of_ty(*t) }]);
        },
        None => {
            assert(params_v(params@) =~= Seq::<TsParamV>::empty());
        },
    }
    push_native_params(&f.args, &mut params);
    let r = TsItem::NativeFunction {
        name: string_of_str(name.as_str()),
        type_params: tps,
        params,
        ret: ty_as_ts(&f.rty),
        body_source: string_of_str(f.native_body.as_str()),
    };
    assert(strs_v(Seq::<String>::empty()) + gen_names(f.impl_genargs@) + gen_names(f.genargs@) =~= gen_names(f.impl_genargs@) + gen_names(f.genargs@));
    r
}

/// Writes a scene, under the name `name`.
pub fn scene_as_ts(name: &String, f: &HSceneDef) -> (r: TsItem)
    requires
        scene_ok(*f),
    ensures
        r@ == scene_item(name@, *f),
{
    let mut params: Vec<TsParam> = Vec::new();
    assert(params_v(params@) =~= Seq::<TsParamV>::empty());
    push_arg_params(&f.args, &mut params);
    let body = body_as_ts(&f.stmts, &None);
    let tps: Vec<String> = Vec::new();
    assert(strs_v(tps@) =~= Seq::<Seq<char>>::empty());
    assert(Seq::<TsParamV>::empty() + arg_params(f.args@) =~= arg_params(f.args@));
    TsItem::Function { name: string_of_str(name.as_str()), type_params: tps, params, ret: ty_as_ts(&f.rty), body }
}

/// Writes a struct of this package, under the name `name`.
pub fn struct_as_ts(name: &String, d: &HStructDef) -> (r: TsItem)
    requires
        struct_ok(*d),
    ensures
        r@ == struct_item(name@, *d),
{
    let mut tps: Vec<String> = Vec::new();
    assert(strs_v(tps@) =~= Seq::<Seq<char>>::empty());
    push_gen_names(&d.genargs, &mut tps);
    let mut members: Vec<TsParam> = Vec::new();
    let mut i: usize = 0;
    while i < d.members.len()
        invariant
            i <= d.members@.len(),
            struct_ok(*d),
            members@.len() == i,
            forall|k: int| 0 <= k < i ==> (#[trigger] members@[k]).name@ == d.members@[k].name@
                && members@[k].ty@ == ts_of_ty(d.members@[k].ty),
        decreases d.members@.len() - i,
    {
        let m = &d.members[i];
        members.push(TsParam { name: string_of_str(m.name.as_str()), ty: ty_as_ts(&m.ty) });
        i = i + 1;
    }
    let r = TsItem::TypeAlias { name: string_of_str(name.as_str()), params: tps, members };
    assert(params_v(members@) =~= Seq::new(d.members@.len(), |i: int| TsParamV { name: d.members@[i].name@, ty: ts_of_ty(d.members@[i].ty) }));
    assert(Seq::<Seq<char>>::empty() + gen_names(d.genargs@) =~= gen_names(d.genargs@));
    r
}

/// Writes a native type alias, under the name `name`.
pub fn alias_as_ts(name: &String, d: &HAliasDef) -> (r: TsItem)
    ensures
        r@ == alias_item(name@, *d),
{
    let mut params: Vec<String> = Vec::new();
    let mut i: usize = 0;
    while i < d.genargs.len()
        invariant
            i <= d.genargs@.len(),
            params@.len() == i,
            forall|k: int| 0 <= k < i ==> (#[trigger] params@[k])@ == d.genargs@[k]@,
        decreases d.genargs@.len() - i,
    {
        params.push(string_of_str(d.genargs[i].as_str()));
        i = i + 1;
    }
    let mut src = String::new();
    proof {
        reveal_strlit("type X = ");
        reveal_strlit(";");
    }
    push_str(&mut src, "type X = ");
    push_str(&mut src, d.native.as_str());
    push_str(&mut src, ";");
    assert(src@ =~= seq!['t', 'y', 'p', 'e', ' ', 'X', ' ', '='] + seq![' '] + d.native@ + seq![';']);
    assert(strs_v(params@) =~= strs_v(d.genargs@));
    TsItem::NativeTypeAlias { name: string_of_str(name.as_str()), params, source: src }
}

/// Writes the import of a symbol of another package.
pub fn import_as_ts(i: &HImport, type_only: bool) -> (r: TsItem)
    ensures
        r@ == import_item(*i, type_only),
{
    let mut src = String::new();
    proof {
        reveal_strlit("./");
        reveal_strlit(".ts");
    }
    push_str(&mut src, "./");
    push_str(&mut src, i.package.as_str());
    push_str(&mut src, ".ts");
    assert(src@ =~= seq!['.', '/'] + i.package@ + seq!['.', 't', 's']);
    TsItem::Import { name: string_of_str(i.name.as_str()), source: src, type_only }
}

proof fn lemma_items_v_push(v: Seq<TsItem>, x: TsItem)
    ensures
        items_v(v.push(x)) == items_v(v).push(x@),
{
    assert(items_v(v.push(x)) =~= items_v(v).push(x@));
}

/// The TypeScript module of a package.
pub fn generate(p: &TsProgramInput) -> (r: TsModule)
    requires
        program_ok(*p),
    ensures
        r@ == program_items(*p),
{
    let mut items: Vec<TsItem> = Vec::new();
    assert(items_v(items@) =~= Seq::<TsItemV>::empty());
    let ghost part1 = Seq::new(p.natives@.len(), |i: int| TsItemV::Native(p.natives@[i]@));
    let mut i: usize = 0;
    while i < p.natives.len()
        invariant
            i <= p.natives@.len(),
            items_v(items@) == part1.take(i as int),
            part1 == Seq::new(p.natives@.len(), |i: int| TsItemV::Native(p.natives@[i]@)),
        decreases p.natives@.len() - i,
    {
        let it = TsItem::Native(string_of_str(p.natives[i].as_str()));
        proof {
            lemma_items_v_push(items@, it);
            assert(part1.take(i + 1) =~= part1.take(i as int).push(it@));
        }
        items.push(it);
        i = i + 1;
    }
    assert(part1.take(part1.len() as int) =~= part1);
    let ghost base = items_v(items@);
    let ghost part2 = Seq::new(p.ty_imports@.len(), |i: int| import_item(p.ty_imports@[i], true));
    let mut i: usize = 0;
    while i < p.ty_imports.len()
        invariant
            i <= p.ty_imports@.len(),
            items_v(items@) == base + part2.take(i as int),
            part2 == Seq::new(p.ty_imports@.len(), |i: int| import_item(p.ty_imports@[i], true)),
        decreases p.ty_imports@.len() - i,
    {
        let it = import_as_ts(&p.ty_imports[i], true);
        proof {
            lemma_items_v_push(items@, it);
            assert(base + part2.take(i + 1) =~= (base + part2.take(i as int)).push(it@));
        }
        items.push(it);
        i = i + 1;
    }
    assert(part2.take(part2.len() as int) =~= part2);
    let ghost base = items_v(items@);
    let ghost part3 = Seq::new(p.val_imports@.len(), |i: int| import_item(p.val_imports@[i], false));
    let mut i: usize = 0;
    while i < p.val_imports.len()
        invariant
            i <= p.val_imports@.len(),
            items_v(items@) == base + part3.take(i as int),
            part3 == Seq::new(p.val_imports@.len(), |i: int| import_item(p.val_imports@[i], false)),
        decreases p.val_imports@.len() - i,
    {
        let it = import_as_ts(&p.val_imports[i], false);
        proof {
            lemma_items_v_push(items@, it);
            assert(base + part3.take(i + 1) =~= (base + part3.take(i as int)).push(it@));
        }
        items.push(it);
        i = i + 1;
    }
    assert(part3.take(part3.len() as int) =~= part3);
    let ghost base = items_v(items@);
    let mut i: usize = 0;
    assert(p.tys@.take(0) =~= Seq::<HTyEntry>::empty());
    assert(base + ty_items(Seq::<HTyEntry>::empty()) =~= base);
    while i < p.tys.len()
        invariant
            i <= p.tys@.len(),
            program_ok(*p),
            items_v(items@) == base + ty_items(p.tys@.take(i as int)),
        decreases p.tys@.len() - i,
    {
        let e = &p.tys[i];
        proof {
            let tk = p.tys@.take(i + 1);
            assert(tk.subrange(0, tk.len() - 1) =~= p.tys@.take(i as int));
            assert(tk[tk.len() - 1] == p.tys@[i as int]);
            assert(ty_entry_ok(p.tys@[i as int]));
        }
        match &e.def {
            HTyDef::Struct { is_self, def } => {
                if *is_self {
                    let it = struct_as_ts(&e.name, def);
                    proof {
                        lemma_items_v_push(items@, it);
                    }
                    items.push(it);
                }
            },
            HTyDef::NativeAlias(d) => {
                let it = alias_as_ts(&e.name, d);
                proof {
                    lemma_items_v_push(items@, it);
                }
                items.push(it);
            },
            HTyDef::Opaque => {},
        }
        i = i + 1;
    }
    assert(p.tys@.take(p.tys@.len() as int) =~= p.tys@);
    let ghost base = items_v(items@);
    let ghost part5 = Seq::new(p.assoc@.len(), |i: int| assoc_item(p.assoc@[i]));
    let mut i: usize = 0;
    while i < p.assoc.len()
        invariant
            i <= p.assoc@.len(),
            program_ok(*p),
            items_v(items@) == base + part5.take(i as int),
            part5 == Seq::new(p.assoc@.len(), |i: int| assoc_item(p.assoc@[i])),
        decreases p.assoc@.len() - i,
    {
        let e = &p.assoc[i];
        assert(assoc_ok(p.assoc@[i as int]));
        let it = match &e.def {
            HAssocDef::Fn(f) => fn_as_ts(&e.name, f),
            HAssocDef::Native(f) => native_fn_as_ts(&e.name, f),
        };
        proof {
            lemma_items_v_push(items@, it);
            assert(base + part5.take(i + 1) =~= (base + part5.take(i as int)).push(it@));
        }
        items.push(it);
        i = i + 1;
    }
    assert(part5.take(part5.len() as int) =~= part5);
    let ghost base = items_v(items@);
    let mut i: usize = 0;
    assert(p.vals@.take(0) =~= Seq::<HValEntry>::empty());
    assert(base + val_items(Seq::<HValEntry>::empty()) =~= base);
    while i < p.vals.len()
        invariant
            i <= p.vals@.len(),
            program_ok(*p),
            items_v(items@) == base + val_items(p.vals@.take(i as int)),
        decreases p.vals@.len() - i,
    {
        let e = &p.vals[i];
        proof {
            let tk = p.vals@.take(i + 1);
            assert(tk.subrange(0, tk.len() - 1) =~= p.vals@.take(i as int));
            assert(tk[tk.len() - 1] == p.vals@[i as int]);
            assert(val_ok(p.vals@[i as int]));
        }
        match &e.def {
            HValDef::Fn(f) => {
                let it = fn_as_ts(&e.name, f);
                proof {
                    lemma_items_v_push(items@, it);
                }
                items.push(it);
            },
            HValDef::Native(f) => {
                let it = native_fn_as_ts(&e.name, f);
                proof {
                    lemma_items_v_push(items@, it);
                }
                items.push(it);
            },
            HValDef::Scene(f) => {
                let it = scene_as_ts(&e.name, f);
                proof {
                    lemma_items_v_push(items@, it);
                }
                items.push(it);
            },
            HValDef::External => {},
        }
        i = i + 1;
    }
    assert(p.vals@.take(p.vals@.len() as int) =~= p.vals@);
    let m = TsModule { items };
    assert(m@ =~= items_v(items@));
    m
}


/// What a comparison of biwa means on two integers.
pub open spec fn biwa_int_compare(op: BinOperator, a: int, b: int) -> Option<bool> {
    match op {
        BinOperator::Gt => Some(a > b),
        BinOperator::Lt => Some(a < b),
        BinOperator::Ge => Some(a >= b),
        BinOperator::Le => Some(a <= b),
        BinOperator::Eq => Some(a == b),
        BinOperator::Ne => Some(a != b),
        _ => None,
    }
}

/// What an arithmetic operator of biwa gives on two integers, where the
/// integer result is exact.
pub open spec fn biwa_int_arith(op: BinOperator, a: int, b: int) -> Option<int> {
    match op {
        BinOperator::Add => Some(a + b),
        BinOperator::Sub => Some(a - b),
        BinOperator::Mul => Some(a * b),
        _ => None,
    }
}

/// What a TypeScript comparison gives on two numbers that are integers.
pub open spec fn ts_number_compare(op: TsBinOp, a: int, b: int) -> Option<bool> {
    match op {
        TsBinOp::GreaterThan => Some(a > b),
        TsBinOp::LessThan => Some(a < b),
        TsBinOp::GreaterEqualThan => Some(a >= b),
        TsBinOp::LessEqualThan => Some(a <= b),
        TsBinOp::StrictEquality => Some(a == b),
        TsBinOp::StrictInequality => Some(a != b),
        _ => None,
    }
}

/// What TypeScript `+`, `-` and `*` give on two numbers that are integers
/// (where the result is exact).
pub open spec fn ts_number_arith(op: TsBinOp, a: int, b: int) -> Option<int> {
    match op {
        TsBinOp::Addition => Some(a + b),
        TsBinOp::Subtraction => Some(a - b),
        TsBinOp::Multiplication => Some(a * b),
        _ => None,
    }
}

/// The operator written for a biwa operator computes the same thing: a
/// comparison of two integers gives the same truth in TypeScript, and `+`,
/// `-` and `*` the same number.
pub proof fn lemma_bin_op_same_meaning(op: BinOperator, a: int, b: int)
    ensures
        biwa_int_compare(op, a, b) is Some ==> ts_number_compare(ts_bin_op(op), a, b) == biwa_int_compare(op, a, b),
        biwa_int_arith(op, a, b) is Some ==> ts_number_arith(ts_bin_op(op), a, b) == biwa_int_arith(op, a, b),
{
}

/// Different biwa operators are written as different TypeScript operators.
pub proof fn lemma_bin_op_injective(x: BinOperator, y: BinOperator)
    ensures
        ts_bin_op(x) == ts_bin_op(y) ==> x == y,
{
}

} // verus!
