//! Pieces of the WebAssembly text (WAT) output: the error of the wasm
//! backend, the names it gives to instances, where string literals lie in
//! linear memory, how their bytes are written in a data segment, the
//! instruction of each binary operator, native functions with their type
//! placeholders filled in, and structured control flow as `block`, `loop`,
//! `if` and `br`.
//!
//! WAT is text because the bodies of `[[native(arch="wasm")]]` are written
//! in it: natives are pasted in as they are, as the TypeScript backend
//! pastes native TypeScript.
//!
//! | biwa | wasm |
//! |---|---|
//! | `Int` | `i32` |
//! | `Float` | `f32` |
//! | `Bool` | `i32` (0/1) |
//! | `Void` | no value |

use vstd::prelude::*;
use vstd::utf8::encode_utf8;
use crate::decimal::{decimal, push_decimal, push_decimal_u128, spec_split, split_chars, views_of};
use crate::structure::{BasicBlock, Structured};
use crate::text::{chars_of, push_char, push_str, string_of_str};

verus! {

/// Why wasm could not be generated.
#[derive(Debug, Clone, PartialEq, Eq)]
pub enum WasmError {
    /// There is no entry point.
    NoEntryPoint,
    /// This type has no wasm form yet.
    UnsupportedType { ty: String },
    /// The instance a call goes to was not monomorphized.
    MissingInstance { name: String },
    /// The control flow could not be structured.
    Structure(String),
}

impl WasmError {
    /// The message shown for the error.
    pub fn message(&self) -> (r: String)
        ensures
            r@ == match *self {
                WasmError::NoEntryPoint => "no entry point to generate wasm from"@,
                WasmError::UnsupportedType { ty } => "`"@ + ty@ + "` cannot be represented in wasm yet"@,
                WasmError::MissingInstance { name } => "the instance `"@ + name@ + "` was not monomorphized"@,
                WasmError::Structure(m) => m@,
            },
    {
        let mut s = String::new();
        match self {
            WasmError::NoEntryPoint => {
                push_str(&mut s, "no entry point to generate wasm from");
            },
            WasmError::UnsupportedType { ty } => {
                push_str(&mut s, "`");
                push_str(&mut s, ty.as_str());
                push_str(&mut s, "` cannot be represented in wasm yet");
            },
            WasmError::MissingInstance { name } => {
                push_str(&mut s, "the instance `");
                push_str(&mut s, name.as_str());
                push_str(&mut s, "` was not monomorphized");
            },
            WasmError::Structure(m) => {
                push_str(&mut s, m.as_str());
            },
        }
        assert(s@ =~= match *self {
            WasmError::NoEntryPoint => "no entry point to generate wasm from"@,
            WasmError::UnsupportedType { ty } => "`"@ + ty@ + "` cannot be represented in wasm yet"@,
            WasmError::MissingInstance { name } => "the instance `"@ + name@ + "` was not monomorphized"@,
            WasmError::Structure(m) => m@,
        });
        s
    }
}

/// `<base>.<tag><index>`: the name of the `index`-th instance of a symbol
/// whose mangled name is `base`. One symbol gives several functions or
/// types when its generic arguments differ, so the index keeps them apart.
pub open spec fn instance_name_spec(base: Seq<char>, tag: char, index: nat) -> Seq<char> {
    base + seq!['.', tag] + decimal(index)
}

fn instance_name(base: &str, tag: char, index: usize) -> (r: String)
    ensures
        r@ == instance_name_spec(base@, tag, index as nat),
{
    let mut s = String::new();
    push_str(&mut s, base);
    push_char(&mut s, '.');
    push_char(&mut s, tag);
    push_decimal(&mut s, index);
    assert(s@ =~= instance_name_spec(base@, tag, index as nat));
    s
}

/// The wasm name of the `index`-th function instance: `<base>.i<index>`.
pub fn fn_instance_name(base: &str, index: usize) -> (r: String)
    ensures
        r@ == instance_name_spec(base@, 'i', index as nat),
{
    instance_name(base, 'i', index)
}

/// The wasm name of the `index`-th type instance (a struct, or the parent
/// type of an enum): `<base>.t<index>`.
pub fn ty_instance_name(base: &str, index: usize) -> (r: String)
    ensures
        r@ == instance_name_spec(base@, 't', index as nat),
{
    instance_name(base, 't', index)
}

/// The wasm name of the child type of variant `n` of an enum whose parent
/// type is `parent`: `<parent>.v<n>`. The parent holds only the tag; each
/// child adds its variant's payload.
pub fn variant_ty_name(parent: &str, n: usize) -> (r: String)
    ensures
        r@ == instance_name_spec(parent@, 'v', n as nat),
{
    instance_name(parent, 'v', n)
}

/// The sum of the lengths.
pub open spec fn total_len(lens: Seq<u32>) -> nat
    decreases lens.len(),
{
    if lens.len() == 0 {
        0
    } else {
        total_len(lens.drop_last()) + lens.last() as nat
    }
}

proof fn lemma_total_len_take(lens: Seq<u32>, i: int)
    requires
        0 <= i <= lens.len(),
    ensures
        total_len(lens.take(i)) <= total_len(lens),
    decreases lens.len() - i,
{
    if i < lens.len() {
        lemma_total_len_take(lens, i + 1);
        let t = lens.take(i + 1);
        assert(t.drop_last() =~= lens.take(i));
    } else {
        assert(lens.take(i) =~= lens);
    }
}

/// Where string literals lie in linear memory: each right after the one
/// before, from offset 0, with no alignment (the memory is a read-only
/// pool of constants). Each entry is `(offset, length)`.
pub fn string_layout(lens: &[u32]) -> (r: Vec<(u32, u32)>)
    requires
        total_len(lens@) <= u32::MAX,
    ensures
        r@.len() == lens@.len(),
        forall|k: int| 0 <= k < lens@.len() ==> #[trigger] r@[k] == (total_len(lens@.take(k)) as u32, lens@[k]),
{
    let mut out: Vec<(u32, u32)> = Vec::new();
    let mut offset: u32 = 0;
    let mut i: usize = 0;
    assert(lens@.take(0) =~= Seq::<u32>::empty());
    while i < lens.len()
        invariant
            i <= lens@.len(),
            total_len(lens@) <= u32::MAX,
            offset == total_len(lens@.take(i as int)),
            out@.len() == i,
            forall|k: int| 0 <= k < i ==> #[trigger] out@[k] == (total_len(lens@.take(k)) as u32, lens@[k]),
        decreases lens@.len() - i,
    {
        proof {
            let t = lens@.take(i + 1);
            assert(t.drop_last() =~= lens@.take(i as int));
            assert(t.last() == lens@[i as int]);
            lemma_total_len_take(lens@, i + 1);
        }
        out.push((offset, lens[i]));
        offset = offset + lens[i];
        i = i + 1;
    }
    out
}

/// The number of 64 KiB pages of linear memory for `total` bytes of
/// string literals: enough to hold them, and at least one.
pub open spec fn memory_pages_spec(total: nat) -> nat {
    if total == 0 {
        1
    } else {
        ((total + 65535) / 65536) as nat
    }
}

pub fn memory_pages(total: u32) -> (r: u32)
    ensures
        r == memory_pages_spec(total as nat),
        r as nat * 65536 >= total,
        r >= 1,
{
    if total == 0 {
        1
    } else {
        let q = total / 65536;
        let r = if total % 65536 == 0 {
            q
        } else {
            q + 1
        };
        assert(r == (total as nat + 65535) / 65536) by (nonlinear_arith)
            requires
                total > 0,
                q == total / 65536,
                r == if total % 65536 == 0 { q } else { (q + 1) as u32 },
        {
        }
        assert(r as nat * 65536 >= total) by (nonlinear_arith)
            requires
                q == total / 65536,
                r == if total % 65536 == 0 { q } else { (q + 1) as u32 },
        {
        }
        r
    }
}

/// The string literals lie one after the other inside linear memory: each
/// ends where the next begins, and the last ends within the pages asked for.
pub proof fn lemma_strings_fit(lens: Seq<u32>, k: int)
    requires
        0 <= k < lens.len(),
    ensures
        total_len(lens.take(k)) + lens[k] == total_len(lens.take(k + 1)),
        total_len(lens.take(k + 1)) <= total_len(lens),
        total_len(lens) <= memory_pages_spec(total_len(lens)) * 65536,
{
    let t = lens.take(k + 1);
    assert(t.drop_last() =~= lens.take(k));
    lemma_total_len_take(lens, k + 1);
    let total = total_len(lens);
    if total > 0 {
        assert(((total + 65535) / 65536) * 65536 >= total) by (nonlinear_arith)
            requires
                total > 0,
        {
        }
    }
}

/// A lower-case hexadecimal digit.
pub open spec fn hex_digit(n: int) -> char {
    if n < 10 {
        ((n + 48) as u32) as char
    } else {
        ((n + 87) as u32) as char
    }
}

/// How one byte is written in a WAT string: `"` and `\` escaped,
/// printable ASCII as itself, anything else as `\XX` in hexadecimal.
pub open spec fn escape_byte(b: u8) -> Seq<char> {
    if b == 0x22 {
        seq!['\\', '"']
    } else if b == 0x5c {
        seq!['\\', '\\']
    } else if 0x20 <= b <= 0x7e {
        seq![(b as u32) as char]
    } else {
        seq!['\\', hex_digit(b as int / 16), hex_digit(b as int % 16)]
    }
}

pub open spec fn escape_bytes(bs: Seq<u8>) -> Seq<char>
    decreases bs.len(),
{
    if bs.len() == 0 {
        Seq::empty()
    } else {
        escape_bytes(bs.drop_last()) + escape_byte(bs.last())
    }
}

fn hex_char(n: u8) -> (c: char)
    requires
        n < 16,
    ensures
        c == hex_digit(n as int),
{
    if n == 0 { '0' } else if n == 1 { '1' } else if n == 2 { '2' } else if n == 3 { '3' }
    else if n == 4 { '4' } else if n == 5 { '5' } else if n == 6 { '6' } else if n == 7 { '7' }
    else if n == 8 { '8' } else if n == 9 { '9' } else if n == 10 { 'a' } else if n == 11 { 'b' }
    else if n == 12 { 'c' } else if n == 13 { 'd' } else if n == 14 { 'e' } else { 'f' }
}

/// The text of a data segment holding `s`: WAT strings can write any byte
/// as `\XX`.
pub fn escape_data(s: &str) -> (r: String)
    ensures
        r@ == escape_bytes(encode_utf8(s@)),
{
    let bytes = s.as_bytes();
    let ghost bs = bytes@;
    assert(bs == encode_utf8(s@));
    let mut out = String::new();
    let mut i: usize = 0;
    assert(bs.take(0) =~= Seq::<u8>::empty());
    while i < bytes.len()
        invariant
            i <= bs.len(),
            bs == bytes@,
            out@ == escape_bytes(bs.take(i as int)),
        decreases bs.len() - i,
    {
        let b = bytes[i];
        let ghost before = out@;
        if b == 0x22 {
            push_char(&mut out, '\\');
            push_char(&mut out, '"');
        } else if b == 0x5c {
            push_char(&mut out, '\\');
            push_char(&mut out, '\\');
        } else if 0x20 <= b && b <= 0x7e {
            push_char(&mut out, b as char);
        } else {
            push_char(&mut out, '\\');
            push_char(&mut out, hex_char(b / 16));
            push_char(&mut out, hex_char(b % 16));
        }
        proof {
            let t = bs.take(i + 1);
            assert(t.drop_last() =~= bs.take(i as int));
            assert(t.last() == b);
            assert(out@ =~= before + escape_byte(b));
        }
        i = i + 1;
    }
    assert(bs.take(bs.len() as int) =~= bs);
    out
}

/// The index of a MIR local among the wasm locals: wasm puts the
/// arguments first, while MIR keeps `_0` for the return value and numbers
/// the arguments from 1.
pub open spec fn wasm_local_spec(local: u32, arg_count: u32) -> u32 {
    if local == 0 {
        arg_count
    } else if local <= arg_count {
        (local - 1) as u32
    } else {
        local
    }
}

pub fn wasm_local(local: u32, arg_count: u32) -> (r: u32)
    ensures
        r == wasm_local_spec(local, arg_count),
{
    if local == 0 {
        arg_count
    } else if local <= arg_count {
        local - 1
    } else {
        local
    }
}

/// A binary operator of the MIR.
#[derive(Debug, Clone, Copy, PartialEq, Eq, Structural)]
pub enum BinOp {
    Add,
    Sub,
    Mul,
    Div,
    Rem,
    Eq,
    Ne,
    Lt,
    Le,
    Gt,
    Ge,
}

/// The wasm instruction of an operator on `i32` (signed) or on `f32`.
/// Floats have no remainder; a type-checked program never asks for one,
/// and `f32.div` stands in.
pub open spec fn bin_op_spec(op: BinOp, is_float: bool) -> Seq<char> {
    if is_float {
        match op {
            BinOp::Add => "f32.add"@,
            BinOp::Sub => "f32.sub"@,
            BinOp::Mul => "f32.mul"@,
            BinOp::Div => "f32.div"@,
            BinOp::Rem => "f32.div"@,
            BinOp::Eq => "f32.eq"@,
            BinOp::Ne => "f32.ne"@,
            BinOp::Lt => "f32.lt"@,
            BinOp::Le => "f32.le"@,
            BinOp::Gt => "f32.gt"@,
            BinOp::Ge => "f32.ge"@,
        }
    } else {
        match op {
            BinOp::Add => "i32.add"@,
            BinOp::Sub => "i32.sub"@,
            BinOp::Mul => "i32.mul"@,
            BinOp::Div => "i32.div_s"@,
            BinOp::Rem => "i32.rem_s"@,
            BinOp::Eq => "i32.eq"@,
            BinOp::Ne => "i32.ne"@,
            BinOp::Lt => "i32.lt_s"@,
            BinOp::Le => "i32.le_s"@,
            BinOp::Gt => "i32.gt_s"@,
            BinOp::Ge => "i32.ge_s"@,
        }
    }
}

pub fn bin_op(op: BinOp, is_float: bool) -> (r: &'static str)
    ensures
        r@ == bin_op_spec(op, is_float),
{
    if is_float {
        match op {
            BinOp::Add => "f32.add",
            BinOp::Sub => "f32.sub",
            BinOp::Mul => "f32.mul",
            BinOp::Div => "f32.div",
            BinOp::Rem => "f32.div",
            BinOp::Eq => "f32.eq",
            BinOp::Ne => "f32.ne",
            BinOp::Lt => "f32.lt",
            BinOp::Le => "f32.le",
            BinOp::Gt => "f32.gt",
            BinOp::Ge => "f32.ge",
        }
    } else {
        match op {
            BinOp::Add => "i32.add",
            BinOp::Sub => "i32.sub",
            BinOp::Mul => "i32.mul",
            BinOp::Div => "i32.div_s",
            BinOp::Rem => "i32.rem_s",
            BinOp::Eq => "i32.eq",
            BinOp::Ne => "i32.ne",
            BinOp::Lt => "i32.lt_s",
            BinOp::Le => "i32.le_s",
            BinOp::Gt => "i32.gt_s",
            BinOp::Ge => "i32.ge_s",
        }
    }
}

// --- placeholders in native bodies ---

/// Whether `pat` occurs in `s`.
pub open spec fn occurs(s: Seq<char>, pat: Seq<char>) -> bool {
    exists|j: int| 0 <= j && j + pat.len() <= s.len() && #[trigger] s.subrange(j, j + pat.len()) == pat
}

/// `s` with each occurrence of the non-empty `pat` replaced by `rep`, found
/// left to right without overlapping, as `str::replace` does.
pub open spec fn replace_all(s: Seq<char>, pat: Seq<char>, rep: Seq<char>) -> Seq<char>
    decreases s.len(),
{
    if s.len() == 0 {
        Seq::empty()
    } else if 0 < pat.len() <= s.len() && s.take(pat.len() as int) == pat {
        rep + replace_all(s.skip(pat.len() as int), pat, rep)
    } else {
        seq![s[0]] + replace_all(s.drop_first(), pat, rep)
    }
}

fn matches_at(cs: &Vec<char>, i: usize, ps: &Vec<char>) -> (r: bool)
    requires
        i <= cs@.len(),
    ensures
        r == (i + ps@.len() <= cs@.len() && cs@.subrange(i as int, i + ps@.len()) == ps@),
{
    let m = cs.len();
    if ps.len() > m - i {
        return false;
    }
    let mut k: usize = 0;
    while k < ps.len()
        invariant
            m == cs@.len(),
            i + ps@.len() <= cs@.len(),
            k <= ps@.len(),
            forall|m: int| 0 <= m < k ==> cs@[i + m] == ps@[m],
        decreases ps@.len() - k,
    {
        assert(i + k < cs@.len());
        if cs[i + k] != ps[k] {
            assert(cs@.subrange(i as int, i + ps@.len())[k as int] != ps@[k as int]);
            return false;
        }
        k = k + 1;
    }
    assert(cs@.subrange(i as int, i + ps@.len()) =~= ps@);
    true
}

fn contains_str(s: &str, pat: &str) -> (r: bool)
    ensures
        r == occurs(s@, pat@),
{
    let cs = chars_of(s);
    let ps = chars_of(pat);
    let mut i: usize = 0;
    loop
        invariant
            cs@ == s@,
            ps@ == pat@,
            i <= cs@.len(),
            forall|j: int| 0 <= j < i && j + pat@.len() <= s@.len() ==> #[trigger] s@.subrange(j, j + pat@.len()) != pat@,
        decreases cs@.len() - i,
    {
        if matches_at(&cs, i, &ps) {
            return true;
        }
        if i == cs.len() {
            return false;
        }
        i = i + 1;
    }
}

fn replace_str(s: &str, pat: &str, rep: &str) -> (r: String)
    requires
        pat@.len() > 0,
    ensures
        r@ == replace_all(s@, pat@, rep@),
{
    let cs = chars_of(s);
    let ps = chars_of(pat);
    let mut out = String::new();
    let mut i: usize = 0;
    assert(cs@.skip(0) =~= cs@);
    while i < cs.len()
        invariant
            cs@ == s@,
            ps@ == pat@,
            pat@.len() > 0,
            i <= cs@.len(),
            out@ + replace_all(cs@.skip(i as int), pat@, rep@) == replace_all(s@, pat@, rep@),
        decreases cs@.len() - i,
    {
        let ghost rest = cs@.skip(i as int);
        if matches_at(&cs, i, &ps) {
            proof {
                assert(rest.take(pat@.len() as int) =~= cs@.subrange(i as int, i + pat@.len()));
                assert(rest.skip(pat@.len() as int) =~= cs@.skip(i + pat@.len()));
            }
            push_str(&mut out, rep);
            i = i + ps.len();
        } else {
            proof {
                if pat@.len() <= rest.len() {
                    assert(rest.take(pat@.len() as int) =~= cs@.subrange(i as int, i + pat@.len()));
                }
                assert(rest.drop_first() =~= cs@.skip(i + 1));
                assert(rest[0] == cs@[i as int]);
            }
            push_char(&mut out, cs[i]);
            i = i + 1;
        }
        assert(out@ + replace_all(cs@.skip(i as int), pat@, rep@) =~= replace_all(s@, pat@, rep@));
    }
    assert(cs@.skip(i as int) =~= Seq::<char>::empty());
    assert(out@ + Seq::<char>::empty() =~= out@);
    out
}

/// The return type of a native function, in wasm: none, or the wasm type
/// it has (or why it has none).
#[derive(Debug)]
pub enum NativeRet {
    Void,
    Ty(Result<String, WasmError>),
}

/// `%param<i>%`: the placeholder of argument `i` (`self` being 0 when
/// there is one, as in `local.get`).
pub open spec fn param_key(i: nat) -> Seq<char> {
    "%param"@ + decimal(i) + "%"@
}

/// Where a failed expansion came from.
pub ghost enum ExpandFailure {
    /// `%ret%` in a native with no return value.
    NoReturnValue,
    /// The return type has no wasm form.
    Ret,
    /// The type of argument `i` has no wasm form.
    Param(nat),
}

/// The argument placeholders filled in, in order.
pub open spec fn fill_params(out: Seq<char>, params: Seq<Result<String, WasmError>>) -> Result<Seq<char>, ExpandFailure>
    decreases params.len(),
{
    if params.len() == 0 {
        Ok(out)
    } else {
        match fill_params(out, params.drop_last()) {
            Err(f) => Err(f),
            Ok(o) => {
                let key = param_key((params.len() - 1) as nat);
                if occurs(o, key) {
                    match params.last() {
                        Err(_) => Err(ExpandFailure::Param((params.len() - 1) as nat)),
                        Ok(w) => Ok(replace_all(o, key, w@)),
                    }
                } else {
                    Ok(o)
                }
            },
        }
    }
}

/// A native body with its type placeholders filled in: `%ret%` by the
/// return type, then `%param<i>%` by the type of argument `i`. A body with
/// no `%` is left as it is; the type of a placeholder that does not occur
/// is never needed.
pub open spec fn expand_spec(body: Seq<char>, ret: NativeRet, params: Seq<Result<String, WasmError>>) -> Result<Seq<char>, ExpandFailure> {
    if !body.contains('%') {
        Ok(body)
    } else {
        let r1 = if occurs(body, "%ret%"@) {
            match ret {
                NativeRet::Void => Err(ExpandFailure::NoReturnValue),
                NativeRet::Ty(Err(_)) => Err(ExpandFailure::Ret),
                NativeRet::Ty(Ok(w)) => Ok(replace_all(body, "%ret%"@, w@)),
            }
        } else {
            Ok(body)
        };
        match r1 {
            Err(f) => Err(f),
            Ok(o) => fill_params(o, params),
        }
    }
}

fn param_key_string(i: usize) -> (r: String)
    ensures
        r@ == param_key(i as nat),
{
    let mut s = string_of_str("%param");
    push_decimal(&mut s, i);
    push_str(&mut s, "%");
    s
}

proof fn lemma_param_key_nonempty(i: nat)
    ensures
        param_key(i).len() > 0,
{
    reveal_strlit("%param");
}

fn has_percent(s: &str) -> (r: bool)
    ensures
        r == s@.contains('%'),
{
    let cs = chars_of(s);
    let mut i: usize = 0;
    while i < cs.len()
        invariant
            cs@ == s@,
            i <= cs@.len(),
            forall|k: int| 0 <= k < i ==> cs@[k] != '%',
        decreases cs@.len() - i,
    {
        if cs[i] == '%' {
            return true;
        }
        i = i + 1;
    }
    false
}

/// Fills in the type placeholders of a native body.
///
/// A generic native shares one body among all its instances, so the body
/// cannot name a concrete type; yet casting an `anyref` down to `T`, as
/// `Option[T]::unwrap` does, needs `T` as the immediate of `ref.cast`.
/// Only those places take a placeholder; `%` never occurs in WAT
/// otherwise.
pub fn expand_native_placeholders(body: &str, ret: NativeRet, params: Vec<Result<String, WasmError>>) -> (r: Result<String, WasmError>)
    ensures
        match expand_spec(body@, ret, params@) {
            Ok(s) => r matches Ok(x) && x@ == s,
            Err(ExpandFailure::NoReturnValue) => r matches Err(WasmError::UnsupportedType { ty }) && ty@ == "%ret% in a native with no return value"@,
            Err(ExpandFailure::Ret) => r is Err && ret == NativeRet::Ty(Err(r->Err_0)),
            Err(ExpandFailure::Param(i)) => r is Err && i < params@.len() && params@[i as int] == Err::<String, WasmError>(r->Err_0),
        },
{
    let ghost ret_v = ret;
    let ghost ps = params@;
    if !has_percent(body) {
        return Ok(string_of_str(body));
    }
    let mut out = string_of_str(body);
    if contains_str(out.as_str(), "%ret%") {
        proof {
            reveal_strlit("%ret%");
        }
        match ret {
            NativeRet::Void => {
                return Err(WasmError::UnsupportedType { ty: string_of_str("%ret% in a native with no return value") });
            },
            NativeRet::Ty(Err(e)) => {
                return Err(e);
            },
            NativeRet::Ty(Ok(w)) => {
                out = replace_str(out.as_str(), "%ret%", w.as_str());
            },
        }
    }
    let ghost start = out@;
    assert(expand_spec(body@, ret_v, ps) == fill_params(start, ps));
    let n = params.len();
    let mut rest = params;
    let mut i: usize = 0;
    assert(ps.skip(0) =~= ps);
    while i < n
        invariant
            n == ps.len(),
            i <= n,
            rest@ == ps.skip(i as int),
            ps == params@,
            ret_v == ret,
            expand_spec(body@, ret_v, ps) == fill_params(start, ps),
            fill_params(start, ps.take(i as int)) == Ok::<Seq<char>, ExpandFailure>(out@),
        decreases n - i,
    {
        let p = rest.remove(0);
        assert(p == ps[i as int]);
        assert(rest@ =~= ps.skip(i + 1));
        let key = param_key_string(i);
        proof {
            lemma_param_key_nonempty(i as nat);
            let t = ps.take(i + 1);
            assert(t.drop_last() =~= ps.take(i as int));
            assert(t.last() == ps[i as int]);
        }
        if contains_str(out.as_str(), key.as_str()) {
            match p {
                Err(e) => {
                    proof {
                        assert(occurs(out@, param_key(i as nat)));
                        assert(fill_params(start, ps.take(i + 1)) == Err::<Seq<char>, ExpandFailure>(ExpandFailure::Param(i as nat)));
                        lemma_fill_params_stays_err(start, ps, (i + 1) as nat);
                        assert(fill_params(start, ps) == Err::<Seq<char>, ExpandFailure>(ExpandFailure::Param(i as nat)));
                    }
                    return Err(e);
                },
                Ok(w) => {
                    out = replace_str(out.as_str(), key.as_str(), w.as_str());
                },
            }
        }
        i = i + 1;
    }
    assert(ps.take(n as int) =~= ps);
    Ok(out)
}

proof fn lemma_fill_params_stays_err(out: Seq<char>, ps: Seq<Result<String, WasmError>>, k: nat)
    requires
        k <= ps.len(),
        fill_params(out, ps.take(k as int)) is Err,
    ensures
        fill_params(out, ps) == fill_params(out, ps.take(k as int)),
    decreases ps.len() - k,
{
    if k < ps.len() {
        let t = ps.take(k + 1 as int);
        assert(t.drop_last() =~= ps.take(k as int));
        lemma_fill_params_stays_err(out, ps, k + 1);
    } else {
        assert(ps.take(k as int) =~= ps);
    }
}

// --- native functions ---

/// Unicode `White_Space`, the characters `char::is_whitespace` and
/// `str::trim` take as white space.
pub open spec fn is_white(c: char) -> bool {
    c == '\t' || c == '\n' || c == '\u{b}' || c == '\u{c}' || c == '\r' || c == ' ' || c == '\u{85}'
        || c == '\u{a0}' || c == '\u{1680}' || ('\u{2000}' <= c && c <= '\u{200a}') || c == '\u{2028}'
        || c == '\u{2029}' || c == '\u{202f}' || c == '\u{205f}' || c == '\u{3000}'
}

pub(crate) fn is_white_char(c: char) -> (r: bool)
    ensures
        r == is_white(c),
{
    c == '\t' || c == '\n' || c == '\u{b}' || c == '\u{c}' || c == '\r' || c == ' ' || c == '\u{85}'
        || c == '\u{a0}' || c == '\u{1680}' || ('\u{2000}' <= c && c <= '\u{200a}') || c == '\u{2028}'
        || c == '\u{2029}' || c == '\u{202f}' || c == '\u{205f}' || c == '\u{3000}'
}

/// `str::trim_end`.
pub open spec fn trim_end_seq(s: Seq<char>) -> Seq<char>
    decreases s.len(),
{
    if s.len() > 0 && is_white(s.last()) {
        trim_end_seq(s.drop_last())
    } else {
        s
    }
}

/// `str::trim_start`.
pub open spec fn trim_start_seq(s: Seq<char>) -> Seq<char>
    decreases s.len(),
{
    if s.len() > 0 && is_white(s[0]) {
        trim_start_seq(s.drop_first())
    } else {
        s
    }
}

/// A line of text trimmed at both ends.
fn trimmed(cs: &Vec<char>) -> (r: Vec<char>)
    ensures
        r@ == trim_start_seq(trim_end_seq(cs@)),
{
    let mut e: usize = cs.len();
    assert(cs@.take(e as int) =~= cs@);
    while e > 0 && is_white_char(cs[e - 1])
        invariant
            e <= cs@.len(),
            trim_end_seq(cs@) == trim_end_seq(cs@.take(e as int)),
        decreases e,
    {
        proof {
            let t = cs@.take(e as int);
            assert(t.last() == cs@[e - 1]);
            assert(t.drop_last() =~= cs@.take(e - 1));
        }
        e = e - 1;
    }
    proof {
        let t = cs@.take(e as int);
        if e > 0 {
            assert(t.last() == cs@[e - 1]);
        }
        assert(trim_end_seq(t) == t);
    }
    let mut b: usize = 0;
    assert(cs@.subrange(0, e as int) =~= cs@.take(e as int));
    while b < e && is_white_char(cs[b])
        invariant
            b <= e <= cs@.len(),
            trim_start_seq(cs@.take(e as int)) == trim_start_seq(cs@.subrange(b as int, e as int)),
        decreases e - b,
    {
        proof {
            let t = cs@.subrange(b as int, e as int);
            assert(t[0] == cs@[b as int]);
            assert(t.drop_first() =~= cs@.subrange(b + 1, e as int));
        }
        b = b + 1;
    }
    proof {
        let t = cs@.subrange(b as int, e as int);
        if b < e {
            assert(t[0] == cs@[b as int]);
        }
        assert(trim_start_seq(t) == t);
    }
    let mut out: Vec<char> = Vec::new();
    let mut k: usize = b;
    while k < e
        invariant
            b <= k <= e <= cs@.len(),
            out@ == cs@.subrange(b as int, k as int),
        decreases e - k,
    {
        out.push(cs[k]);
        assert(out@ =~= cs@.subrange(b as int, k + 1));
        k = k + 1;
    }
    out
}

/// The body of a native as placed in its function: each line trimmed and
/// indented by four spaces, blank lines left out.
pub open spec fn native_lines(pieces: Seq<Seq<char>>) -> Seq<char>
    decreases pieces.len(),
{
    if pieces.len() == 0 {
        Seq::empty()
    } else {
        let rest = native_lines(pieces.drop_last());
        let l = trim_start_seq(trim_end_seq(pieces.last()));
        if l.len() == 0 {
            rest
        } else {
            rest + "    "@ + l + seq!['\n']
        }
    }
}

/// ` (param <t>)` for each argument type.
pub open spec fn params_text(ts: Seq<String>) -> Seq<char>
    decreases ts.len(),
{
    if ts.len() == 0 {
        Seq::empty()
    } else {
        params_text(ts.drop_last()) + " (param "@ + ts.last()@ + ")"@
    }
}

/// The place of the first argument type that has no wasm form.
pub open spec fn first_err(ts: Seq<Result<String, WasmError>>) -> Option<nat>
    decreases ts.len(),
{
    if ts.len() == 0 {
        None
    } else {
        match first_err(ts.drop_last()) {
            Some(i) => Some(i),
            None => if ts.last() is Err {
                Some((ts.len() - 1) as nat)
            } else {
                None
            },
        }
    }
}

/// The argument types, where all have a wasm form.
pub open spec fn oks(ts: Seq<Result<String, WasmError>>) -> Seq<String> {
    ts.map_values(|t: Result<String, WasmError>| t->Ok_0)
}

/// A native function in WAT: its signature, then the WAT its body was
/// written in, placeholders filled in. The argument types are checked
/// first, in order, then the return type, then the placeholders.
pub open spec fn emit_native_spec(name: Seq<char>, params: Seq<Result<String, WasmError>>, ret: NativeRet, body: Seq<char>) -> Result<Seq<char>, ExpandFailure> {
    match first_err(params) {
        Some(i) => Err(ExpandFailure::Param(i)),
        None => match ret {
            NativeRet::Ty(Err(_)) => Err(ExpandFailure::Ret),
            _ => match expand_spec(body, ret, params) {
                Err(f) => Err(f),
                Ok(b) => {
                    let result = match ret {
                        NativeRet::Ty(Ok(w)) => " (result "@ + w@ + ")"@,
                        _ => Seq::empty(),
                    };
                    Ok("  (func $"@ + name + params_text(oks(params)) + result + "\n"@ + native_lines(spec_split(b, '\n'))
                        + "  )\n"@)
                },
            },
        },
    }
}

/// Emits a native function. `params` are the wasm types of its arguments
/// (`self` first, when there is one) and `ret` that of its result, or why
/// one has none.
pub fn emit_native(name: &str, params: Vec<Result<String, WasmError>>, ret: NativeRet, body: &str) -> (r: Result<String, WasmError>)
    ensures
        match emit_native_spec(name@, params@, ret, body@) {
            Ok(s) => r matches Ok(x) && x@ == s,
            Err(ExpandFailure::NoReturnValue) => r matches Err(WasmError::UnsupportedType { ty }) && ty@ == "%ret% in a native with no return value"@,
            Err(ExpandFailure::Ret) => r is Err && ret == NativeRet::Ty(Err(r->Err_0)),
            Err(ExpandFailure::Param(i)) => r is Err && i < params@.len() && params@[i as int] == Err::<String, WasmError>(r->Err_0),
        },
{
    let ghost ps = params@;
    let ghost ret_v = ret;
    let n = params.len();
    let mut rest = params;
    let mut tys: Vec<String> = Vec::new();
    let mut again: Vec<Result<String, WasmError>> = Vec::new();
    let mut sig = String::new();
    let mut i: usize = 0;
    assert(ps.skip(0) =~= ps);
    assert(ps.take(0) =~= Seq::<Result<String, WasmError>>::empty());
    while i < n
        invariant
            n == ps.len(),
            i <= n,
            rest@ == ps.skip(i as int),
            ps == params@,
            first_err(ps.take(i as int)) is None,
            tys@ == oks(ps.take(i as int)),
            again@ == ps.take(i as int),
            sig@ == params_text(tys@),
        decreases n - i,
    {
        let p = rest.remove(0);
        assert(p == ps[i as int]);
        assert(rest@ =~= ps.skip(i + 1));
        proof {
            let t = ps.take(i + 1);
            assert(t.drop_last() =~= ps.take(i as int));
            assert(t.last() == ps[i as int]);
        }
        match p {
            Err(e) => {
                proof {
                    assert(first_err(ps.take(i + 1)) == Some(i as nat));
                    lemma_first_err_stays(ps, (i + 1) as nat);
                }
                return Err(e);
            },
            Ok(w) => {
                push_str(&mut sig, " (param ");
                push_str(&mut sig, w.as_str());
                push_str(&mut sig, ")");
                let ghost before = tys@;
                tys.push(w.clone());
                again.push(Ok(w));
                assert(tys@ =~= oks(ps.take(i + 1)));
                assert(again@ =~= ps.take(i + 1));
                assert(tys@.drop_last() =~= before);
                assert(sig@ =~= params_text(tys@));
            },
        }
        i = i + 1;
    }
    assert(ps.take(n as int) =~= ps);
    let ret2 = match ret {
        NativeRet::Void => NativeRet::Void,
        NativeRet::Ty(Err(e)) => {
            return Err(e);
        },
        NativeRet::Ty(Ok(w)) => {
            push_str(&mut sig, " (result ");
            push_str(&mut sig, w.as_str());
            push_str(&mut sig, ")");
            NativeRet::Ty(Ok(w))
        },
    };
    assert(ret2 == ret_v);
    let body = match expand_native_placeholders(body, ret2, again) {
        Ok(b) => b,
        Err(e) => {
            return Err(e);
        },
    };
    let mut out = String::new();
    push_str(&mut out, "  (func $");
    push_str(&mut out, name);
    push_str(&mut out, sig.as_str());
    push_str(&mut out, "\n");
    let ghost head = out@;
    let cs = chars_of(body.as_str());
    let pieces = split_chars(cs.as_slice(), '\n');
    let ghost pv = views_of(pieces@);
    let mut j: usize = 0;
    assert(pv.take(0) =~= Seq::<Seq<char>>::empty());
    assert(head + native_lines(pv.take(0)) =~= head);
    while j < pieces.len()
        invariant
            pv == views_of(pieces@),
            j <= pieces@.len(),
            out@ == head + native_lines(pv.take(j as int)),
        decreases pieces@.len() - j,
    {
        let l = trimmed(&pieces[j]);
        proof {
            let t = pv.take(j + 1);
            assert(t.drop_last() =~= pv.take(j as int));
            assert(t.last() == pieces@[j as int]@);
        }
        if l.len() > 0 {
            let ghost before = out@;
            push_str(&mut out, "    ");
            let mut k: usize = 0;
            while k < l.len()
                invariant
                    k <= l@.len(),
                    out@ == before + "    "@ + l@.take(k as int),
                decreases l@.len() - k,
            {
                push_char(&mut out, l[k]);
                assert(out@ =~= before + "    "@ + l@.take(k + 1));
                k = k + 1;
            }
            push_char(&mut out, '\n');
            assert(l@.take(l@.len() as int) =~= l@);
            assert(out@ =~= head + native_lines(pv.take(j + 1)));
        }
        j = j + 1;
    }
    assert(pv.take(pv.len() as int) =~= pv);
    push_str(&mut out, "  )\n");
    Ok(out)
}

proof fn lemma_first_err_stays(ps: Seq<Result<String, WasmError>>, k: nat)
    requires
        k <= ps.len(),
        first_err(ps.take(k as int)) is Some,
    ensures
        first_err(ps) == first_err(ps.take(k as int)),
    decreases ps.len() - k,
{
    if k < ps.len() {
        let t = ps.take(k + 1 as int);
        assert(t.drop_last() =~= ps.take(k as int));
        lemma_first_err_stays(ps, k + 1);
    } else {
        assert(ps.take(k as int) =~= ps);
    }
}

// --- structured control flow ---

/// What the blocks of a body emit, as instructions, one per line and not
/// indented: for each block, its statements and call (or why they have no
/// wasm form); for each block ending in a two-way switch, the instructions
/// that push the value it tests (or why they have none) and the value of
/// its first arm; and the local that holds the return value, for a body
/// that returns one.
#[derive(Debug)]
pub struct BlockCode {
    pub stmts: Vec<Result<Vec<String>, WasmError>>,
    pub conds: Vec<Option<(Result<Vec<String>, WasmError>, u128)>>,
    pub return_local: Option<u32>,
}

/// The code of a block that has no wasm form: its statements, or the
/// value its switch tests.
#[derive(Debug, Clone, Copy, PartialEq, Eq, Structural)]
pub enum CodeFailure {
    Stmts(BasicBlock),
    Cond(BasicBlock),
}

/// The indentation of `depth`: two spaces a level.
pub open spec fn pad(depth: nat) -> Seq<char> {
    Seq::new(2 * depth, |i: int| ' ')
}

/// A line at `depth`.
pub open spec fn line_at(depth: nat, text: Seq<char>) -> Seq<char> {
    pad(depth) + text + seq!['\n']
}

/// Instructions, each on a line at `depth`.
pub open spec fn lines_at(ls: Seq<String>, depth: nat) -> Seq<char>
    decreases ls.len(),
{
    if ls.len() == 0 {
        Seq::empty()
    } else {
        lines_at(ls.drop_last(), depth) + line_at(depth, ls.last()@)
    }
}

/// How deep constructs nest in a tree.
pub open spec fn nesting(t: Structured) -> nat
    decreases t, 1nat,
{
    match t {
        Structured::Block(items) => 1 + nesting_all(items@),
        Structured::Loop(inner) => 1 + nesting(*inner),
        Structured::If { then, els, .. } => 1 + if nesting_all(then@) >= nesting_all(els@) {
            nesting_all(then@)
        } else {
            nesting_all(els@)
        },
        _ => 0,
    }
}

pub open spec fn nesting_all(ts: Seq<Structured>) -> nat
    decreases ts, 0nat,
{
    if ts.len() == 0 {
        0
    } else {
        let a = nesting_all(ts.subrange(0, ts.len() - 1));
        let b = nesting(ts[ts.len() - 1]);
        if a >= b {
            a
        } else {
            b
        }
    }
}

proof fn lemma_nesting_all_bounds(ts: Seq<Structured>, i: int)
    requires
        0 <= i < ts.len(),
    ensures
        nesting(ts[i]) <= nesting_all(ts),
    decreases ts.len(),
{
    if i < ts.len() - 1 {
        let init = ts.subrange(0, ts.len() - 1);
        assert(init[i] == ts[i]);
        lemma_nesting_all_bounds(init, i);
    }
}

/// Whether the code of every block the tree names is at hand, and every
/// `if` comes from a two-way switch.
pub open spec fn code_covers(t: Structured, code: BlockCode) -> bool
    decreases t, 1nat,
{
    match t {
        Structured::Block(items) => code_covers_all(items@, code),
        Structured::Loop(inner) => code_covers(*inner, code),
        Structured::Simple(bb) => bb.0 < code.stmts@.len(),
        Structured::If { bb, then, els } => bb.0 < code.conds@.len() && code.conds@[bb.0 as int] is Some
            && code_covers_all(then@, code) && code_covers_all(els@, code),
        _ => true,
    }
}

pub open spec fn code_covers_all(ts: Seq<Structured>, code: BlockCode) -> bool
    decreases ts, 0nat,
{
    forall|i: int| 0 <= i < ts.len() ==> code_covers(#[trigger] ts[i], code)
}

/// The WAT of a structured tree at `depth`, or the first code, in
/// preorder, that has no wasm form.
pub open spec fn tree_text(t: Structured, depth: nat, code: BlockCode) -> Result<Seq<char>, CodeFailure>
    decreases t, 1nat,
{
    match t {
        Structured::Block(items) => match items_text(items@, depth + 1, code) {
            Ok(s) => Ok(line_at(depth, "block"@) + s + line_at(depth, "end"@)),
            Err(b) => Err(b),
        },
        Structured::Loop(inner) => match tree_text(*inner, depth + 1, code) {
            Ok(s) => Ok(line_at(depth, "loop"@) + s + line_at(depth, "end"@)),
            Err(b) => Err(b),
        },
        Structured::Simple(bb) => match code.stmts@[bb.0 as int] {
            Ok(ls) => Ok(lines_at(ls@, depth)),
            Err(_) => Err(CodeFailure::Stmts(bb)),
        },
        Structured::If { bb, then, els } => match code.conds@[bb.0 as int] {
            Some((Ok(ops), value)) => match items_text(then@, depth + 1, code) {
                Err(b) => Err(b),
                Ok(a) => match items_text(els@, depth + 1, code) {
                    Err(b) => Err(b),
                    Ok(e) => Ok(if_text(ops@, value, a, e, depth)),
                },
            },
            _ => Err(CodeFailure::Cond(bb)),
        },
        Structured::Br(d) => Ok(line_at(depth, "br "@ + decimal(d as nat))),
        Structured::Return => Ok(match code.return_local {
            Some(l) => line_at(depth, "local.get "@ + decimal(l as nat)),
            None => Seq::empty(),
        } + line_at(depth, "return"@)),
        Structured::Unreachable => Ok(line_at(depth, "unreachable"@)),
    }
}

/// Trees one after the other, all at `depth`.
pub open spec fn items_text(ts: Seq<Structured>, depth: nat, code: BlockCode) -> Result<Seq<char>, CodeFailure>
    decreases ts, 0nat,
{
    if ts.len() == 0 {
        Ok(Seq::empty())
    } else {
        match items_text(ts.subrange(0, ts.len() - 1), depth, code) {
            Err(b) => Err(b),
            Ok(s) => match tree_text(ts[ts.len() - 1], depth, code) {
                Err(b) => Err(b),
                Ok(x) => Ok(s + x),
            },
        }
    }
}

fn push_pad(out: &mut String, depth: usize)
    ensures
        final(out)@ == old(out)@ + pad(depth as nat),
{
    let mut i: usize = 0;
    while i < depth
        invariant
            i <= depth,
            out@ == old(out)@ + pad(i as nat),
        decreases depth - i,
    {
        push_char(out, ' ');
        push_char(out, ' ');
        assert(out@ =~= old(out)@ + pad((i + 1) as nat));
        i = i + 1;
    }
}

fn push_line(out: &mut String, depth: usize, text: &str)
    ensures
        final(out)@ == old(out)@ + line_at(depth as nat, text@),
{
    push_pad(out, depth);
    push_str(out, text);
    push_char(out, '\n');
    assert(final(out)@ =~= old(out)@ + line_at(depth as nat, text@));
}

fn push_lines(out: &mut String, ls: &Vec<String>, depth: usize)
    ensures
        final(out)@ == old(out)@ + lines_at(ls@, depth as nat),
{
    let mut i: usize = 0;
    assert(ls@.take(0) =~= Seq::<String>::empty());
    while i < ls.len()
        invariant
            i <= ls@.len(),
            out@ == old(out)@ + lines_at(ls@.take(i as int), depth as nat),
        decreases ls@.len() - i,
    {
        push_line(out, depth, ls[i].as_str());
        proof {
            let t = ls@.take(i + 1);
            assert(t.drop_last() =~= ls@.take(i as int));
            assert(t.last() == ls@[i as int]);
        }
        assert(out@ =~= old(out)@ + lines_at(ls@.take(i + 1), depth as nat));
        i = i + 1;
    }
    assert(ls@.take(ls@.len() as int) =~= ls@);
}

/// Emits a structured tree at `depth`: `block`, `loop` and `if` with
/// their `end`, the code of each block, and `br` with its depth. `Err`
/// names the first code, in preorder, that has no wasm form.
pub fn emit_structured(out: &mut String, tree: &Structured, depth: usize, code: &BlockCode) -> (r: Result<(), CodeFailure>)
    requires
        code_covers(*tree, *code),
        depth + nesting(*tree) <= usize::MAX,
    ensures
        match tree_text(*tree, depth as nat, *code) {
            Ok(s) => r is Ok && final(out)@ == old(out)@ + s,
            Err(b) => r == Err::<(), CodeFailure>(b),
        },
    decreases tree, 2nat,
{
    match tree {
        Structured::Block(items) => {
            push_line(out, depth, "block");
            match emit_items(out, items, depth + 1, code) {
                Err(b) => return Err(b),
                Ok(()) => {},
            }
            push_line(out, depth, "end");
        },
        Structured::Loop(inner) => {
            push_line(out, depth, "loop");
            proof {
                assert(decreases_to!(*tree => **inner));
            }
            match emit_structured(out, inner, depth + 1, code) {
                Err(b) => return Err(b),
                Ok(()) => {},
            }
            push_line(out, depth, "end");
        },
        Structured::Simple(bb) => {
            match &code.stmts[bb.index()] {
                Ok(ls) => push_lines(out, ls, depth),
                Err(_) => return Err(CodeFailure::Stmts(*bb)),
            }
        },
        Structured::If { .. } => {
            return emit_if(out, tree, depth, code);
        },
        Structured::Br(d) => {
            push_pad(out, depth);
            push_str(out, "br ");
            push_decimal(out, *d as usize);
            push_char(out, '\n');
        },
        Structured::Return => {
            match code.return_local {
                Some(l) => {
                    push_pad(out, depth);
                    push_str(out, "local.get ");
                    push_decimal(out, l as usize);
                    push_char(out, '\n');
                },
                None => {},
            }
            push_line(out, depth, "return");
        },
        Structured::Unreachable => {
            push_line(out, depth, "unreachable");
        },
    }
    Ok(())
}

/// The text of an `if` around texts of its arms.
pub open spec fn if_text(ops: Seq<String>, value: u128, a: Seq<char>, e: Seq<char>, depth: nat) -> Seq<char> {
    lines_at(ops, depth) + line_at(depth, "i32.const "@ + decimal(value as nat)) + line_at(depth, "i32.eq"@)
        + line_at(depth, "if"@) + a + line_at(depth, "else"@) + e + line_at(depth, "end"@)
}

#[verifier::rlimit(40)]
fn emit_if(out: &mut String, tree: &Structured, depth: usize, code: &BlockCode) -> (r: Result<(), CodeFailure>)
    requires
        tree is If,
        code_covers(*tree, *code),
        depth + nesting(*tree) <= usize::MAX,
    ensures
        match tree_text(*tree, depth as nat, *code) {
            Ok(s) => r is Ok && final(out)@ == old(out)@ + s,
            Err(b) => r == Err::<(), CodeFailure>(b),
        },
    decreases tree, 1nat,
{
    match tree {
        Structured::If { bb, then, els } => {
            match &code.conds[bb.index()] {
                Some((Ok(ops), value)) => {
                    let ghost d = depth as nat;
                    let ghost o0 = out@;
                    push_lines(out, ops, depth);
                    push_pad(out, depth);
                    push_str(out, "i32.const ");
                    push_decimal_u128(out, *value);
                    push_char(out, '\n');
                    push_line(out, depth, "i32.eq");
                    push_line(out, depth, "if");
                    let ghost head = lines_at(ops@, d) + line_at(d, "i32.const "@ + decimal(*value as nat)) + line_at(d, "i32.eq"@)
                        + line_at(d, "if"@);
                    assert(out@ =~= o0 + head);
                    let ghost o2 = out@;
                    proof {
                        assert(decreases_to!(*tree => *then));
                        assert(decreases_to!(*tree => *els));
                    }
                    match emit_items(out, then, depth + 1, code) {
                        Err(b) => return Err(b),
                        Ok(()) => {},
                    }
                    let ghost o3 = out@;
                    push_line(out, depth, "else");
                    let ghost o4 = out@;
                    match emit_items(out, els, depth + 1, code) {
                        Err(b) => return Err(b),
                        Ok(()) => {},
                    }
                    let ghost o5 = out@;
                    push_line(out, depth, "end");
                    proof {
                        let a = items_text(then@, d + 1, *code)->Ok_0;
                        let e = items_text(els@, d + 1, *code)->Ok_0;
                        assert(o3 == o2 + a);
                        assert(o5 == o4 + e);
                        assert(out@ =~= o0 + if_text(ops@, *value, a, e, d));
                    }
                    Ok(())
                },
                _ => Err(CodeFailure::Cond(*bb)),
            }
        },
        _ => Ok(()),
    }
}

fn emit_items(out: &mut String, items: &Vec<Structured>, depth: usize, code: &BlockCode) -> (r: Result<(), CodeFailure>)
    requires
        code_covers_all(items@, *code),
        depth + nesting_all(items@) <= usize::MAX,
    ensures
        match items_text(items@, depth as nat, *code) {
            Ok(s) => r is Ok && final(out)@ == old(out)@ + s,
            Err(b) => r == Err::<(), CodeFailure>(b),
        },
    decreases items, 0nat,
{
    let ghost s = items@;
    let mut i: usize = 0;
    assert(s.take(0) =~= Seq::<Structured>::empty());
    assert(old(out)@ + Seq::<char>::empty() =~= old(out)@);
    while i < items.len()
        invariant
            i <= s.len(),
            s == items@,
            code_covers_all(s, *code),
            depth + nesting_all(s) <= usize::MAX,
            items_text(s.take(i as int), depth as nat, *code) matches Ok(p) && out@ == old(out)@ + p,
        decreases s.len() - i,
    {
        proof {
            assert(decreases_to!(*items => items@));
            assert(decreases_to!(items@ => items@[i as int]));
            let t = s.take(i + 1);
            assert(t.subrange(0, t.len() - 1) =~= s.take(i as int));
            assert(t[t.len() - 1] == s[i as int]);
            lemma_nesting_all_bounds(s, i as int);
            assert(code_covers(s[i as int], *code));
        }
        match emit_structured(out, &items[i], depth, code) {
            Err(b) => {
                proof {
                    lemma_items_text_err(s, i + 1, depth as nat, *code);
                }
                return Err(b);
            },
            Ok(()) => {},
        }
        i = i + 1;
    }
    assert(s.take(s.len() as int) =~= s);
    Ok(())
}

proof fn lemma_items_text_err(s: Seq<Structured>, k: int, depth: nat, code: BlockCode)
    requires
        0 <= k <= s.len(),
        items_text(s.take(k), depth, code) is Err,
    ensures
        items_text(s, depth, code) == items_text(s.take(k), depth, code),
    decreases s.len(),
{
    if k < s.len() {
        let d = s.subrange(0, s.len() - 1);
        assert(d.take(k) =~= s.take(k));
        lemma_items_text_err(d, k, depth, code);
    } else {
        assert(s.take(k) =~= s);
    }
}


/// The 32 bits of an `i32`, read as an unsigned number.
pub open spec fn u32_bits(a: int) -> int {
    if a < 0 {
        a + 0x1_0000_0000
    } else {
        a
    }
}

/// Division that rounds toward zero.
pub open spec fn trunc_div(a: int, b: int) -> int {
    let q = (if a < 0 { -a } else { a }) / (if b < 0 { -b } else { b });
    if (a < 0) == (b < 0) {
        q
    } else {
        -q
    }
}

/// What a binary operator of the MIR means on two `Int`s (signed, 32
/// bits) where the result fits: comparisons give 1 or 0.
pub open spec fn mir_int_op(op: BinOp, a: int, b: int) -> Option<int> {
    match op {
        BinOp::Add => Some(a + b),
        BinOp::Sub => Some(a - b),
        BinOp::Div => if b == 0 { None } else { Some(trunc_div(a, b)) },
        BinOp::Rem => if b == 0 { None } else { Some(a - b * trunc_div(a, b)) },
        BinOp::Eq => Some(if a == b { 1int } else { 0 }),
        BinOp::Ne => Some(if a != b { 1int } else { 0 }),
        BinOp::Lt => Some(if a < b { 1int } else { 0 }),
        BinOp::Le => Some(if a <= b { 1int } else { 0 }),
        BinOp::Gt => Some(if a > b { 1int } else { 0 }),
        BinOp::Ge => Some(if a >= b { 1int } else { 0 }),
        BinOp::Mul => Some(a * b),
    }
}

/// What the WebAssembly instruction named `instr` leaves on two `i32`
/// operands, as unsigned bits: `_s` reads them as signed, `_u` as
/// unsigned; a division by zero or whose quotient does not fit traps.
pub open spec fn wasm_i32_op(instr: Seq<char>, a: int, b: int) -> Option<int> {
    let ua = u32_bits(a);
    let ub = u32_bits(b);
    let flag = |c: bool| if c { 1int } else { 0 };
    if instr == "i32.add"@ {
        Some((ua + ub) % 0x1_0000_0000)
    } else if instr == "i32.sub"@ {
        Some((ua - ub + 0x1_0000_0000) % 0x1_0000_0000)
    } else if instr == "i32.mul"@ {
        Some((ua * ub) % 0x1_0000_0000)
    } else if instr == "i32.div_s"@ {
        if b == 0 || trunc_div(a, b) >= 0x8000_0000 { None } else { Some(u32_bits(trunc_div(a, b))) }
    } else if instr == "i32.div_u"@ {
        if b == 0 { None } else { Some(ua / ub) }
    } else if instr == "i32.rem_s"@ {
        if b == 0 { None } else { Some(u32_bits(a - b * trunc_div(a, b))) }
    } else if instr == "i32.rem_u"@ {
        if b == 0 { None } else { Some(ua % ub) }
    } else if instr == "i32.eq"@ {
        Some(flag(a == b))
    } else if instr == "i32.ne"@ {
        Some(flag(a != b))
    } else if instr == "i32.lt_s"@ {
        Some(flag(a < b))
    } else if instr == "i32.lt_u"@ {
        Some(flag(ua < ub))
    } else if instr == "i32.le_s"@ {
        Some(flag(a <= b))
    } else if instr == "i32.le_u"@ {
        Some(flag(ua <= ub))
    } else if instr == "i32.gt_s"@ {
        Some(flag(a > b))
    } else if instr == "i32.gt_u"@ {
        Some(flag(ua > ub))
    } else if instr == "i32.ge_s"@ {
        Some(flag(a >= b))
    } else if instr == "i32.ge_u"@ {
        Some(flag(ua >= ub))
    } else {
        None
    }
}

/// A number that tells the names of the `i32` instructions apart: their
/// length and three of their characters.
spec fn name_code(s: Seq<char>) -> int {
    s.len() * 1000000 + (s[4] as int) * 10000 + (s[5] as int) * 100 + (s[s.len() - 1] as int)
}

/// The instruction written for an operator on `Int`s computes what the
/// operator means: comparisons are signed, division and remainder round
/// toward zero, and `+`, `-` and `*` give the sum, difference and product
/// wherever they fit in 32 bits.
pub proof fn lemma_int_op_meaning(op: BinOp, a: i32, b: i32)
    ensures
        mir_int_op(op, a as int, b as int) is Some && i32::MIN <= mir_int_op(op, a as int, b as int)->0 <= i32::MAX
            ==> wasm_i32_op(bin_op_spec(op, false), a as int, b as int) == Some(
            u32_bits(mir_int_op(op, a as int, b as int)->0),
        ),
{
    reveal_strlit("i32.add");
    reveal_strlit("i32.sub");
    reveal_strlit("i32.mul");
    reveal_strlit("i32.div_s");
    reveal_strlit("i32.div_u");
    reveal_strlit("i32.rem_s");
    reveal_strlit("i32.rem_u");
    reveal_strlit("i32.eq");
    reveal_strlit("i32.ne");
    reveal_strlit("i32.lt_s");
    reveal_strlit("i32.lt_u");
    reveal_strlit("i32.le_s");
    reveal_strlit("i32.le_u");
    reveal_strlit("i32.gt_s");
    reveal_strlit("i32.gt_u");
    reveal_strlit("i32.ge_s");
    reveal_strlit("i32.ge_u");
    let x = a as int;
    let y = b as int;
    assert(name_code("i32.add"@) == 7980100);
    assert(name_code("i32.sub"@) == 8161798);
    assert(name_code("i32.div_s"@) == 10010615);
    assert(name_code("i32.div_u"@) == 10010617);
    assert(name_code("i32.rem_s"@) == 10150215);
    assert(name_code("i32.rem_u"@) == 10150217);
    assert(name_code("i32.eq"@) == 7021413);
    assert(name_code("i32.ne"@) == 7110201);
    assert(name_code("i32.lt_s"@) == 9091715);
    assert(name_code("i32.lt_u"@) == 9091717);
    assert(name_code("i32.le_s"@) == 9090215);
    assert(name_code("i32.le_u"@) == 9090217);
    assert(name_code("i32.gt_s"@) == 9041715);
    assert(name_code("i32.gt_u"@) == 9041717);
    assert(name_code("i32.ge_s"@) == 9040215);
    assert(name_code("i32.ge_u"@) == 9040217);
    if i32::MIN <= x + y <= i32::MAX {
        assert((u32_bits(x) + u32_bits(y)) % 0x1_0000_0000 == u32_bits(x + y));
    }
    if i32::MIN <= x - y <= i32::MAX {
        assert((u32_bits(x) - u32_bits(y) + 0x1_0000_0000) % 0x1_0000_0000 == u32_bits(x - y));
    }
    assert(name_code("i32.mul"@) == 7 * 1000000 + 109 * 10000 + 117 * 100 + 108);
    let ua = u32_bits(x);
    let ub = u32_bits(y);
    let q: int = (if x < 0 { y } else { 0 }) + (if y < 0 { x } else { 0 }) + (if x < 0 && y < 0 { 0x1_0000_0000int } else { 0 });
    assert(ua * ub == x * y + 0x1_0000_0000 * q) by (nonlinear_arith)
        requires
            ua == (if x < 0 { x + 0x1_0000_0000 } else { x }),
            ub == (if y < 0 { y + 0x1_0000_0000 } else { y }),
            q == (if x < 0 { y } else { 0 }) + (if y < 0 { x } else { 0 }) + (if x < 0 && y < 0 { 0x1_0000_0000int } else { 0 }),
    ;
    vstd::arithmetic::div_mod::lemma_mod_multiples_vanish(q, x * y, 0x1_0000_0000);
    let z = x * y;
    if i32::MIN <= z <= i32::MAX {
        assert(z % 0x1_0000_0000 == u32_bits(z));
    }
}

} // verus!
