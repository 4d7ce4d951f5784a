//! The whole WebAssembly text module: the host imports the natives ask
//! for, the pool of string literals in linear memory, the types of the
//! structs and enums, the functions, and the entry point.
//!
//! Linear memory only holds the string literals; the heap is WasmGC's, and
//! no shadow stack is needed (biwa has no `&`, so no local has its address
//! taken).

use vstd::prelude::*;
use vstd::utf8::encode_utf8;
use crate::decimal::{decimal, push_decimal, spec_split, split_chars, views_of};
use crate::text::{chars_of, push_char, push_str};
use crate::wasm_text::{WasmError, escape_bytes, escape_data, is_white, is_white_char, memory_pages,
    memory_pages_spec, string_layout, total_len, trim_end_seq, trim_start_seq};

verus! {

/// A field of a struct or of an enum variant: its name and its wasm type
/// (or why it has none).
#[derive(Debug)]
pub struct FieldDef {
    pub name: String,
    pub ty: Result<String, WasmError>,
}

/// A struct or enum type of the module, by its wasm name. An enum is a
/// parent type holding the tag, and a child type for each variant adding
/// its fields.
#[derive(Debug)]
pub enum TypeDef {
    Struct { name: String, fields: Vec<FieldDef> },
    Enum { name: String, variants: Vec<(String, Vec<FieldDef>)> },
}

/// What a module is made of.
#[derive(Debug)]
pub struct ModuleParts {
    /// The wasm name of the entry function, if there is one.
    pub entry: Option<String>,
    /// WAT the natives put before everything (the host imports).
    pub natives: Vec<String>,
    /// The string literals, in the order of their ids.
    pub strings: Vec<String>,
    pub types: Vec<TypeDef>,
    /// Each function instance as emitted (or why it could not be).
    pub funcs: Vec<Result<String, WasmError>>,
}

/// The host function that makes a string from bytes of linear memory,
/// the one host function the compiler itself names.
pub open spec fn string_const_import() -> Seq<char> {
    "(import \"biwa:runtime\" \"string_const\"\n    (func $__biwa_string_const (param i32 i32) (result externref)))"@
}

/// Lines of native WAT, trimmed at the end and indented by two spaces;
/// blank lines are left out.
pub open spec fn prelude_lines(pieces: Seq<Seq<char>>) -> Seq<char>
    decreases pieces.len(),
{
    if pieces.len() == 0 {
        Seq::empty()
    } else {
        let rest = prelude_lines(pieces.drop_last());
        let l = trim_end_seq(pieces.last());
        if trim_start_seq(l).len() == 0 {
            rest
        } else {
            rest + "  "@ + l + seq!['\n']
        }
    }
}

pub open spec fn natives_text(ns: Seq<String>) -> Seq<char>
    decreases ns.len(),
{
    if ns.len() == 0 {
        Seq::empty()
    } else {
        natives_text(ns.drop_last()) + prelude_lines(spec_split(ns.last()@, '\n'))
    }
}

/// The byte length of each string, cut to 32 bits.
pub open spec fn string_lens(ss: Seq<String>) -> Seq<u32> {
    ss.map_values(|s: String| encode_utf8(s@).len() as u32)
}

/// The data segments: each string at its offset.
pub open spec fn data_lines(ss: Seq<String>, lens: Seq<u32>) -> Seq<char>
    decreases ss.len(),
{
    if ss.len() == 0 {
        Seq::empty()
    } else {
        let k = ss.len() - 1;
        data_lines(ss.drop_last(), lens) + "  (data (i32.const "@ + decimal(total_len(lens.take(k)))
            + ") \""@ + escape_bytes(encode_utf8(ss.last()@)) + "\")\n"@
    }
}

/// The memory and its data, for a module with string literals.
pub open spec fn strings_text(ss: Seq<String>) -> Seq<char> {
    if ss.len() == 0 {
        Seq::empty()
    } else {
        let lens = string_lens(ss);
        "  (memory (export \"memory\") "@ + decimal(memory_pages_spec(total_len(lens))) + ")\n"@ + data_lines(ss, lens)
            + "\n"@
    }
}

/// ` (field $<name> (mut <type>))` for each field; `Err` is the place of
/// the first field whose type has no wasm form.
pub open spec fn fields_text(fs: Seq<FieldDef>) -> Result<Seq<char>, nat>
    decreases fs.len(),
{
    if fs.len() == 0 {
        Ok(Seq::empty())
    } else {
        match fields_text(fs.drop_last()) {
            Err(i) => Err(i),
            Ok(t) => match fs.last().ty {
                Err(_) => Err((fs.len() - 1) as nat),
                Ok(w) => Ok(t + " (field $"@ + fs.last().name@ + " (mut "@ + w@ + "))"@),
            },
        }
    }
}

/// Where a module could not be emitted.
pub ghost enum ModuleFailure {
    NoEntryPoint,
    /// A field of a type: the type, the variant (0 for a struct) and the
    /// field.
    Field(nat, nat, nat),
    /// A function instance.
    Func(nat),
}

/// The tag field every enum type starts with.
pub open spec fn tag_field() -> Seq<char> {
    " (field $__tag (mut i32))"@
}

/// The child types of an enum's variants.
pub open spec fn variants_text(parent: Seq<char>, vs: Seq<(String, Vec<FieldDef>)>) -> Result<Seq<char>, (nat, nat)>
    decreases vs.len(),
{
    if vs.len() == 0 {
        Ok(Seq::empty())
    } else {
        match variants_text(parent, vs.drop_last()) {
            Err(e) => Err(e),
            Ok(t) => match fields_text(vs.last().1@) {
                Err(f) => Err(((vs.len() - 1) as nat, f)),
                Ok(fs) => Ok(t + "    (type $"@ + vs.last().0@ + " (sub $"@ + parent + " (struct"@ + tag_field() + fs
                    + ")))\n"@),
            },
        }
    }
}

/// The text of one type definition, or the variant and field that failed.
pub open spec fn type_text(d: TypeDef) -> Result<Seq<char>, (nat, nat)> {
    match d {
        TypeDef::Struct { name, fields } => match fields_text(fields@) {
            Err(f) => Err((0, f)),
            Ok(fs) => Ok("    (type $"@ + name@ + " (struct"@ + fs + "))\n"@),
        },
        TypeDef::Enum { name, variants } => match variants_text(name@, variants@) {
            Err(e) => Err(e),
            Ok(vt) => Ok("    (type $"@ + name@ + " (sub (struct (field $__tag (mut i32)))))\n"@ + vt),
        },
    }
}

pub open spec fn types_body(ds: Seq<TypeDef>) -> Result<Seq<char>, ModuleFailure>
    decreases ds.len(),
{
    if ds.len() == 0 {
        Ok(Seq::empty())
    } else {
        match types_body(ds.drop_last()) {
            Err(e) => Err(e),
            Ok(t) => match type_text(ds.last()) {
                Err((v, f)) => Err(ModuleFailure::Field((ds.len() - 1) as nat, v, f)),
                Ok(x) => Ok(t + x),
            },
        }
    }
}

/// The types, in one recursive group since they may refer to each other.
pub open spec fn types_text(ds: Seq<TypeDef>) -> Result<Seq<char>, ModuleFailure> {
    if ds.len() == 0 {
        Ok(Seq::empty())
    } else {
        match types_body(ds) {
            Err(e) => Err(e),
            Ok(t) => Ok("  (rec\n"@ + t + "  )\n\n"@),
        }
    }
}

/// The functions, each followed by an empty line.
pub open spec fn funcs_text(fs: Seq<Result<String, WasmError>>) -> Result<Seq<char>, ModuleFailure>
    decreases fs.len(),
{
    if fs.len() == 0 {
        Ok(Seq::empty())
    } else {
        match funcs_text(fs.drop_last()) {
            Err(e) => Err(e),
            Ok(t) => match fs.last() {
                Err(_) => Err(ModuleFailure::Func((fs.len() - 1) as nat)),
                Ok(b) => Ok(t + b@ + "\n"@),
            },
        }
    }
}

/// The module: a missing entry point is told first, then a type, then a
/// function, that has no wasm form.
pub open spec fn module_text(m: ModuleParts) -> Result<Seq<char>, ModuleFailure> {
    match m.entry {
        None => Err(ModuleFailure::NoEntryPoint),
        Some(entry) => match types_text(m.types@) {
            Err(e) => Err(e),
            Ok(tt) => match funcs_text(m.funcs@) {
                Err(e) => Err(e),
                Ok(ft) => Ok("(module\n"@ + natives_text(m.natives@) + "  "@ + string_const_import() + "\n\n"@
                    + strings_text(m.strings@) + tt + ft + "  (export \"__biwa_entrypoint\" (func $"@ + entry@
                    + "))\n)\n"@),
            },
        },
    }
}

/// The field a failure points at.
pub open spec fn field_at(d: TypeDef, v: nat, f: nat) -> FieldDef {
    match d {
        TypeDef::Struct { fields, .. } => fields@[f as int],
        TypeDef::Enum { variants, .. } => variants@[v as int].1@[f as int],
    }
}

proof fn lemma_trim_start_empty(s: Seq<char>)
    ensures
        (trim_start_seq(s).len() == 0) == (forall|k: int| 0 <= k < s.len() ==> is_white(#[trigger] s[k])),
    decreases s.len(),
{
    if s.len() > 0 {
        lemma_trim_start_empty(s.drop_first());
        if is_white(s[0]) {
            assert forall|k: int| 0 <= k < s.len() && (forall|j: int| 0 <= j < s.drop_first().len() ==> is_white(#[trigger] s.drop_first()[j])) implies is_white(#[trigger] s[k]) by {
                if k > 0 {
                    assert(s[k] == s.drop_first()[k - 1]);
                }
            }
            assert forall|j: int| 0 <= j < s.drop_first().len() && (forall|k: int| 0 <= k < s.len() ==> is_white(#[trigger] s[k])) implies is_white(#[trigger] s.drop_first()[j]) by {
                assert(s.drop_first()[j] == s[j + 1]);
            }
        }
    }
}

/// The line trimmed at its end, and whether nothing else is left of it.
fn trim_end_of(cs: &Vec<char>) -> (r: (Vec<char>, bool))
    ensures
        r.0@ == trim_end_seq(cs@),
        r.1 == (trim_start_seq(trim_end_seq(cs@)).len() == 0),
{
    let mut e: usize = cs.len();
    assert(cs@.take(e as int) =~= cs@);
    while e > 0 && is_white_char(cs[e - 1])
        invariant
            e <= cs@.len(),
            trim_end_seq(cs@) == trim_end_seq(cs@.take(e as int)),
        decreases e,
    {
        proof {
            let t = cs@.take(e as int);
            assert(t.last() == cs@[e - 1]);
            assert(t.drop_last() =~= cs@.take(e - 1));
        }
        e = e - 1;
    }
    proof {
        let t = cs@.take(e as int);
        if e > 0 {
            assert(t.last() == cs@[e - 1]);
        }
        assert(trim_end_seq(t) == t);
    }
    let mut out: Vec<char> = Vec::new();
    let mut blank = true;
    let mut k: usize = 0;
    while k < e
        invariant
            k <= e <= cs@.len(),
            out@ == cs@.take(k as int),
            blank == (forall|j: int| 0 <= j < k ==> is_white(#[trigger] cs@[j])),
        decreases e - k,
    {
        if !is_white_char(cs[k]) {
            blank = false;
        }
        out.push(cs[k]);
        assert(out@ =~= cs@.take(k + 1));
        k = k + 1;
    }
    proof {
        let t = cs@.take(e as int);
        lemma_trim_start_empty(t);
        assert(forall|j: int| 0 <= j < t.len() ==> #[trigger] t[j] == cs@[j]);
    }
    (out, blank)
}

fn push_prelude(out: &mut String, native: &str)
    ensures
        final(out)@ == old(out)@ + prelude_lines(spec_split(native@, '\n')),
{
    let cs = chars_of(native);
    let pieces = split_chars(cs.as_slice(), '\n');
    let ghost pv = views_of(pieces@);
    let mut j: usize = 0;
    assert(pv.take(0) =~= Seq::<Seq<char>>::empty());
    assert(old(out)@ + prelude_lines(pv.take(0)) =~= old(out)@);
    while j < pieces.len()
        invariant
            pv == views_of(pieces@),
            pv == spec_split(native@, '\n'),
            j <= pieces@.len(),
            out@ == old(out)@ + prelude_lines(pv.take(j as int)),
        decreases pieces@.len() - j,
    {
        let (l, blank) = trim_end_of(&pieces[j]);
        proof {
            let t = pv.take(j + 1);
            assert(t.drop_last() =~= pv.take(j as int));
            assert(t.last() == pieces@[j as int]@);
        }
        if !blank {
            let ghost before = out@;
            push_str(out, "  ");
            let mut k: usize = 0;
            while k < l.len()
                invariant
                    k <= l@.len(),
                    out@ == before + "  "@ + l@.take(k as int),
                decreases l@.len() - k,
            {
                push_char(out, l[k]);
                assert(out@ =~= before + "  "@ + l@.take(k + 1));
                k = k + 1;
            }
            push_char(out, '\n');
            assert(l@.take(l@.len() as int) =~= l@);
            assert(out@ =~= old(out)@ + prelude_lines(pv.take(j + 1)));
        }
        j = j + 1;
    }
    assert(pv.take(pv.len() as int) =~= pv);
}

/// Emits fields; `Err` holds the place of the first field with no wasm
/// form, and why.
fn emit_fields(fields: Vec<FieldDef>) -> (r: Result<String, (usize, WasmError)>)
    ensures
        match fields_text(fields@) {
            Ok(t) => r matches Ok(x) && x@ == t,
            Err(i) => r matches Err((j, e)) && j == i && i < fields@.len() && fields@[i as int].ty == Err::<String, WasmError>(e),
        },
{
    let ghost fs = fields@;
    let n = fields.len();
    let mut rest = fields;
    let mut out = String::new();
    let mut i: usize = 0;
    assert(fs.skip(0) =~= fs);
    assert(fs.take(0) =~= Seq::<FieldDef>::empty());
    while i < n
        invariant
            n == fs.len(),
            i <= n,
            rest@ == fs.skip(i as int),
            fs == fields@,
            fields_text(fs.take(i as int)) == Ok::<Seq<char>, nat>(out@),
        decreases n - i,
    {
        let f = rest.remove(0);
        assert(f == fs[i as int]);
        assert(rest@ =~= fs.skip(i + 1));
        proof {
            let t = fs.take(i + 1);
            assert(t.drop_last() =~= fs.take(i as int));
            assert(t.last() == fs[i as int]);
        }
        match f.ty {
            Err(e) => {
                proof {
                    assert(fields_text(fs.take(i + 1)) == Err::<Seq<char>, nat>(i as nat));
                    lemma_fields_err(fs, (i + 1) as nat);
                }
                return Err((i, e));
            },
            Ok(w) => {
                push_str(&mut out, " (field $");
                push_str(&mut out, f.name.as_str());
                push_str(&mut out, " (mut ");
                push_str(&mut out, w.as_str());
                push_str(&mut out, "))");
            },
        }
        i = i + 1;
    }
    assert(fs.take(n as int) =~= fs);
    Ok(out)
}

proof fn lemma_fields_err(fs: Seq<FieldDef>, k: nat)
    requires
        k <= fs.len(),
        fields_text(fs.take(k as int)) is Err,
    ensures
        fields_text(fs) == fields_text(fs.take(k as int)),
    decreases fs.len() - k,
{
    if k < fs.len() {
        let t = fs.take(k + 1 as int);
        assert(t.drop_last() =~= fs.take(k as int));
        lemma_fields_err(fs, k + 1);
    } else {
        assert(fs.take(k as int) =~= fs);
    }
}

proof fn lemma_variants_err(p: Seq<char>, vs: Seq<(String, Vec<FieldDef>)>, k: nat)
    requires
        k <= vs.len(),
        variants_text(p, vs.take(k as int)) is Err,
    ensures
        variants_text(p, vs) == variants_text(p, vs.take(k as int)),
    decreases vs.len() - k,
{
    if k < vs.len() {
        let t = vs.take(k + 1 as int);
        assert(t.drop_last() =~= vs.take(k as int));
        lemma_variants_err(p, vs, k + 1);
    } else {
        assert(vs.take(k as int) =~= vs);
    }
}

/// Emits one type definition; `Err` holds the variant and the field that
/// have no wasm form, and why.
fn emit_type(d: TypeDef) -> (r: Result<String, (usize, usize, WasmError)>)
    ensures
        match type_text(d) {
            Ok(t) => r matches Ok(x) && x@ == t,
            Err((v, f)) => r matches Err((a, b, e)) && a == v && b == f && field_at(d, v, f).ty == Err::<String, WasmError>(e),
        },
{
    let ghost dv = d;
    match d {
        TypeDef::Struct { name, fields } => {
            match emit_fields(fields) {
                Err((i, e)) => Err((0, i, e)),
                Ok(fs) => {
                    let mut out = String::new();
                    push_str(&mut out, "    (type $");
                    push_str(&mut out, name.as_str());
                    push_str(&mut out, " (struct");
                    push_str(&mut out, fs.as_str());
                    push_str(&mut out, "))\n");
                    Ok(out)
                },
            }
        },
        TypeDef::Enum { name, variants } => {
            let ghost vs = variants@;
            let mut out = String::new();
            push_str(&mut out, "    (type $");
            push_str(&mut out, name.as_str());
            push_str(&mut out, " (sub (struct (field $__tag (mut i32)))))\n");
            let ghost head = out@;
            let n = variants.len();
            let mut rest = variants;
            let mut i: usize = 0;
            assert(vs.skip(0) =~= vs);
            assert(vs.take(0) =~= Seq::<(String, Vec<FieldDef>)>::empty());
            assert(head + Seq::<char>::empty() =~= head);
            while i < n
                invariant
                    n == vs.len(),
                    i <= n,
                    rest@ == vs.skip(i as int),
                    dv == d,
                    dv == (TypeDef::Enum { name, variants: dv->variants }),
                    vs == dv->variants@,
                    head == "    (type $"@ + name@ + " (sub (struct (field $__tag (mut i32)))))\n"@,
                    variants_text(name@, vs.take(i as int)) matches Ok(t) && out@ == head + t,
                decreases n - i,
            {
                let (child, fields) = rest.remove(0);
                assert((child, fields) == vs[i as int]);
                assert(rest@ =~= vs.skip(i + 1));
                proof {
                    let t = vs.take(i + 1);
                    assert(t.drop_last() =~= vs.take(i as int));
                    assert(t.last() == vs[i as int]);
                }
                match emit_fields(fields) {
                    Err((f, e)) => {
                        proof {
                            assert(vs[i as int].1@ == fields@);
                            assert(variants_text(name@, vs.take(i + 1)) == Err::<Seq<char>, (nat, nat)>((i as nat, f as nat)));
                            lemma_variants_err(name@, vs, (i + 1) as nat);
                        }
                        return Err((i, f, e));
                    },
                    Ok(fs) => {
                        push_str(&mut out, "    (type $");
                        push_str(&mut out, child.as_str());
                        push_str(&mut out, " (sub $");
                        push_str(&mut out, name.as_str());
                        push_str(&mut out, " (struct");
                        push_str(&mut out, " (field $__tag (mut i32))");
                        push_str(&mut out, fs.as_str());
                        push_str(&mut out, ")))\n");
                    },
                }
                i = i + 1;
            }
            assert(vs.take(n as int) =~= vs);
            Ok(out)
        },
    }
}

fn push_natives(out: &mut String, natives: &Vec<String>)
    ensures
        final(out)@ == old(out)@ + natives_text(natives@),
{
    let mut i: usize = 0;
    assert(natives@.take(0) =~= Seq::<String>::empty());
    assert(old(out)@ + natives_text(natives@.take(0)) =~= old(out)@);
    while i < natives.len()
        invariant
            i <= natives@.len(),
            out@ == old(out)@ + natives_text(natives@.take(i as int)),
        decreases natives@.len() - i,
    {
        push_prelude(out, natives[i].as_str());
        proof {
            let t = natives@.take(i + 1);
            assert(t.drop_last() =~= natives@.take(i as int));
            assert(t.last() == natives@[i as int]);
        }
        assert(out@ =~= old(out)@ + natives_text(natives@.take(i + 1)));
        i = i + 1;
    }
    assert(natives@.take(natives@.len() as int) =~= natives@);
}

#[verifier::spinoff_prover]
fn push_strings(out: &mut String, strings: &Vec<String>)
    requires
        total_len(string_lens(strings@)) <= u32::MAX,
    ensures
        final(out)@ == old(out)@ + strings_text(strings@),
{
    if strings.len() == 0 {
        assert(final(out)@ =~= old(out)@ + strings_text(strings@));
        return;
    }
    let mut lens: Vec<u32> = Vec::new();
    let mut k: usize = 0;
    while k < strings.len()
        invariant
            k <= strings@.len(),
            lens@ == string_lens(strings@).take(k as int),
        decreases strings@.len() - k,
    {
        let b = strings[k].as_str().as_bytes();
        lens.push(#[verifier::truncate] (b.len() as u32));
        assert(lens@ =~= string_lens(strings@).take(k + 1));
        k = k + 1;
    }
    assert(lens@ =~= string_lens(strings@));
    let layout = string_layout(lens.as_slice());
    let last = strings.len() - 1;
    proof {
        let ls = lens@;
        assert(ls.take(last as int + 1) =~= ls);
        assert(ls.take(last as int + 1).drop_last() =~= ls.take(last as int));
    }
    let total = layout[last].0 + layout[last].1;
    let pages = memory_pages(total);
    push_str(out, "  (memory (export \"memory\") ");
    push_decimal(out, pages as usize);
    push_str(out, ")\n");
    let ghost o3 = out@;
    let mut j: usize = 0;
    assert(strings@.take(0) =~= Seq::<String>::empty());
    assert(o3 + data_lines(strings@.take(0), lens@) =~= o3);
    while j < strings.len()
        invariant
            j <= strings@.len(),
            layout@.len() == lens@.len(),
            lens@.len() == strings@.len(),
            forall|q: int| 0 <= q < lens@.len() ==> #[trigger] layout@[q] == (total_len(lens@.take(q)) as u32, lens@[q]),
            total_len(lens@) <= u32::MAX,
            out@ == o3 + data_lines(strings@.take(j as int), lens@),
        decreases strings@.len() - j,
    {
        let off = layout[j].0;
        proof {
            crate::wasm_text::lemma_strings_fit(lens@, j as int);
        }
        push_str(out, "  (data (i32.const ");
        push_decimal(out, off as usize);
        push_str(out, ") \"");
        let esc = escape_data(strings[j].as_str());
        push_str(out, esc.as_str());
        push_str(out, "\")\n");
        proof {
            let t = strings@.take(j + 1);
            assert(t.drop_last() =~= strings@.take(j as int));
            assert(t.last() == strings@[j as int]);
        }
        assert(out@ =~= o3 + data_lines(strings@.take(j + 1), lens@));
        j = j + 1;
    }
    assert(strings@.take(strings@.len() as int) =~= strings@);
    push_str(out, "\n");
    assert(final(out)@ =~= old(out)@ + strings_text(strings@));
}

#[verifier::spinoff_prover]
fn push_types(out: &mut String, types: Vec<TypeDef>) -> (r: Result<(), WasmError>)
    ensures
        match types_text(types@) {
            Ok(t) => r is Ok && final(out)@ == old(out)@ + t,
            Err(ModuleFailure::Field(t, v, f)) => r is Err && t < types@.len() && field_at(types@[t as int], v, f).ty
                == Err::<String, WasmError>(r->Err_0),
            Err(_) => false,
        },
{
    let ghost ts = types@;
    if types.len() == 0 {
        assert(final(out)@ =~= old(out)@ + Seq::<char>::empty());
        return Ok(());
    }
    push_str(out, "  (rec\n");
    let ghost o5 = out@;
    let n = types.len();
    let mut rest = types;
    let mut t: usize = 0;
    assert(ts.skip(0) =~= ts);
    assert(ts.take(0) =~= Seq::<TypeDef>::empty());
    assert(o5 + Seq::<char>::empty() =~= o5);
    while t < n
        invariant
            n == ts.len(),
            t <= n,
            rest@ == ts.skip(t as int),
            ts == types@,
            types_body(ts.take(t as int)) matches Ok(b) && out@ == o5 + b,
        decreases n - t,
    {
        let d = rest.remove(0);
        assert(d == ts[t as int]);
        assert(rest@ =~= ts.skip(t + 1));
        proof {
            let tk = ts.take(t + 1);
            assert(tk.drop_last() =~= ts.take(t as int));
            assert(tk.last() == ts[t as int]);
        }
        match emit_type(d) {
            Err((v, f, e)) => {
                proof {
                    assert(types_body(ts.take(t + 1)) == Err::<Seq<char>, ModuleFailure>(ModuleFailure::Field(t as nat, v as nat, f as nat)));
                    lemma_types_err(ts, (t + 1) as nat);
                }
                return Err(e);
            },
            Ok(x) => {
                push_str(out, x.as_str());
            },
        }
        t = t + 1;
    }
    assert(ts.take(n as int) =~= ts);
    push_str(out, "  )\n\n");
    assert(final(out)@ =~= old(out)@ + types_text(ts)->Ok_0);
    Ok(())
}

#[verifier::spinoff_prover]
fn push_funcs(out: &mut String, funcs: Vec<Result<String, WasmError>>) -> (r: Result<(), WasmError>)
    ensures
        match funcs_text(funcs@) {
            Ok(t) => r is Ok && final(out)@ == old(out)@ + t,
            Err(ModuleFailure::Func(i)) => r is Err && i < funcs@.len() && funcs@[i as int] == Err::<String, WasmError>(r->Err_0),
            Err(_) => false,
        },
{
    let ghost fs = funcs@;
    let n = funcs.len();
    let mut rest = funcs;
    let mut q: usize = 0;
    assert(fs.skip(0) =~= fs);
    assert(fs.take(0) =~= Seq::<Result<String, WasmError>>::empty());
    assert(old(out)@ + Seq::<char>::empty() =~= old(out)@);
    while q < n
        invariant
            n == fs.len(),
            q <= n,
            rest@ == fs.skip(q as int),
            fs == funcs@,
            funcs_text(fs.take(q as int)) matches Ok(b) && out@ == old(out)@ + b,
        decreases n - q,
    {
        let f = rest.remove(0);
        assert(f == fs[q as int]);
        assert(rest@ =~= fs.skip(q + 1));
        proof {
            let tk = fs.take(q + 1);
            assert(tk.drop_last() =~= fs.take(q as int));
            assert(tk.last() == fs[q as int]);
        }
        match f {
            Err(e) => {
                proof {
                    assert(funcs_text(fs.take(q + 1)) == Err::<Seq<char>, ModuleFailure>(ModuleFailure::Func(q as nat)));
                    lemma_funcs_err(fs, (q + 1) as nat);
                }
                return Err(e);
            },
            Ok(b) => {
                push_str(out, b.as_str());
                push_str(out, "\n");
            },
        }
        q = q + 1;
    }
    assert(fs.take(n as int) =~= fs);
    Ok(())
}

proof fn lemma_funcs_err_kind(fs: Seq<Result<String, WasmError>>)
    ensures
        funcs_text(fs) is Err ==> funcs_text(fs)->Err_0 is Func,
    decreases fs.len(),
{
    if fs.len() > 0 {
        lemma_funcs_err_kind(fs.drop_last());
    }
}

proof fn lemma_types_err_kind(ts: Seq<TypeDef>)
    ensures
        types_body(ts) is Err ==> types_body(ts)->Err_0 is Field,
    decreases ts.len(),
{
    if ts.len() > 0 {
        lemma_types_err_kind(ts.drop_last());
    }
}

/// Writes the module.
pub fn emit_module(m: ModuleParts) -> (r: Result<String, WasmError>)
    requires
        total_len(string_lens(m.strings@)) <= u32::MAX,
    ensures
        match module_text(m) {
            Ok(t) => r matches Ok(x) && x@ == t,
            Err(ModuleFailure::NoEntryPoint) => r == Err::<String, WasmError>(WasmError::NoEntryPoint),
            Err(ModuleFailure::Field(t, v, f)) => r is Err && t < m.types@.len() && field_at(m.types@[t as int], v, f).ty
                == Err::<String, WasmError>(r->Err_0),
            Err(ModuleFailure::Func(i)) => r is Err && i < m.funcs@.len() && m.funcs@[i as int] == Err::<String, WasmError>(
                r->Err_0,
            ),
        },
{
    proof {
        lemma_types_err_kind(m.types@);
        lemma_funcs_err_kind(m.funcs@);
    }
    let ModuleParts { entry, natives, strings, types, funcs } = m;
    let entry = match entry {
        None => {
            return Err(WasmError::NoEntryPoint);
        },
        Some(e) => e,
    };
    let mut out = String::new();
    push_str(&mut out, "(module\n");
    push_natives(&mut out, &natives);
    push_str(&mut out, "  ");
    push_str(&mut out, "(import \"biwa:runtime\" \"string_const\"\n    (func $__biwa_string_const (param i32 i32) (result externref)))");
    push_str(&mut out, "\n\n");
    push_strings(&mut out, &strings);
    match push_types(&mut out, types) {
        Err(e) => {
            return Err(e);
        },
        Ok(()) => {},
    }
    match push_funcs(&mut out, funcs) {
        Err(e) => {
            return Err(e);
        },
        Ok(()) => {},
    }
    push_str(&mut out, "  (export \"__biwa_entrypoint\" (func $");
    push_str(&mut out, entry.as_str());
    push_str(&mut out, "))\n)\n");
    Ok(out)
}

proof fn lemma_types_err(ts: Seq<TypeDef>, k: nat)
    requires
        k <= ts.len(),
        types_body(ts.take(k as int)) is Err,
    ensures
        types_body(ts) == types_body(ts.take(k as int)),
    decreases ts.len() - k,
{
    if k < ts.len() {
        let t = ts.take(k + 1 as int);
        assert(t.drop_last() =~= ts.take(k as int));
        lemma_types_err(ts, k + 1);
    } else {
        assert(ts.take(k as int) =~= ts);
    }
}

proof fn lemma_funcs_err(fs: Seq<Result<String, WasmError>>, k: nat)
    requires
        k <= fs.len(),
        funcs_text(fs.take(k as int)) is Err,
    ensures
        funcs_text(fs) == funcs_text(fs.take(k as int)),
    decreases fs.len() - k,
{
    if k < fs.len() {
        let t = fs.take(k + 1 as int);
        assert(t.drop_last() =~= fs.take(k as int));
        lemma_funcs_err(fs, k + 1);
    } else {
        assert(fs.take(k as int) =~= fs);
    }
}

// --- assembling ---

/// `wat::parse_str`: assembles WAT text into a wasm binary, or gives the
/// crate's error message. Trusted, and nothing is stated of its outcome:
/// besides the text, the crate reads an environment variable once per
/// process that decides whether an older syntax for component indices is
/// accepted, so the same text may assemble in one process and not another.
#[verifier::external_body]
fn wat_parse(text: &str) -> (r: Result<Vec<u8>, String>) {
    match wat::parse_str(text) {
        Ok(b) => Ok(b),
        Err(e) => Err(e.to_string()),
    }
}

/// What `wasmparser::Validator::validate_all`, with every wasm feature on,
/// says of a binary: `None` when it is valid, else the crate's message.
pub uninterp spec fn wasm_validation(binary: Seq<u8>) -> Option<Seq<char>>;

/// `wasmparser::Validator::validate_all` with `WasmFeatures::all()`.
/// Trusted: the outcome is the crate's, a function of the bytes alone;
/// which binaries it accepts is not stated here.
#[verifier::external_body]
fn validate_wasm(binary: &[u8]) -> (r: Result<(), String>)
    ensures
        r is Ok == wasm_validation(binary@) is None,
        r matches Err(x) ==> wasm_validation(binary@) == Some(x@),
{
    let mut validator = wasmparser::Validator::new_with_features(wasmparser::WasmFeatures::all());
    match validator.validate_all(binary) {
        Ok(_) => Ok(()),
        Err(e) => Err(e.to_string()),
    }
}

/// The outcome of assembling, given what validation said of the binary.
pub fn validation_outcome(binary: Vec<u8>, validation: Result<(), String>) -> (r: Result<Vec<u8>, String>)
    ensures
        match validation {
            Ok(()) => r matches Ok(x) && x@ == binary@,
            Err(m) => r matches Err(x) && x@ == "the generated wasm is invalid: "@ + m@,
        },
{
    match validation {
        Ok(()) => Ok(binary),
        Err(m) => {
            let mut s = String::new();
            push_str(&mut s, "the generated wasm is invalid: ");
            push_str(&mut s, m.as_str());
            Err(s)
        },
    }
}

/// What assembling gives once the text has been encoded: an encoding
/// error is passed on as it is, and an encoded binary is validated.
pub fn assembly_outcome(parsed: Result<Vec<u8>, String>) -> (r: Result<Vec<u8>, String>)
    ensures
        match parsed {
            Err(m) => r matches Err(x) && x@ == m@,
            Ok(b) => match wasm_validation(b@) {
                None => r matches Ok(x) && x@ == b@,
                Some(m) => r matches Err(x) && x@ == "the generated wasm is invalid: "@ + m,
            },
        },
{
    match parsed {
        Err(m) => Err(m),
        Ok(binary) => {
            let v = validate_wasm(binary.as_slice());
            validation_outcome(binary, v)
        },
    }
}

/// Turns WAT into a wasm binary and validates it. `wat` only checks that
/// the text can be encoded and would let ill-typed output through;
/// stopping here beats writing broken wasm and finding out when it runs.
/// GC and reference types are in use, so every wasm feature is on.
/// Whatever the encoder gives, a binary handed back has passed validation.
pub fn assemble(text: &str) -> (r: Result<Vec<u8>, String>)
    ensures
        r matches Ok(x) ==> wasm_validation(x@) is None,
{
    let parsed = wat_parse(text);
    assembly_outcome(parsed)
}

} // verus!
