//! Symbol name mangling, the same for every target: the names of the
//! TypeScript output and of the wasm module's items alike, so a host can
//! match them across targets.
//!
//! The shape follows the Itanium C++ ABI, `_ZN<length><name>...E`: each
//! name is preceded by its length, so a path splits back into its names
//! without any separator.
//!
//! ```text
//!  <symbol>  ::= "_Z" "N" <path> "E"
//!  <path>    ::= <pkg> <mod>* <name>              top-level function / type
//!              | <owner> <name>                   associated function / method
//!              | <owner> "R" <trait> <name>       item of a trait impl
//!  <owner>   ::= <pkg> <mod>* <name> <genargs>?   a defined type
//!              | <prim>                           a primitive type (root of the tree)
//!  <genargs> ::= "I" <type>+ "E"
//!  <type>    ::= <prim>
//!              | "T" <index> "_"                  generic argument not instantiated yet
//!              | "N" <pkg> <mod>* <name> <genargs>? "E"
//!              | "F" <type> <type>* "E"           function type (result, then arguments)
//!  <trait>   ::= <pkg> <mod>* <name>
//!  <prim>    ::= "i" | "f" | "b" | "v"
//!  <name>    ::= <length> <ident>
//! ```
//!
//! The trait part keeps apart items that two packages add under one name
//! to the same type. Lengths start with 1-9 and tags are no digits, so
//! nothing is ambiguous. The output is a TypeScript identifier, so only
//! `[A-Za-z0-9_]` is used.

use vstd::prelude::*;
use crate::decimal::{all_digits, decimal, digits_value, is_digit, lemma_decimal_digits, push_decimal};
use crate::module::{ModPath, ModPathView};
use crate::text::{lemma_char_width_bounds, lemma_encode_utf8_concat, push_char, push_str, utf8_len};

verus! {

/// `<length><ident>`: the length in bytes, in decimal, then the name.
pub open spec fn name_enc(name: Seq<char>) -> Seq<char> {
    decimal(utf8_len(name)) + name
}

/// The names one after the other, each with its length.
pub open spec fn names_enc(names: Seq<Seq<char>>) -> Seq<char>
    decreases names.len(),
{
    if names.len() == 0 {
        Seq::empty()
    } else {
        name_enc(names[0]) + names_enc(names.subrange(1, names.len() as int))
    }
}

/// Appends `<length><ident>`.
pub fn push_name(out: &mut String, name: &str)
    ensures
        final(out)@ == old(out)@ + name_enc(name@),
{
    let len = name.as_bytes().len();
    assert(len == utf8_len(name@));
    push_decimal(out, len);
    push_str(out, name);
    assert(final(out)@ =~= old(out)@ + name_enc(name@));
}

/// The names of a module path below the package root: none for the root
/// module (`main` or `lib`).
pub open spec fn module_names(m: ModPathView) -> Seq<Seq<char>> {
    match m {
        ModPathView::Main => Seq::empty(),
        ModPathView::Lib => Seq::empty(),
        ModPathView::Mod(segs) => segs,
    }
}

proof fn lemma_names_enc_single(x: Seq<char>)
    ensures
        names_enc(seq![x]) == name_enc(x),
{
    let s = seq![x];
    assert(s.subrange(1, 1) =~= Seq::<Seq<char>>::empty());
    assert(names_enc(Seq::<Seq<char>>::empty()) == Seq::<char>::empty());
    assert(s[0] == x);
    assert(names_enc(s) == name_enc(s[0]) + names_enc(s.subrange(1, 1)));
    assert(name_enc(x) + Seq::<char>::empty() =~= name_enc(x));
}

proof fn lemma_names_enc_push(names: Seq<Seq<char>>, x: Seq<char>)
    ensures
        names_enc(names.push(x)) == names_enc(names) + name_enc(x),
    decreases names.len(),
{
    if names.len() == 0 {
        assert(names.push(x) =~= seq![x]);
        lemma_names_enc_single(x);
        assert(names_enc(names) == Seq::<char>::empty());
        assert(names_enc(names) + name_enc(x) =~= name_enc(x));
    } else {
        let t = names.subrange(1, names.len() as int);
        lemma_names_enc_push(t, x);
        assert(names.push(x).subrange(1, names.len() + 1int) =~= t.push(x));
        assert(names_enc(names.push(x)) =~= names_enc(names) + name_enc(x));
    }
}

/// Appends `<pkg> <mod>*`.
pub fn push_pkg_and_mods(out: &mut String, pkg_name: &str, modu: &ModPath)
    ensures
        final(out)@ == old(out)@ + names_enc(seq![pkg_name@] + module_names(modu@)),
{
    push_name(out, pkg_name);
    let ghost mut done: Seq<Seq<char>> = seq![pkg_name@];
    proof {
        lemma_names_enc_single(pkg_name@);
    }
    match modu {
        ModPath::Main => {
            assert(seq![pkg_name@] + module_names(modu@) =~= done);
        },
        ModPath::Lib => {
            assert(seq![pkg_name@] + module_names(modu@) =~= done);
        },
        ModPath::Mod(path) => {
            let ghost segs = crate::module::strings_view(path@);
            let mut i: usize = 0;
            while i < path.len()
                invariant
                    i <= path@.len(),
                    segs == crate::module::strings_view(path@),
                    done == seq![pkg_name@] + segs.take(i as int),
                    out@ == old(out)@ + names_enc(done),
                decreases path@.len() - i,
            {
                push_name(out, path[i].as_str());
                proof {
                    lemma_names_enc_push(done, segs[i as int]);
                    assert(segs[i as int] == path@[i as int]@);
                    done = done.push(segs[i as int]);
                    assert(done =~= seq![pkg_name@] + segs.take(i + 1));
                }
                i = i + 1;
            }
            assert(segs.take(path@.len() as int) =~= segs);
        },
    }
}

/// Where a symbol stands in the tree of names: its package, the module
/// path below the package root, and its own name.
#[derive(Debug)]
pub struct SymbolPath {
    pub pkg: String,
    pub modu: ModPath,
    pub name: String,
}

impl SymbolPath {
    /// The names of the path, the package first.
    pub open spec fn spec_names(&self) -> Seq<Seq<char>> {
        seq![self.pkg@] + module_names(self.modu@) + seq![self.name@]
    }
}

/// Appends `<pkg> <mod>* <name>`.
pub fn push_path(out: &mut String, path: &SymbolPath)
    ensures
        final(out)@ == old(out)@ + names_enc(path.spec_names()),
{
    push_pkg_and_mods(out, path.pkg.as_str(), &path.modu);
    push_name(out, path.name.as_str());
    proof {
        let p = seq![path.pkg@] + module_names(path.modu@);
        lemma_names_enc_push(p, path.name@);
        assert(p.push(path.name@) =~= path.spec_names());
    }
    assert(final(out)@ =~= old(out)@ + names_enc(path.spec_names()));
}

/// The mangled name of a top-level definition: a function or a type.
pub fn path_mangled(path: &SymbolPath) -> (r: String)
    ensures
        r@ == "_ZN"@ + names_enc(path.spec_names()) + "E"@,
{
    let mut s = String::new();
    push_str(&mut s, "_ZN");
    push_path(&mut s, path);
    push_str(&mut s, "E");
    s
}

/// Whether a name can follow its length unambiguously: it is not empty
/// and does not start with a digit (identifiers start with a letter or
/// `_`).
pub open spec fn plain_name(name: Seq<char>) -> bool {
    name.len() >= 1 && !is_digit(name[0])
}

proof fn lemma_utf8_len_zero(cs: Seq<char>)
    requires
        utf8_len(cs) == 0,
    ensures
        cs.len() == 0,
{
    if cs.len() > 0 {
        lemma_encode_utf8_concat(seq![cs[0]], cs.subrange(1, cs.len() as int));
        assert(seq![cs[0]] + cs.subrange(1, cs.len() as int) =~= cs);
        lemma_char_width_bounds(cs[0]);
        crate::text::lemma_encode_utf8_single(cs[0]);
    }
}

/// One length-prefixed name at the start of a text is read back exactly.
proof fn lemma_name_enc_prefix(a: Seq<char>, b: Seq<char>, r1: Seq<char>, r2: Seq<char>)
    requires
        plain_name(a),
        plain_name(b),
        name_enc(a) + r1 == name_enc(b) + r2,
    ensures
        a == b,
        r1 == r2,
{
    let da = decimal(utf8_len(a));
    let db = decimal(utf8_len(b));
    let s = name_enc(a) + r1;
    lemma_decimal_digits(utf8_len(a));
    lemma_decimal_digits(utf8_len(b));
    assert(s == da + a + r1);
    assert(s == db + b + r2);
    // The digits end where the name starts: the name's first character is
    // no digit.
    if da.len() < db.len() {
        assert(s[da.len() as int] == a[0]);
        assert(s[da.len() as int] == db[da.len() as int]);
        assert(is_digit(db[da.len() as int]));
        assert(false);
    }
    if db.len() < da.len() {
        assert(s[db.len() as int] == b[0]);
        assert(s[db.len() as int] == da[db.len() as int]);
        assert(is_digit(da[db.len() as int]));
        assert(false);
    }
    assert(da =~= db) by {
        assert forall|k: int| 0 <= k < da.len() implies da[k] == db[k] by {
            assert(s[k] == da[k] && s[k] == db[k]);
        }
    }
    assert(utf8_len(a) == utf8_len(b));
    let ta = a + r1;
    let tb = b + r2;
    assert(ta =~= s.subrange(da.len() as int, s.len() as int));
    assert(tb =~= s.subrange(db.len() as int, s.len() as int));
    assert(ta == tb);
    // Of two prefixes of one text with the same UTF-8 length, neither is
    // longer: what one has more would take no byte.
    if a.len() < b.len() {
        let extra = b.subrange(a.len() as int, b.len() as int);
        assert(b =~= b.subrange(0, a.len() as int) + extra);
        assert(b.subrange(0, a.len() as int) =~= a) by {
            assert forall|k: int| 0 <= k < a.len() implies b[k] == a[k] by {
                assert(ta[k] == tb[k]);
            }
        }
        lemma_encode_utf8_concat(a, extra);
        lemma_utf8_len_zero(extra);
        assert(false);
    }
    if b.len() < a.len() {
        let extra = a.subrange(b.len() as int, a.len() as int);
        assert(a =~= a.subrange(0, b.len() as int) + extra);
        assert(a.subrange(0, b.len() as int) =~= b) by {
            assert forall|k: int| 0 <= k < b.len() implies a[k] == b[k] by {
                assert(ta[k] == tb[k]);
            }
        }
        lemma_encode_utf8_concat(b, extra);
        lemma_utf8_len_zero(extra);
        assert(false);
    }
    assert(a =~= b) by {
        assert forall|k: int| 0 <= k < a.len() implies a[k] == b[k] by {
            assert(ta[k] == tb[k]);
        }
    }
    assert(r1 =~= r2) by {
        assert forall|k: int| 0 <= k < r1.len() implies r1[k] == r2[k] by {
            assert(ta[a.len() + k] == tb[b.len() + k]);
        }
    }
}

/// Length-prefixed names split back uniquely: two sequences of plain names
/// encode to the same text only when they are the same.
pub proof fn lemma_names_enc_injective(xs: Seq<Seq<char>>, ys: Seq<Seq<char>>)
    requires
        forall|i: int| 0 <= i < xs.len() ==> plain_name(#[trigger] xs[i]),
        forall|i: int| 0 <= i < ys.len() ==> plain_name(#[trigger] ys[i]),
        names_enc(xs) == names_enc(ys),
    ensures
        xs == ys,
    decreases xs.len(),
{
    if xs.len() == 0 {
        if ys.len() > 0 {
            lemma_decimal_digits(utf8_len(ys[0]));
            assert(names_enc(ys).len() > 0);
        }
        assert(ys.len() == 0);
        assert(xs =~= ys);
    } else if ys.len() == 0 {
        lemma_decimal_digits(utf8_len(xs[0]));
        assert(names_enc(xs).len() > 0);
        assert(false);
    } else {
        let xt = xs.subrange(1, xs.len() as int);
        let yt = ys.subrange(1, ys.len() as int);
        assert(plain_name(xs[0]) && plain_name(ys[0]));
        lemma_name_enc_prefix(xs[0], ys[0], names_enc(xt), names_enc(yt));
        assert forall|i: int| 0 <= i < xt.len() implies plain_name(#[trigger] xt[i]) by {
            assert(xt[i] == xs[i + 1]);
        }
        assert forall|i: int| 0 <= i < yt.len() implies plain_name(#[trigger] yt[i]) by {
            assert(yt[i] == ys[i + 1]);
        }
        lemma_names_enc_injective(xt, yt);
        assert(xs =~= seq![xs[0]] + xt);
        assert(ys =~= seq![ys[0]] + yt);
    }
}


/// The primitive types, which belong to no package: they stand at the root
/// of the tree of names.
#[derive(Debug, Clone, Copy, PartialEq, Eq, Structural)]
pub enum PrimTy {
    Int,
    Float,
    Bool,
    Void,
}

/// `<prim>`: the one-letter tag of a primitive type.
pub open spec fn prim_char(p: PrimTy) -> char {
    match p {
        PrimTy::Int => 'i',
        PrimTy::Float => 'f',
        PrimTy::Bool => 'b',
        PrimTy::Void => 'v',
    }
}

pub fn prim_tag(p: PrimTy) -> (r: char)
    ensures
        r == prim_char(p),
{
    match p {
        PrimTy::Int => 'i',
        PrimTy::Float => 'f',
        PrimTy::Bool => 'b',
        PrimTy::Void => 'v',
    }
}

/// A type as it appears in a symbol name.
#[derive(Debug)]
pub enum MangleTy {
    Prim(PrimTy),
    /// A defined type, with its generic arguments.
    Defined { path: SymbolPath, genargs: Vec<MangleTy> },
    /// A generic parameter not instantiated yet, by the id of its
    /// definition.
    Gen(u64),
    /// A function type: the result, then the arguments.
    Fn { ret: Box<MangleTy>, args: Vec<MangleTy> },
}

/// The number of `id` among the generic parameters met so far: its place
/// among them, or the next one for a parameter met for the first time.
pub open spec fn first_index(a: Seq<u64>, id: u64) -> nat
    decreases a.len(),
{
    if a.len() == 0 {
        0
    } else if a[0] == id {
        0
    } else {
        1 + first_index(a.drop_first(), id)
    }
}

/// The parameters met after `id` is numbered.
pub open spec fn numbered(a: Seq<u64>, id: u64) -> Seq<u64> {
    if first_index(a, id) < a.len() {
        a
    } else {
        a.push(id)
    }
}

proof fn lemma_first_index(a: Seq<u64>, id: u64)
    ensures
        first_index(a, id) <= a.len(),
        first_index(a, id) < a.len() ==> a[first_index(a, id) as int] == id,
        forall|k: int| 0 <= k < first_index(a, id) ==> a[k] != id,
    decreases a.len(),
{
    if a.len() > 0 && a[0] != id {
        let t = a.drop_first();
        lemma_first_index(t, id);
        assert forall|k: int| 0 <= k < first_index(a, id) implies a[k] != id by {
            if k > 0 {
                assert(a[k] == t[k - 1]);
            }
        }
    }
}

/// `<type>` with the parameters met before it, and those met after it.
pub open spec fn ty_enc(t: MangleTy, a: Seq<u64>) -> (Seq<char>, Seq<u64>)
    decreases t, 1nat,
{
    match t {
        MangleTy::Prim(p) => (seq![prim_char(p)], a),
        MangleTy::Defined { path, genargs } => {
            let g = genargs_enc(genargs@, a);
            (seq!['N'] + names_enc(path.spec_names()) + g.0 + seq!['E'], g.1)
        },
        MangleTy::Gen(id) => (seq!['T'] + decimal(first_index(a, id)) + seq!['_'], numbered(a, id)),
        MangleTy::Fn { ret, args } => {
            let r = ty_enc(*ret, a);
            let g = tys_enc(args@, r.1);
            (seq!['F'] + r.0 + g.0 + seq!['E'], g.1)
        },
    }
}

/// `<type>*`, left to right.
pub open spec fn tys_enc(ts: Seq<MangleTy>, a: Seq<u64>) -> (Seq<char>, Seq<u64>)
    decreases ts, 0nat,
{
    if ts.len() == 0 {
        (Seq::empty(), a)
    } else {
        let init = tys_enc(ts.subrange(0, ts.len() - 1), a);
        let last = ty_enc(ts[ts.len() - 1], init.1);
        (init.0 + last.0, last.1)
    }
}

/// `<genargs>?`: nothing for no arguments, else `I <type>+ E`.
pub open spec fn genargs_enc(ts: Seq<MangleTy>, a: Seq<u64>) -> (Seq<char>, Seq<u64>)
    decreases ts, 1nat,
{
    if ts.len() == 0 {
        (Seq::empty(), a)
    } else {
        let g = tys_enc(ts, a);
        (seq!['I'] + g.0 + seq!['E'], g.1)
    }
}

/// The generic parameters met so far while a name is built, numbered from
/// 0 in the order they first appear.
///
/// Without the numbers `impl[T, U] Pair[T, U]` and `impl[T] Pair[T, T]`
/// would get one name. They go by first appearance, not by declaration,
/// so that one list of generic arguments alone decides them, whether it
/// comes from this package or from a dependency.
#[derive(Debug, Default)]
pub struct PlaceholderNumbering {
    pub assigned: Vec<u64>,
}

impl PlaceholderNumbering {
    /// `T<index>_` for the parameter `id`.
    pub fn placeholder(&mut self, id: u64) -> (r: String)
        ensures
            r@ == seq!['T'] + decimal(first_index(old(self).assigned@, id)) + seq!['_'],
            final(self).assigned@ == numbered(old(self).assigned@, id),
    {
        proof {
            lemma_first_index(self.assigned@, id);
        }
        let mut i: usize = 0;
        while i < self.assigned.len() && self.assigned[i] != id
            invariant
                i <= self.assigned@.len(),
                forall|k: int| 0 <= k < i ==> self.assigned@[k] != id,
            decreases self.assigned@.len() - i,
        {
            i = i + 1;
        }
        proof {
            let a = self.assigned@;
            lemma_first_index(a, id);
            let f = first_index(a, id);
            if f < i {
                assert(a[f as int] == id);
            }
            if i < a.len() && i < f {
                assert(a[i as int] == id);
            }
            assert(f == i as nat);
        }
        if i == self.assigned.len() {
            self.assigned.push(id);
        }
        let mut s = String::new();
        push_char(&mut s, 'T');
        push_decimal(&mut s, i);
        push_char(&mut s, '_');
        s
    }
}

/// Appends `<type>`.
pub fn push_type(out: &mut String, ty: &MangleTy, nums: &mut PlaceholderNumbering)
    ensures
        final(out)@ == old(out)@ + ty_enc(*ty, old(nums).assigned@).0,
        final(nums).assigned@ == ty_enc(*ty, old(nums).assigned@).1,
    decreases ty, 2nat,
{
    match ty {
        MangleTy::Prim(p) => {
            push_char(out, prim_tag(*p));
        },
        MangleTy::Defined { path, genargs } => {
            push_char(out, 'N');
            push_path(out, path);
            proof {
                assert(decreases_to!(*ty => *genargs));
            }
            push_genargs(out, genargs, nums);
            push_char(out, 'E');
        },
        MangleTy::Gen(id) => {
            let p = nums.placeholder(*id);
            push_str(out, p.as_str());
        },
        MangleTy::Fn { ret, args } => {
            push_char(out, 'F');
            proof {
                assert(decreases_to!(*ty => **ret));
                assert(decreases_to!(*ty => *args));
            }
            push_type(out, ret, nums);
            push_types(out, args, nums);
            push_char(out, 'E');
        },
    }
    assert(final(out)@ =~= old(out)@ + ty_enc(*ty, old(nums).assigned@).0);
}

/// Appends `<type>*`.
fn push_types(out: &mut String, tys: &Vec<MangleTy>, nums: &mut PlaceholderNumbering)
    ensures
        final(out)@ == old(out)@ + tys_enc(tys@, old(nums).assigned@).0,
        final(nums).assigned@ == tys_enc(tys@, old(nums).assigned@).1,
    decreases tys, 0nat,
{
    let ghost ts = tys@;
    let ghost a0 = nums.assigned@;
    let ghost o0 = out@;
    let mut i: usize = 0;
    assert(ts.take(0) =~= Seq::<MangleTy>::empty());
    assert(o0 + tys_enc(ts.take(0), a0).0 =~= o0);
    while i < tys.len()
        invariant
            i <= ts.len(),
            ts == tys@,
            out@ == o0 + tys_enc(ts.take(i as int), a0).0,
            nums.assigned@ == tys_enc(ts.take(i as int), a0).1,
        decreases ts.len() - i,
    {
        proof {
            assert(decreases_to!(*tys => tys@));
            assert(decreases_to!(tys@ => tys@[i as int]));
            let t = ts.take(i + 1);
            assert(t.subrange(0, t.len() - 1) =~= ts.take(i as int));
            assert(t[t.len() - 1] == ts[i as int]);
        }
        let ghost before = out@;
        push_type(out, &tys[i], nums);
        assert(out@ =~= o0 + tys_enc(ts.take(i + 1), a0).0);
        i = i + 1;
    }
    assert(ts.take(ts.len() as int) =~= ts);
}

/// Appends `<genargs>?`.
fn push_genargs(out: &mut String, genargs: &Vec<MangleTy>, nums: &mut PlaceholderNumbering)
    ensures
        final(out)@ == old(out)@ + genargs_enc(genargs@, old(nums).assigned@).0,
        final(nums).assigned@ == genargs_enc(genargs@, old(nums).assigned@).1,
    decreases genargs, 1nat,
{
    if genargs.len() == 0 {
        assert(final(out)@ =~= old(out)@ + genargs_enc(genargs@, old(nums).assigned@).0);
        return;
    }
    push_char(out, 'I');
    push_types(out, genargs, nums);
    push_char(out, 'E');
    assert(final(out)@ =~= old(out)@ + genargs_enc(genargs@, old(nums).assigned@).0);
}

/// Whether a type can own associated items in a name: a defined type or a
/// primitive one.
pub open spec fn can_own(t: MangleTy) -> bool {
    t is Prim || t is Defined
}

/// `<owner>`: a defined type with its generic arguments, numbered afresh,
/// or the tag of a primitive type, which belongs to no package.
pub open spec fn owner_enc(t: MangleTy) -> Seq<char> {
    match t {
        MangleTy::Defined { path, genargs } => names_enc(path.spec_names()) + genargs_enc(
            genargs@,
            Seq::empty(),
        ).0,
        MangleTy::Prim(p) => seq![prim_char(p)],
        _ => Seq::empty(),
    }
}

/// Appends `<owner>`.
pub fn push_owner(out: &mut String, self_ty: &MangleTy)
    requires
        can_own(*self_ty),
    ensures
        final(out)@ == old(out)@ + owner_enc(*self_ty),
{
    match self_ty {
        MangleTy::Defined { path, genargs } => {
            push_path(out, path);
            let mut nums = PlaceholderNumbering { assigned: Vec::new() };
            assert(nums.assigned@ =~= Seq::<u64>::empty());
            push_genargs(out, genargs, &mut nums);
            assert(final(out)@ =~= old(out)@ + owner_enc(*self_ty));
        },
        MangleTy::Prim(p) => {
            push_char(out, prim_tag(*p));
            assert(final(out)@ =~= old(out)@ + owner_enc(*self_ty));
        },
        _ => {},
    }
}

/// A value that gets a symbol name.
#[derive(Debug)]
pub enum ValueItem {
    /// A top-level function.
    TopLevel(SymbolPath),
    /// An associated function or method: the type of its impl, the trait
    /// the impl is of (none for an impl of the type itself), and its name.
    Assoc { owner: MangleTy, trait_path: Option<SymbolPath>, name: String },
}

/// `<path>` of a value: where it stands in the tree of names, whatever
/// package or module its impl block is written in.
pub open spec fn value_path_enc(v: ValueItem) -> Seq<char> {
    match v {
        ValueItem::TopLevel(p) => names_enc(p.spec_names()),
        ValueItem::Assoc { owner, trait_path, name } => owner_enc(owner) + match trait_path {
            Some(t) => seq!['R'] + names_enc(t.spec_names()),
            None => Seq::empty(),
        } + name_enc(name@),
    }
}

/// The mangled name of a value.
pub fn value_mangled(item: &ValueItem) -> (r: String)
    requires
        *item matches ValueItem::Assoc { owner, .. } ==> can_own(owner),
    ensures
        r@ == "_ZN"@ + value_path_enc(*item) + "E"@,
{
    let mut s = String::new();
    push_str(&mut s, "_ZN");
    let ghost start = s@;
    match item {
        ValueItem::TopLevel(p) => {
            push_path(&mut s, p);
        },
        ValueItem::Assoc { owner, trait_path, name } => {
            push_owner(&mut s, owner);
            let ghost mid = s@;
            match trait_path {
                Some(t) => {
                    push_char(&mut s, 'R');
                    push_path(&mut s, t);
                    assert(s@ =~= mid + (seq!['R'] + names_enc(t.spec_names())));
                },
                None => {
                    assert(s@ =~= mid + Seq::<char>::empty());
                },
            }
            push_name(&mut s, name.as_str());
        },
    }
    assert(s@ =~= start + value_path_enc(*item));
    push_str(&mut s, "E");
    s
}

/// The name of a method of a primitive type in the TypeScript output:
/// `_ZN<type name><method>E`, with the type written by its name.
pub open spec fn prim_type_name(p: PrimTy) -> Seq<char> {
    match p {
        PrimTy::Int => "Int"@,
        PrimTy::Float => "Float"@,
        PrimTy::Bool => "Bool"@,
        PrimTy::Void => "Void"@,
    }
}

/// The name of method `name` of a primitive type. `Void` has no methods.
pub fn prim_method_mangled(p: PrimTy, name: &str) -> (r: String)
    requires
        p != PrimTy::Void,
    ensures
        r@ == "_ZN"@ + name_enc(prim_type_name(p)) + name_enc(name@) + "E"@,
{
    let mut s = String::new();
    push_str(&mut s, "_ZN");
    match p {
        PrimTy::Int => push_name(&mut s, "Int"),
        PrimTy::Float => push_name(&mut s, "Float"),
        PrimTy::Bool => push_name(&mut s, "Bool"),
        PrimTy::Void => {},
    }
    push_name(&mut s, name);
    push_str(&mut s, "E");
    s
}

/// `__biwa_tmp<n>`: the `n`-th temporary of generated code.
pub open spec fn temp_name(n: nat) -> Seq<char> {
    "__biwa_tmp"@ + decimal(n)
}

/// The temporaries of one generated function, numbered from 0. A `match`
/// used as an expression needs one.
#[derive(Debug)]
pub struct TempNames {
    next: usize,
}

impl TempNames {
    /// The number the next temporary gets.
    pub closed spec fn next_index(&self) -> nat {
        self.next as nat
    }

    pub fn new() -> (r: Self)
        ensures
            r.next_index() == 0,
    {
        TempNames { next: 0 }
    }

    /// A fresh temporary name.
    pub fn alloc_temp(&mut self) -> (r: String)
        requires
            old(self).next_index() < usize::MAX,
        ensures
            r@ == temp_name(old(self).next_index()),
            final(self).next_index() == old(self).next_index() + 1,
    {
        let mut s = String::new();
        push_str(&mut s, "__biwa_tmp");
        push_decimal(&mut s, self.next);
        self.next = self.next + 1;
        s
    }
}

/// Temporaries with different numbers have different names.
pub proof fn lemma_temp_names_distinct(m: nat, n: nat)
    requires
        m != n,
    ensures
        temp_name(m) != temp_name(n),
{
    reveal_strlit("__biwa_tmp");
    if temp_name(m) == temp_name(n) {
        let p = "__biwa_tmp"@;
        assert(decimal(m) =~= temp_name(m).subrange(p.len() as int, temp_name(m).len() as int));
        assert(decimal(n) =~= temp_name(n).subrange(p.len() as int, temp_name(n).len() as int));
        lemma_decimal_digits(m);
        lemma_decimal_digits(n);
    }
}

/// A temporary never takes the name of a mangled symbol: biwa's own
/// variables are all mangled to `_ZN...`.
pub proof fn lemma_temp_not_mangled(n: nat, path: Seq<char>)
    ensures
        temp_name(n) != "_ZN"@ + path,
{
    reveal_strlit("__biwa_tmp");
    reveal_strlit("_ZN");
    assert(temp_name(n)[1] == '_');
    assert(("_ZN"@ + path)[1] == 'Z');
}

} // verus!
