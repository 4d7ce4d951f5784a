//! Writing types and function bodies into metadata: a type as the analysis
//! sees it becomes a `DiskTy`, the types of other packages it names go into
//! the external symbol table, and a function's signature becomes the body
//! of its symbol, its names in the string table.

use vstd::prelude::*;
use crate::mangle::PrimTy;
use crate::package::PackageId;
use crate::span::Span;
use crate::src::ModId;
use vstd::utf8::encode_utf8;
use super::codec::DiskVec;
use super::format::{DiskArg, DiskArgView, DiskExternalSymbol, DiskFileIndex, DiskFnData,
    DiskFnDataView, DiskGenArg, DiskSpan, DiskStringOffset, DiskSymbolIndex, DiskTy, DiskTyHeader,
    DiskTyView, tys_view};
use super::table::StringTable;

verus! {

/// The definition a named type points at: a primitive (whose definitions
/// are reserved and belong to no package), or a type of some package.
#[derive(Debug, Clone, Copy, PartialEq, Eq, Structural)]
pub enum TyDefRef {
    Prim(PrimTy),
    Def { pkg: PackageId, local_idx: u32 },
}

/// A type as the analysis sees it, with where it was written.
#[derive(Debug)]
pub struct HirTy {
    pub kind: HirTyKind,
    pub span: Span,
}

#[derive(Debug)]
pub enum HirTyKind {
    Int,
    Float,
    Bool,
    Void,
    Defined { def: TyDefRef, genargs: Vec<HirTy> },
    /// A generic parameter of a type or a trait, by its id.
    Gen(u64),
    /// A generic parameter of a function, by its id.
    LocGen(u64),
    Fn { args: Vec<HirTy>, rty: Box<HirTy> },
    /// A type inference left open.
    Infer,
}

/// The numbers a type is written with: the symbol index of each type of
/// this package (by its local index), the ordinal of each generic
/// parameter among those declaring it (by id, for types and traits, then
/// for functions), and the file index of each module.
#[derive(Debug, Clone, Copy)]
pub struct TyEncodeTables<'a> {
    pub ty_to_sym: &'a [(u32, u32)],
    pub gen_ord: &'a [(u64, u32)],
    pub loc_gen_ord: &'a [(u64, u32)],
    pub mod_to_file: &'a [(ModId, u32)],
}

/// The tables as plain values.
pub ghost struct TablesView {
    pub ty_to_sym: Seq<(u32, u32)>,
    pub gen_ord: Seq<(u64, u32)>,
    pub loc_gen_ord: Seq<(u64, u32)>,
    pub mod_to_file: Seq<(ModId, u32)>,
}

impl<'a> View for TyEncodeTables<'a> {
    type V = TablesView;

    open spec fn view(&self) -> TablesView {
        TablesView {
            ty_to_sym: self.ty_to_sym@,
            gen_ord: self.gen_ord@,
            loc_gen_ord: self.loc_gen_ord@,
            mod_to_file: self.mod_to_file@,
        }
    }
}

/// What a table gives for `key`: the value of its first entry with the
/// key, or `default`.
pub open spec fn lookup_or<K>(t: Seq<(K, u32)>, key: K, default: u32) -> u32
    decreases t.len(),
{
    if t.len() == 0 {
        default
    } else if t[0].0 == key {
        t[0].1
    } else {
        lookup_or(t.drop_first(), key, default)
    }
}

fn lookup_u32(t: &[(u32, u32)], key: u32) -> (r: u32)
    ensures
        r == lookup_or(t@, key, 0),
{
    let mut i: usize = 0;
    assert(t@.skip(0) =~= t@);
    while i < t.len()
        invariant
            i <= t@.len(),
            lookup_or(t@, key, 0) == lookup_or(t@.skip(i as int), key, 0),
        decreases t@.len() - i,
    {
        proof {
            assert(t@.skip(i as int)[0] == t@[i as int]);
            assert(t@.skip(i as int).drop_first() =~= t@.skip(i + 1));
        }
        if t[i].0 == key {
            return t[i].1;
        }
        i = i + 1;
    }
    0
}

fn lookup_u64(t: &[(u64, u32)], key: u64) -> (r: u32)
    ensures
        r == lookup_or(t@, key, 0),
{
    let mut i: usize = 0;
    assert(t@.skip(0) =~= t@);
    while i < t.len()
        invariant
            i <= t@.len(),
            lookup_or(t@, key, 0) == lookup_or(t@.skip(i as int), key, 0),
        decreases t@.len() - i,
    {
        proof {
            assert(t@.skip(i as int)[0] == t@[i as int]);
            assert(t@.skip(i as int).drop_first() =~= t@.skip(i + 1));
        }
        if t[i].0 == key {
            return t[i].1;
        }
        i = i + 1;
    }
    0
}

fn lookup_mod(t: &[(ModId, u32)], key: ModId) -> (r: u32)
    ensures
        r == lookup_or(t@, key, 0),
{
    let mut i: usize = 0;
    assert(t@.skip(0) =~= t@);
    while i < t.len()
        invariant
            i <= t@.len(),
            lookup_or(t@, key, 0) == lookup_or(t@.skip(i as int), key, 0),
        decreases t@.len() - i,
    {
        proof {
            assert(t@.skip(i as int)[0] == t@[i as int]);
            assert(t@.skip(i as int).drop_first() =~= t@.skip(i + 1));
        }
        if t[i].0.0 == key.0 {
            return t[i].1;
        }
        i = i + 1;
    }
    0
}

/// A span as written: the file index of its module (0 for a module not in
/// the table), and its offsets cut to 32 bits.
pub open spec fn disk_span_of(span: Span, mod_to_file: Seq<(ModId, u32)>) -> DiskSpan {
    DiskSpan {
        file: DiskFileIndex(lookup_or(mod_to_file, span.file, 0)),
        begin: span.begin as u32,
        end: span.end as u32,
    }
}

pub fn to_disk_span(span: &Span, mod_to_file: &[(ModId, u32)]) -> (r: DiskSpan)
    ensures
        r == disk_span_of(*span, mod_to_file@),
{
    DiskSpan {
        file: DiskFileIndex(lookup_mod(mod_to_file, span.file)),
        begin: span.begin as u32,
        end: span.end as u32,
    }
}

/// The external symbol table being built: each symbol of another package
/// that a type names, once, in the order they were first met.
#[derive(Debug)]
pub struct ExtSymBuilder {
    entries: Vec<DiskExternalSymbol>,
}

pub open spec fn ext_entry(pkg: u32, sym: u32) -> DiskExternalSymbol {
    DiskExternalSymbol { pkg, sym: DiskSymbolIndex(sym) }
}

/// The first place of `(pkg, sym)` in the table, or its length.
pub open spec fn find_ext(es: Seq<DiskExternalSymbol>, pkg: u32, sym: u32) -> nat
    decreases es.len(),
{
    if es.len() == 0 {
        0
    } else if es[0] == ext_entry(pkg, sym) {
        0
    } else {
        1 + find_ext(es.drop_first(), pkg, sym)
    }
}

/// Registering `(pkg, sym)`: its index, and the table after. A symbol met
/// before keeps its index; a new one goes at the end. Indices are 32-bit,
/// as written.
pub open spec fn intern_spec(es: Seq<DiskExternalSymbol>, pkg: u32, sym: u32) -> (u32, Seq<DiskExternalSymbol>) {
    let i = find_ext(es, pkg, sym);
    if i < es.len() {
        (i as u32, es)
    } else {
        (es.len() as u32, es.push(ext_entry(pkg, sym)))
    }
}

/// No symbol is in the table twice.
pub open spec fn ext_unique(es: Seq<DiskExternalSymbol>) -> bool {
    forall|i: int, j: int| 0 <= i < j < es.len() ==> es[i] != es[j]
}

proof fn lemma_find_ext(es: Seq<DiskExternalSymbol>, pkg: u32, sym: u32)
    ensures
        find_ext(es, pkg, sym) <= es.len(),
        find_ext(es, pkg, sym) < es.len() ==> es[find_ext(es, pkg, sym) as int] == ext_entry(pkg, sym),
        forall|k: int| 0 <= k < find_ext(es, pkg, sym) ==> es[k] != ext_entry(pkg, sym),
    decreases es.len(),
{
    if es.len() > 0 && es[0] != ext_entry(pkg, sym) {
        let t = es.drop_first();
        lemma_find_ext(t, pkg, sym);
        assert forall|k: int| 0 <= k < find_ext(es, pkg, sym) implies es[k] != ext_entry(pkg, sym) by {
            if k > 0 {
                assert(es[k] == t[k - 1]);
            }
        }
    }
}

/// Registering a symbol keeps every entry that was there, and keeps each
/// symbol once.
proof fn lemma_intern_extends(es: Seq<DiskExternalSymbol>, pkg: u32, sym: u32)
    ensures
        es.len() <= intern_spec(es, pkg, sym).1.len(),
        intern_spec(es, pkg, sym).1.take(es.len() as int) == es,
        ext_unique(es) ==> ext_unique(intern_spec(es, pkg, sym).1),
{
    lemma_find_ext(es, pkg, sym);
    let es2 = intern_spec(es, pkg, sym).1;
    assert(es2.take(es.len() as int) =~= es);
    if find_ext(es, pkg, sym) >= es.len() && ext_unique(es) {
        assert forall|a: int, b: int| 0 <= a < b < es2.len() implies es2[a] != es2[b] by {
            if b == es.len() {
                assert(es2[a] == es[a]);
            }
        }
    }
}

/// Registering a symbol gives the index of an entry that holds it, keeps
/// every entry that was there, and keeps each symbol once.
pub proof fn lemma_intern_points_at(es: Seq<DiskExternalSymbol>, pkg: u32, sym: u32)
    requires
        es.len() < u32::MAX,
    ensures
        ({
            let (i, es2) = intern_spec(es, pkg, sym);
            &&& i < es2.len()
            &&& es2[i as int] == ext_entry(pkg, sym)
            &&& es2.take(es.len() as int) == es
            &&& (ext_unique(es) ==> ext_unique(es2))
        }),
{
    lemma_find_ext(es, pkg, sym);
    let (i, es2) = intern_spec(es, pkg, sym);
    if find_ext(es, pkg, sym) < es.len() {
        assert(es2.take(es.len() as int) =~= es);
    } else {
        assert(es2.take(es.len() as int) =~= es);
        if ext_unique(es) {
            assert forall|a: int, b: int| 0 <= a < b < es2.len() implies es2[a] != es2[b] by {
                if b == es.len() {
                    assert(es2[a] == es[a]);
                }
            }
        }
    }
}

impl ExtSymBuilder {
    pub closed spec fn entries(&self) -> Seq<DiskExternalSymbol> {
        self.entries@
    }

    pub fn new() -> (r: Self)
        ensures
            r.entries() == Seq::<DiskExternalSymbol>::empty(),
    {
        ExtSymBuilder { entries: Vec::new() }
    }

    /// Registers a symbol of another package and gives its index in the
    /// external symbol table.
    pub fn intern(&mut self, pkg_id: PackageId, sym_idx: u32) -> (r: u32)
        ensures
            (r, final(self).entries()) == intern_spec(old(self).entries(), pkg_id.0, sym_idx),
    {
        let pkg = pkg_id.value();
        proof {
            lemma_find_ext(self.entries@, pkg, sym_idx);
        }
        let mut i: usize = 0;
        while i < self.entries.len()
            invariant
                i <= self.entries@.len(),
                self.entries@ == old(self).entries@,
                pkg == pkg_id.0,
                forall|k: int| 0 <= k < i ==> self.entries@[k] != ext_entry(pkg, sym_idx),
            decreases self.entries@.len() - i,
        {
            if self.entries[i].pkg == pkg && self.entries[i].sym.0 == sym_idx {
                proof {
                    let es = self.entries@;
                    lemma_find_ext(es, pkg, sym_idx);
                    let f = find_ext(es, pkg, sym_idx);
                    assert(es[i as int] == ext_entry(pkg, sym_idx));
                    if f < i {
                        assert(es[f as int] == ext_entry(pkg, sym_idx));
                    }
                    assert(f == i as nat);
                }
                return i as u32;
            }
            i = i + 1;
        }
        proof {
            let es = self.entries@;
            lemma_find_ext(es, pkg, sym_idx);
            let f = find_ext(es, pkg, sym_idx);
            if f < es.len() {
                assert(es[f as int] == ext_entry(pkg, sym_idx));
            }
        }
        let n = self.entries.len() as u32;
        self.entries.push(DiskExternalSymbol { pkg, sym: DiskSymbolIndex(sym_idx) });
        n
    }

    /// The table, in index order.
    pub fn finish(self) -> (r: Vec<DiskExternalSymbol>)
        ensures
            r@ == self.entries(),
    {
        self.entries
    }
}

/// A header with no symbol.
pub open spec fn plain_header(kind: u32, span: DiskSpan) -> DiskTyHeader {
    DiskTyHeader { kind, sym_id: DiskSymbolIndex(0), span }
}

/// The kind and symbol a named type is written with: a reserved definition
/// as its primitive kind, a type of this package as `Defined` with its
/// symbol index (0 if it has none), a type of another package as
/// `ExternalDefined` with its entry in the external symbol table.
pub open spec fn def_ref_enc(def: TyDefRef, t: TablesView, es: Seq<DiskExternalSymbol>) -> (u32, u32, Seq<DiskExternalSymbol>) {
    match def {
        TyDefRef::Prim(p) => (prim_kind_number(p), 0, es),
        TyDefRef::Def { pkg, local_idx } => if pkg.0 == 0 {
            (4, lookup_or(t.ty_to_sym, local_idx, 0), es)
        } else {
            let (i, es2) = intern_spec(es, pkg.0, local_idx);
            (8, i, es2)
        },
    }
}

/// The number of the disk kind of a primitive.
pub open spec fn prim_kind_number(p: PrimTy) -> u32 {
    match p {
        PrimTy::Int => 0,
        PrimTy::Float => 1,
        PrimTy::Bool => 2,
        PrimTy::Void => 3,
    }
}

/// A type as written, and the external symbol table after it. Generic
/// arguments are written before the type's own symbol is registered; a
/// function type keeps its arguments, then its result, and the number of
/// arguments (cut to 32 bits) as its symbol; a generic parameter keeps its
/// ordinal (0 if unknown); an inference left open is written as `Void`.
pub open spec fn enc_ty(ty: HirTy, t: TablesView, es: Seq<DiskExternalSymbol>) -> (DiskTyView, Seq<DiskExternalSymbol>)
    decreases ty, 1nat,
{
    let span = disk_span_of(ty.span, t.mod_to_file);
    match ty.kind {
        HirTyKind::Int => (DiskTyView { hdr: plain_header(0, span), genargs: Seq::empty() }, es),
        HirTyKind::Float => (DiskTyView { hdr: plain_header(1, span), genargs: Seq::empty() }, es),
        HirTyKind::Bool => (DiskTyView { hdr: plain_header(2, span), genargs: Seq::empty() }, es),
        HirTyKind::Void => (DiskTyView { hdr: plain_header(3, span), genargs: Seq::empty() }, es),
        HirTyKind::Defined { def, genargs } => {
            let g = enc_tys(genargs@, t, es);
            let d = def_ref_enc(def, t, g.1);
            (
                DiskTyView {
                    hdr: DiskTyHeader { kind: d.0, sym_id: DiskSymbolIndex(d.1), span },
                    genargs: g.0,
                },
                d.2,
            )
        },
        HirTyKind::Gen(id) => (
            DiskTyView {
                hdr: DiskTyHeader { kind: 5, sym_id: DiskSymbolIndex(lookup_or(t.gen_ord, id, 0)), span },
                genargs: Seq::empty(),
            },
            es,
        ),
        HirTyKind::LocGen(id) => (
            DiskTyView {
                hdr: DiskTyHeader { kind: 6, sym_id: DiskSymbolIndex(lookup_or(t.loc_gen_ord, id, 0)), span },
                genargs: Seq::empty(),
            },
            es,
        ),
        HirTyKind::Fn { args, rty } => {
            let a = enc_tys(args@, t, es);
            let r = enc_ty(*rty, t, a.1);
            (
                DiskTyView {
                    hdr: DiskTyHeader { kind: 7, sym_id: DiskSymbolIndex(args@.len() as u32), span },
                    genargs: a.0.push(r.0),
                },
                r.1,
            )
        },
        HirTyKind::Infer => (DiskTyView { hdr: plain_header(3, span), genargs: Seq::empty() }, es),
    }
}

/// Types written one after the other.
pub open spec fn enc_tys(tys: Seq<HirTy>, t: TablesView, es: Seq<DiskExternalSymbol>) -> (Seq<DiskTyView>, Seq<DiskExternalSymbol>)
    decreases tys, 0nat,
{
    if tys.len() == 0 {
        (Seq::empty(), es)
    } else {
        let init = enc_tys(tys.subrange(0, tys.len() - 1), t, es);
        let last = enc_ty(tys[tys.len() - 1], t, init.1);
        (init.0.push(last.0), last.1)
    }
}

proof fn lemma_take_trans(a: Seq<DiskExternalSymbol>, b: Seq<DiskExternalSymbol>, c: Seq<DiskExternalSymbol>)
    requires
        a.len() <= b.len() <= c.len(),
        b.take(a.len() as int) == a,
        c.take(b.len() as int) == b,
    ensures
        c.take(a.len() as int) == a,
{
    assert(c.take(a.len() as int) =~= a) by {
        assert forall|k: int| 0 <= k < a.len() implies c[k] == a[k] by {
            assert(c.take(b.len() as int)[k] == c[k]);
            assert(b.take(a.len() as int)[k] == b[k]);
        }
    }
}

/// Writing a type only adds to the external symbol table: the entries
/// already there stay where they are, and no symbol comes in twice. So an
/// index handed out for one type still holds when later types are
/// written.
pub proof fn lemma_enc_ty_extends(ty: HirTy, t: TablesView, es: Seq<DiskExternalSymbol>)
    ensures
        es.len() <= enc_ty(ty, t, es).1.len(),
        enc_ty(ty, t, es).1.take(es.len() as int) == es,
        ext_unique(es) ==> ext_unique(enc_ty(ty, t, es).1),
    decreases ty, 1nat,
{
    match ty.kind {
        HirTyKind::Defined { def, genargs } => {
            lemma_enc_tys_extends(genargs@, t, es);
            let g = enc_tys(genargs@, t, es);
            match def {
                TyDefRef::Def { pkg, local_idx } => {
                    if pkg.0 != 0 {
                        lemma_intern_extends(g.1, pkg.0, local_idx);
                        lemma_take_trans(es, g.1, intern_spec(g.1, pkg.0, local_idx).1);
                    }
                },
                _ => {},
            }
        },
        HirTyKind::Fn { args, rty } => {
            lemma_enc_tys_extends(args@, t, es);
            let a = enc_tys(args@, t, es);
            lemma_enc_ty_extends(*rty, t, a.1);
            lemma_take_trans(es, a.1, enc_ty(*rty, t, a.1).1);
        },
        _ => {
            assert(es.take(es.len() as int) =~= es);
        },
    }
}

/// [`lemma_enc_ty_extends`] for types written one after the other.
pub proof fn lemma_enc_tys_extends(tys: Seq<HirTy>, t: TablesView, es: Seq<DiskExternalSymbol>)
    ensures
        es.len() <= enc_tys(tys, t, es).1.len(),
        enc_tys(tys, t, es).1.take(es.len() as int) == es,
        ext_unique(es) ==> ext_unique(enc_tys(tys, t, es).1),
    decreases tys, 0nat,
{
    if tys.len() == 0 {
        assert(es.take(es.len() as int) =~= es);
    } else {
        let init = tys.subrange(0, tys.len() - 1);
        lemma_enc_tys_extends(init, t, es);
        let i = enc_tys(init, t, es);
        lemma_enc_ty_extends(tys[tys.len() - 1], t, i.1);
        lemma_take_trans(es, i.1, enc_ty(tys[tys.len() - 1], t, i.1).1);
    }
}

fn encode_tys(tys: &Vec<HirTy>, t: &TyEncodeTables<'_>, ext: &mut ExtSymBuilder) -> (r: Vec<DiskTy>)
    ensures
        (tys_view(r@), final(ext).entries()) == enc_tys(tys@, t@, old(ext).entries()),
    decreases tys, 0nat,
{
    let ghost ts = tys@;
    let ghost e0 = ext.entries();
    let mut out: Vec<DiskTy> = Vec::new();
    let mut i: usize = 0;
    assert(ts.take(0) =~= Seq::<HirTy>::empty());
    assert(tys_view(out@) =~= Seq::<DiskTyView>::empty());
    while i < tys.len()
        invariant
            i <= ts.len(),
            ts == tys@,
            (tys_view(out@), ext.entries()) == enc_tys(ts.take(i as int), t@, e0),
        decreases ts.len() - i,
    {
        proof {
            assert(decreases_to!(*tys => tys@));
            assert(decreases_to!(tys@ => tys@[i as int]));
            let tk = ts.take(i + 1);
            assert(tk.subrange(0, tk.len() - 1) =~= ts.take(i as int));
            assert(tk[tk.len() - 1] == ts[i as int]);
        }
        let ghost before = out@;
        let d = encode_ty(&tys[i], t, ext);
        out.push(d);
        proof {
            assert(out@.subrange(0, out@.len() - 1) =~= before);
            assert(tys_view(out@) == tys_view(before).push(out@[out@.len() - 1]@));
        }
        i = i + 1;
    }
    assert(ts.take(ts.len() as int) =~= ts);
    out
}

/// Writes a type, registering the types of other packages it names.
pub fn encode_ty(ty: &HirTy, t: &TyEncodeTables<'_>, ext: &mut ExtSymBuilder) -> (r: DiskTy)
    ensures
        (r@, final(ext).entries()) == enc_ty(*ty, t@, old(ext).entries()),
    decreases ty, 1nat,
{
    let span = to_disk_span(&ty.span, t.mod_to_file);
    match &ty.kind {
        HirTyKind::Int => DiskTy { hdr: DiskTyHeader { kind: 0, sym_id: DiskSymbolIndex(0), span }, genargs: Vec::new() },
        HirTyKind::Float => DiskTy { hdr: DiskTyHeader { kind: 1, sym_id: DiskSymbolIndex(0), span }, genargs: Vec::new() },
        HirTyKind::Bool => DiskTy { hdr: DiskTyHeader { kind: 2, sym_id: DiskSymbolIndex(0), span }, genargs: Vec::new() },
        HirTyKind::Void => DiskTy { hdr: DiskTyHeader { kind: 3, sym_id: DiskSymbolIndex(0), span }, genargs: Vec::new() },
        HirTyKind::Defined { def, genargs } => {
            proof {
                assert(decreases_to!(*ty => ty.kind));
                assert(decreases_to!(ty.kind => *genargs));
            }
            let gs = encode_tys(genargs, t, ext);
            let (kind, sym) = match def {
                TyDefRef::Prim(p) => {
                    let k: u32 = match p {
                        PrimTy::Int => 0,
                        PrimTy::Float => 1,
                        PrimTy::Bool => 2,
                        PrimTy::Void => 3,
                    };
                    (k, 0u32)
                },
                TyDefRef::Def { pkg, local_idx } => {
                    if pkg.is_self() {
                        (4u32, lookup_u32(t.ty_to_sym, *local_idx))
                    } else {
                        let i = ext.intern(*pkg, *local_idx);
                        (8u32, i)
                    }
                },
            };
            DiskTy { hdr: DiskTyHeader { kind, sym_id: DiskSymbolIndex(sym), span }, genargs: gs }
        },
        HirTyKind::Gen(id) => DiskTy {
            hdr: DiskTyHeader { kind: 5, sym_id: DiskSymbolIndex(lookup_u64(t.gen_ord, *id)), span },
            genargs: Vec::new(),
        },
        HirTyKind::LocGen(id) => DiskTy {
            hdr: DiskTyHeader { kind: 6, sym_id: DiskSymbolIndex(lookup_u64(t.loc_gen_ord, *id)), span },
            genargs: Vec::new(),
        },
        HirTyKind::Fn { args, rty } => {
            proof {
                assert(decreases_to!(*ty => ty.kind));
                assert(decreases_to!(ty.kind => *args));
                assert(decreases_to!(ty.kind => **rty));
            }
            let mut gs = encode_tys(args, t, ext);
            let r = encode_ty(rty, t, ext);
            let ghost before = gs@;
            gs.push(r);
            proof {
                assert(gs@.subrange(0, gs@.len() - 1) =~= before);
                assert(tys_view(gs@) == tys_view(before).push(gs@[gs@.len() - 1]@));
            }
            DiskTy {
                hdr: DiskTyHeader { kind: 7, sym_id: DiskSymbolIndex(args.len() as u32), span },
                genargs: gs,
            }
        },
        HirTyKind::Infer => DiskTy { hdr: DiskTyHeader { kind: 3, sym_id: DiskSymbolIndex(0), span }, genargs: Vec::new() },
    }
}


// --- function bodies ---

/// A generic parameter of a function or of its impl, by the id of its
/// definition.
#[derive(Debug)]
pub struct HirGenArg {
    pub def_id: u64,
    pub name: String,
    pub name_span: Span,
}

/// An argument of a function.
#[derive(Debug)]
pub struct HirArg {
    pub name: String,
    pub name_span: Span,
    pub ty: HirTy,
}

/// A function's signature as the analysis sees it.
#[derive(Debug)]
pub struct HirFnSig {
    pub genargs: Vec<HirGenArg>,
    pub args: Vec<HirArg>,
    pub rty: HirTy,
    /// Where the signature is written.
    pub span: Span,
}

/// Pushing a string into the string table: its offset (cut to 32 bits, as
/// written) and the table after.
pub open spec fn push_string(st: Seq<u8>, s: Seq<char>) -> (u32, Seq<u8>) {
    (st.len() as u32, st + encode_utf8(s) + seq![0u8])
}

/// The ordinals of a function's generic parameters, as a lookup table: the
/// impl's parameters come first, then the function's own, and a parameter
/// listed twice takes its later place.
pub open spec fn gen_ords(ids: Seq<u64>) -> Seq<(u64, u32)> {
    Seq::new(ids.len(), |k: int| (ids[ids.len() - 1 - k], (ids.len() - 1 - k) as u32))
}

/// The generic parameters as written, and the string table after their
/// names.
pub open spec fn enc_genargs(gs: Seq<HirGenArg>, t: TablesView, st: Seq<u8>) -> (Seq<DiskGenArg>, Seq<u8>)
    decreases gs.len(),
{
    if gs.len() == 0 {
        (Seq::empty(), st)
    } else {
        let init = enc_genargs(gs.drop_last(), t, st);
        let g = gs.last();
        let (off, st2) = push_string(init.1, g.name@);
        (init.0.push(DiskGenArg { name: DiskStringOffset(off), name_span: disk_span_of(g.name_span, t.mod_to_file) }), st2)
    }
}

/// The arguments as written, with the string table and the external
/// symbol table after them.
pub open spec fn enc_args(args: Seq<HirArg>, t: TablesView, st: Seq<u8>, es: Seq<DiskExternalSymbol>) -> (Seq<DiskArgView>, Seq<u8>, Seq<DiskExternalSymbol>)
    decreases args.len(),
{
    if args.len() == 0 {
        (Seq::empty(), st, es)
    } else {
        let init = enc_args(args.drop_last(), t, st, es);
        let a = args.last();
        let (off, st2) = push_string(init.1, a.name@);
        let ty = enc_ty(a.ty, t, init.2);
        (
            init.0.push(DiskArgView { name: DiskStringOffset(off), name_span: disk_span_of(a.name_span, t.mod_to_file), ty: ty.0 }),
            st2,
            ty.1,
        )
    }
}

/// The body of a function symbol, with the string table and the external
/// symbol table after it. The strings go in this order: the name, the
/// source of the signature, the names of the generic parameters (the
/// impl's, then the function's), then each argument's name. Types are
/// written with the given tables, the generic parameters of the function
/// numbered by `gen_ords`.
pub open spec fn enc_fn_data(
    name: Seq<char>,
    name_span: Span,
    raw_code: Seq<char>,
    sig: HirFnSig,
    impl_genargs: Seq<HirGenArg>,
    impl_self_ty: Option<HirTy>,
    t: TablesView,
    st: Seq<u8>,
    es: Seq<DiskExternalSymbol>,
) -> (DiskFnDataView, Seq<u8>, Seq<DiskExternalSymbol>) {
    let all = impl_genargs + sig.genargs@;
    let ords = gen_ords(all.map_values(|g: HirGenArg| g.def_id));
    let ft = TablesView { loc_gen_ord: ords, ..t };
    let (name_off, st1) = push_string(st, name);
    let (raw_off, st2) = push_string(st1, raw_code);
    let (gs, st3) = enc_genargs(all, ft, st2);
    let (args, st4, es1) = enc_args(sig.args@, ft, st3, es);
    let (rty, es2) = enc_ty(sig.rty, ft, es1);
    let (self_tys, es3) = match impl_self_ty {
        Some(s) => {
            let (v, e) = enc_ty(s, ft, es2);
            (seq![v], e)
        },
        None => (Seq::empty(), es2),
    };
    (
        DiskFnDataView {
            name: DiskStringOffset(name_off),
            name_span: disk_span_of(name_span, t.mod_to_file),
            def_raw_code: DiskStringOffset(raw_off),
            def_span: disk_span_of(sig.span, t.mod_to_file),
            genargs: gs,
            args,
            rty,
            impl_self_ty: self_tys,
        },
        st4,
        es3,
    )
}

/// The ids of the generic parameters, the impl's first.
pub open spec fn genarg_ids(impl_genargs: Seq<HirGenArg>, sig: HirFnSig) -> Seq<u64> {
    (impl_genargs + sig.genargs@).map_values(|g: HirGenArg| g.def_id)
}

fn genarg_at<'b>(first: &'b Vec<HirGenArg>, second: &'b Vec<HirGenArg>, i: usize) -> (r: &'b HirGenArg)
    requires
        i < first@.len() + second@.len(),
    ensures
        *r == (first@ + second@)[i as int],
{
    if i < first.len() {
        &first[i]
    } else {
        &second[i - first.len()]
    }
}

/// Writes the body of a function symbol, its strings into the string
/// table and the types of other packages it names into the external
/// symbol table. Also gives the ordinals of the function's generic
/// parameters, for the caller to record against the function's symbol:
/// each function numbers them on its own, so `T` of `impl[T] Vec[T]` is
/// a different parameter in each of its functions.
pub fn encode_fn_data(
    name: &str,
    name_span: &Span,
    raw_code: &str,
    sig: &HirFnSig,
    impl_genargs: &Vec<HirGenArg>,
    impl_self_ty: &Option<HirTy>,
    t: &TyEncodeTables<'_>,
    strings: &mut StringTable,
    ext: &mut ExtSymBuilder,
) -> (r: (DiskFnData, Vec<(u64, u32)>))
    requires
        impl_genargs@.len() + sig.genargs@.len() <= usize::MAX,
    ensures
        ({
            let e = enc_fn_data(name@, *name_span, raw_code@, *sig, impl_genargs@, *impl_self_ty, t@, old(strings)@, old(ext).entries());
            &&& r.0@ == e.0
            &&& final(strings)@ == e.1
            &&& final(ext).entries() == e.2
        }),
        r.1@ == gen_ords(genarg_ids(impl_genargs@, *sig)),
{
    let ghost all = impl_genargs@ + sig.genargs@;
    let ghost ids = genarg_ids(impl_genargs@, *sig);
    let name_off = strings.push(name);
    let disk_name_span = to_disk_span(name_span, t.mod_to_file);
    let raw_off = strings.push(raw_code);
    let def_span = to_disk_span(&sig.span, t.mod_to_file);

    // The ordinals, as a table where the later of two equal ids wins.
    let n = impl_genargs.len() + sig.genargs.len();
    let mut ords: Vec<(u64, u32)> = Vec::new();
    let mut k: usize = 0;
    while k < n
        invariant
            n == all.len(),
            all == impl_genargs@ + sig.genargs@,
            ids == genarg_ids(impl_genargs@, *sig),
            k <= n,
            ords@ == gen_ords(ids).take(k as int),
        decreases n - k,
    {
        let j = n - 1 - k;
        let g = genarg_at(impl_genargs, &sig.genargs, j);
        ords.push((g.def_id, j as u32));
        assert(ords@ =~= gen_ords(ids).take(k + 1));
        k = k + 1;
    }
    assert(ords@ =~= gen_ords(ids));
    let ft = TyEncodeTables {
        ty_to_sym: t.ty_to_sym,
        gen_ord: t.gen_ord,
        loc_gen_ord: ords.as_slice(),
        mod_to_file: t.mod_to_file,
    };
    let ghost ftv = TablesView { loc_gen_ord: gen_ords(ids), ..t@ };
    assert(ft@ == ftv);

    // Generic parameters.
    let ghost st2 = strings@;
    let mut gvec: Vec<DiskGenArg> = Vec::new();
    let mut i: usize = 0;
    assert(all.take(0) =~= Seq::<HirGenArg>::empty());
    while i < n
        invariant
            n == all.len(),
            all == impl_genargs@ + sig.genargs@,
            i <= n,
            t.mod_to_file@ == ftv.mod_to_file,
            (gvec@, strings@) == enc_genargs(all.take(i as int), ftv, st2),
        decreases n - i,
    {
        let g = genarg_at(impl_genargs, &sig.genargs, i);
        let off = strings.push(g.name.as_str());
        let sp = to_disk_span(&g.name_span, t.mod_to_file);
        gvec.push(DiskGenArg { name: off, name_span: sp });
        proof {
            let tk = all.take(i + 1);
            assert(tk.drop_last() =~= all.take(i as int));
            assert(tk.last() == *g);
        }
        i = i + 1;
    }
    assert(all.take(n as int) =~= all);
    let ghost st3 = strings@;
    let ghost es0 = ext.entries();

    // Arguments.
    let ghost args = sig.args@;
    let mut avec: Vec<DiskArg> = Vec::new();
    let mut i: usize = 0;
    assert(args.take(0) =~= Seq::<HirArg>::empty());
    assert(avec@.map_values(|x: DiskArg| x@) =~= Seq::<DiskArgView>::empty());
    while i < sig.args.len()
        invariant
            args == sig.args@,
            i <= args.len(),
            ft@ == ftv,
            t.mod_to_file@ == ftv.mod_to_file,
            (avec@.map_values(|x: DiskArg| x@), strings@, ext.entries()) == enc_args(args.take(i as int), ftv, st3, es0),
        decreases args.len() - i,
    {
        let a = &sig.args[i];
        let off = strings.push(a.name.as_str());
        let sp = to_disk_span(&a.name_span, t.mod_to_file);
        let ty = encode_ty(&a.ty, &ft, ext);
        let ghost before = avec@;
        avec.push(DiskArg { name: off, name_span: sp, ty });
        proof {
            let tk = args.take(i + 1);
            assert(tk.drop_last() =~= args.take(i as int));
            assert(tk.last() == *a);
            assert(avec@.map_values(|x: DiskArg| x@) =~= before.map_values(|x: DiskArg| x@).push(avec@[before.len() as int]@));
        }
        i = i + 1;
    }
    assert(args.take(args.len() as int) =~= args);

    let rty = encode_ty(&sig.rty, &ft, ext);
    let mut svec: Vec<DiskTy> = Vec::new();
    match impl_self_ty {
        Some(s) => {
            let d = encode_ty(s, &ft, ext);
            svec.push(d);
            assert(svec@.map_values(|x: DiskTy| x@) =~= seq![svec@[0]@]);
        },
        None => {
            assert(svec@.map_values(|x: DiskTy| x@) =~= Seq::<DiskTyView>::empty());
        },
    }
    assert(gvec@.map_values(|x: DiskGenArg| x@) =~= gvec@);
    let data = DiskFnData {
        name: name_off,
        name_span: disk_name_span,
        def_raw_code: raw_off,
        def_span,
        genargs: DiskVec(gvec),
        args: DiskVec(avec),
        rty,
        impl_self_ty: DiskVec(svec),
    };
    (data, ords)
}

} // verus!
