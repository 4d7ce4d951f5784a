//! Building a package's `.biwameta` from what the analysis knows of it.

use vstd::prelude::*;
use crate::hash::Hash64;
use crate::ident::str_eq;
use crate::module::{ModPath, ModPathView, spec_file_name, strings_view};
use crate::sort::{sort_strings, sort_strs, string_views, lemma_sort_strs_len, lemma_sort_strs_member};
use crate::span::Span;
use crate::src::ModId;
use super::body::{SymbolBody, SymbolBodyView, body_kind_code};
use super::codec::DiskVec;
use super::encode_ty::{ExtSymBuilder, HirFnSig, HirGenArg, HirTy, TyEncodeTables, encode_fn_data,
    encode_ty, to_disk_span};
use super::format::{DiskBodyOffset, DiskDepSvh, DiskFileIndex, DiskGenArg, DiskModData, DiskNativeTypeAliasData,
    DiskSourceInfo, DiskSpan, DiskStructData, DiskStructMember, DiskSymbolHeader, DiskSymbolIndex};
use super::lang_item::DiskLangItem;
use super::svh::{svh_stream, svh_source};
use super::table::{LazyDiskVec, SourceFileTable, StringTable, body_table, extends, lemma_extends_trans,
    lemma_string_at_extends, lemma_string_table_push_get, string_at};
use super::encode_ty::{enc_args, enc_fn_data, enc_genargs, enc_ty, gen_ords, disk_span_of, push_string, TablesView, HirArg,
    lemma_enc_ty_extends};
use super::format::{DiskStructDataView, DiskStructMemberView, DiskNativeTypeAliasDataView, DiskStringOffset};
use super::svh_invariance::no_span;
use super::format::DiskExternalSymbol;
use vstd::utf8::encode_utf8;
use super::{DepMetadata, symbol_body_at};
use super::fit::lemma_body_fits;
use super::table::{body_at, lemma_body_table_holds_entry, lemma_body_table_read};
use crate::hash::stream_hash;
use crate::text::string_of_str;

verus! {

// --- the package, as the analysis hands it over ---

/// A module of the package being built.
#[derive(Debug)]
pub struct HirModule {
    pub mod_id: ModId,
    pub path: ModPath,
}

/// A member of a struct.
#[derive(Debug)]
pub struct HirMember {
    pub name: String,
    pub ty: HirTy,
}

/// A struct of the package. `genargs` are the ids of its generic
/// parameters, in order; `raw_code` is the source text of its name.
#[derive(Debug)]
pub struct HirStructDef {
    pub def_id: u32,
    pub name: String,
    pub name_span: Span,
    pub raw_code: String,
    pub genargs: Vec<u64>,
    pub members: Vec<HirMember>,
}

/// A native type alias of the package: a type whose code is written in the
/// target language.
#[derive(Debug)]
pub struct HirAliasDef {
    pub def_id: u32,
    pub name: String,
    pub name_span: Span,
    pub native: String,
    pub native_span: Span,
    pub genargs: Vec<HirGenArg>,
}

/// A function of the package. `parent` is the type whose impl declares it,
/// for an associated function; `impl_self_ty` is that impl's self type.
#[derive(Debug)]
pub struct HirFnDef {
    pub def_id: u32,
    pub name: String,
    pub name_span: Span,
    pub raw_code: String,
    pub sig: HirFnSig,
    pub impl_genargs: Vec<HirGenArg>,
    pub impl_self_ty: Option<HirTy>,
    pub parent: Option<u32>,
}

/// What a lang item of the package names: a type or a function.
#[derive(Debug, Clone, Copy, PartialEq, Eq, Structural)]
pub enum LangItemTarget {
    Ty(u32),
    Fn(u32),
}

/// A lang item the package defines, by the number of the item.
#[derive(Debug, Clone, Copy, PartialEq, Eq, Structural)]
pub struct HirLangItem {
    pub item: u32,
    pub target: LangItemTarget,
}

/// What `.biwameta` is built from: the package's own modules and the
/// items it exports, each with the local id of its definition.
#[derive(Debug)]
pub struct HirPackage {
    pub modules: Vec<HirModule>,
    pub structs: Vec<HirStructDef>,
    pub aliases: Vec<HirAliasDef>,
    pub fns: Vec<HirFnDef>,
    pub lang_items: Vec<HirLangItem>,
}

/// The symbol index each definition got: the package's ids as its
/// dependents see them, which `.biwamir` is written with too.
#[derive(Debug)]
pub struct SymbolIndexMap {
    /// (local id of a type, symbol index)
    pub tys: Vec<(u32, u32)>,
    /// (local id of a function, symbol index)
    pub vals: Vec<(u32, u32)>,
    /// (module, symbol index)
    pub modules: Vec<(ModId, u32)>,
}

// --- a stable sort of keyed pairs ---

/// Inserts `x` right after the last element whose key is not greater than
/// `x`'s, so equal keys keep their order.
pub open spec fn insert_keyed(s: Seq<(u64, u64)>, x: (u64, u64)) -> Seq<(u64, u64)>
    decreases s.len(),
{
    if s.len() == 0 {
        seq![x]
    } else if s.last().0 <= x.0 {
        s.push(x)
    } else {
        insert_keyed(s.drop_last(), x).push(s.last())
    }
}

/// `s.sort_by_key(|p| p.0)`: a stable sort by the first component.
pub open spec fn sort_keyed(s: Seq<(u64, u64)>) -> Seq<(u64, u64)>
    decreases s.len(),
{
    if s.len() == 0 {
        Seq::empty()
    } else {
        insert_keyed(sort_keyed(s.drop_last()), s.last())
    }
}

proof fn lemma_insert_keyed_at(s: Seq<(u64, u64)>, x: (u64, u64), j: int)
    requires
        0 <= j <= s.len(),
        forall|k: int| j <= k < s.len() ==> #[trigger] s[k].0 > x.0,
        j == 0 || s[j - 1].0 <= x.0,
    ensures
        insert_keyed(s, x) == s.insert(j, x),
    decreases s.len(),
{
    if s.len() == 0 {
        assert(s.insert(j, x) =~= seq![x]);
    } else if j == s.len() {
        assert(s.insert(j, x) =~= s.push(x));
    } else {
        let t = s.drop_last();
        assert forall|k: int| j <= k < t.len() implies #[trigger] t[k].0 > x.0 by {
            assert(t[k] == s[k]);
        }
        lemma_insert_keyed_at(t, x, j);
        assert(t.insert(j, x).push(s.last()) =~= s.insert(j, x));
    }
}

/// Sorts pairs by their first component, keeping the order of equal keys.
pub fn sort_keyed_pairs(v: &[(u64, u64)]) -> (r: Vec<(u64, u64)>)
    ensures
        r@ == sort_keyed(v@),
{
    let mut out: Vec<(u64, u64)> = Vec::new();
    let mut i: usize = 0;
    assert(v@.take(0) =~= Seq::<(u64, u64)>::empty());
    while i < v.len()
        invariant
            i <= v@.len(),
            out@ == sort_keyed(v@.take(i as int)),
        decreases v@.len() - i,
    {
        let x = v[i];
        let mut j: usize = out.len();
        while j > 0 && out[j - 1].0 > x.0
            invariant
                j <= out@.len(),
                forall|k: int| j <= k < out@.len() ==> #[trigger] out@[k].0 > x.0,
            decreases j,
        {
            j = j - 1;
        }
        proof {
            lemma_insert_keyed_at(out@, x, j as int);
            let t = v@.take(i + 1);
            assert(t.drop_last() =~= v@.take(i as int));
            assert(t.last() == x);
        }
        out.insert(j, x);
        i = i + 1;
    }
    assert(v@.take(v@.len() as int) =~= v@);
    out
}

/// The keys of a stable sort come out in ascending order.
pub proof fn lemma_sort_keyed_sorted(s: Seq<(u64, u64)>)
    ensures
        forall|a: int, b: int| 0 <= a < b < sort_keyed(s).len() ==>
            #[trigger] sort_keyed(s)[a].0 <= #[trigger] sort_keyed(s)[b].0,
        sort_keyed(s).len() == s.len(),
    decreases s.len(),
{
    if s.len() > 0 {
        lemma_sort_keyed_sorted(s.drop_last());
        lemma_insert_keyed_sorted(sort_keyed(s.drop_last()), s.last());
    }
}

proof fn lemma_insert_keyed_sorted(s: Seq<(u64, u64)>, x: (u64, u64))
    requires
        forall|a: int, b: int| 0 <= a < b < s.len() ==> #[trigger] s[a].0 <= #[trigger] s[b].0,
    ensures
        forall|a: int, b: int| 0 <= a < b < insert_keyed(s, x).len() ==>
            #[trigger] insert_keyed(s, x)[a].0 <= #[trigger] insert_keyed(s, x)[b].0,
        insert_keyed(s, x).len() == s.len() + 1,
        s.len() > 0 ==> insert_keyed(s, x).last().0 == if s.last().0 <= x.0 { x.0 } else { s.last().0 },
    decreases s.len(),
{
    if s.len() > 0 && s.last().0 > x.0 {
        let t = s.drop_last();
        assert forall|a: int, b: int| 0 <= a < b < t.len() implies #[trigger] t[a].0 <= #[trigger] t[b].0 by {
            assert(t[a] == s[a] && t[b] == s[b]);
        }
        lemma_insert_keyed_sorted(t, x);
        let r = insert_keyed(t, x);
        let rr = r.push(s.last());
        assert forall|a: int, b: int| 0 <= a < b < rr.len() implies #[trigger] rr[a].0 <= #[trigger] rr[b].0 by {
            if b == rr.len() - 1 {
                if t.len() > 0 {
                    assert(t.last() == s[s.len() - 2]);
                    assert(s[s.len() - 2].0 <= s[s.len() - 1].0);
                } else {
                    assert(r.last() == x);
                }
                assert(r[a].0 <= r.last().0 || a == r.len() - 1);
            } else {
                assert(rr[a] == r[a] && rr[b] == r[b]);
            }
        }
    } else if s.len() > 0 {
        let rr = s.push(x);
        assert forall|a: int, b: int| 0 <= a < b < rr.len() implies #[trigger] rr[a].0 <= #[trigger] rr[b].0 by {
            if b == rr.len() - 1 {
                assert(rr[a] == s[a] && rr[b] == x);
                if a < s.len() - 1 {
                    assert(s[a].0 <= s[s.len() - 1].0);
                }
            } else {
                assert(rr[a] == s[a] && rr[b] == s[b]);
            }
        }
    }
}


// --- building ---

/// The dependencies' SVHs as keyed pairs: (package id, SVH).
pub open spec fn dep_pairs(ds: Seq<(u32, u64)>) -> Seq<(u64, u64)> {
    ds.map_values(|d: (u32, u64)| (d.0 as u64, d.1))
}

/// Keyed pairs back as entries of the dependency SVH table.
pub open spec fn dep_entries(ps: Seq<(u64, u64)>) -> Seq<DiskDepSvh> {
    ps.map_values(|p: (u64, u64)| DiskDepSvh { pkg: p.0 as u32, svh: p.1 })
}

/// The file names of the modules.
pub open spec fn module_file_names(ms: Seq<HirModule>) -> Seq<Seq<char>> {
    ms.map_values(|m: HirModule| spec_file_name(m.path@))
}

/// How many of the functions are associated with a type.
pub open spec fn assoc_count(fns: Seq<HirFnDef>) -> nat
    decreases fns.len(),
{
    if fns.len() == 0 {
        0
    } else {
        assoc_count(fns.drop_last()) + if fns.last().parent is Some { 1nat } else { 0nat }
    }
}

/// The symbol of the root module: the lib module's, else the main
/// module's (modules come after all other symbols, by file name), else 0.
pub open spec fn root_symbol(pkg: HirPackage) -> int {
    let names = sort_strs(module_file_names(pkg.modules@));
    let base = pkg.structs@.len() + pkg.aliases@.len() + pkg.fns@.len();
    if exists|q: int| 0 <= q < pkg.modules@.len() && (#[trigger] pkg.modules@[q]).path@ == ModPathView::Lib {
        base + first_index(names, spec_file_name(ModPathView::Lib))
    } else if exists|q: int| 0 <= q < pkg.modules@.len() && (#[trigger] pkg.modules@[q]).path@ == ModPathView::Main {
        base + first_index(names, spec_file_name(ModPathView::Main))
    } else {
        0
    }
}

/// Among the first `k` modules, the first whose file is the `j`-th in order.
pub open spec fn first_with_file(files: Seq<(ModId, u32)>, j: int, k: int) -> Option<int>
    decreases k,
{
    if k <= 0 {
        None
    } else {
        match first_with_file(files, j, k - 1) {
            Some(x) => Some(x),
            None => if files[k - 1].1 == j {
                Some(k - 1)
            } else {
                None
            },
        }
    }
}

/// The module whose body is the `j`-th module symbol: the first module
/// whose file name is the `j`-th in order.
pub open spec fn module_at(pkg: HirPackage, j: int) -> int {
    match first_with_file(mod_files(pkg), j, pkg.modules@.len() as int) {
        Some(x) => x,
        None => 0,
    }
}

proof fn lemma_first_with_file_stays(files: Seq<(ModId, u32)>, j: int, k: int, l: int)
    requires
        0 <= k <= l,
        first_with_file(files, j, k) is Some,
    ensures
        first_with_file(files, j, l) == first_with_file(files, j, k),
    decreases l - k,
{
    if l > k {
        lemma_first_with_file_stays(files, j, k, l - 1);
    }
}

/// Whether the module at `c` is a child of the one at `p`: a top-level
/// module is a child of the root module (the lib module when there is one,
/// else the main one); a nested one of the module one segment shorter
/// with the same leading segments.
pub open spec fn parent_of(p: ModPathView, c: ModPathView, root_is_lib: bool) -> bool {
    match c {
        ModPathView::Mod(cs) => if cs.len() == 1 {
            match p {
                ModPathView::Lib => root_is_lib,
                ModPathView::Main => !root_is_lib,
                ModPathView::Mod(_) => false,
            }
        } else {
            match p {
                ModPathView::Mod(ps) => cs.len() > 0 && ps.len() + 1 == cs.len() && ps == cs.take(ps.len() as int),
                _ => false,
            }
        },
        _ => false,
    }
}

/// Whether the package has a lib module.
pub open spec fn has_lib(pkg: HirPackage) -> bool {
    exists|q: int| 0 <= q < pkg.modules@.len() && (#[trigger] pkg.modules@[q]).path@ == ModPathView::Lib
}

/// The symbols of the first `k` structs in symbol order (by `so`) that are
/// declared in the file of module `file`.
pub open spec fn struct_children(pkg: HirPackage, so: Seq<int>, file: u64, k: int) -> Seq<DiskSymbolIndex>
    decreases k,
{
    if k <= 0 {
        Seq::empty()
    } else {
        let r = struct_children(pkg, so, file, k - 1);
        if pkg.structs@[so[k - 1]].name_span.file.0 == file {
            r.push(DiskSymbolIndex((k - 1) as u32))
        } else {
            r
        }
    }
}

/// The same for the first `k` native type aliases (by `ao`).
pub open spec fn alias_children(pkg: HirPackage, ao: Seq<int>, file: u64, k: int) -> Seq<DiskSymbolIndex>
    decreases k,
{
    if k <= 0 {
        Seq::empty()
    } else {
        let r = alias_children(pkg, ao, file, k - 1);
        if pkg.aliases@[ao[k - 1]].name_span.file.0 == file {
            r.push(DiskSymbolIndex((pkg.structs@.len() + k - 1) as u32))
        } else {
            r
        }
    }
}

/// The same for the top-level functions among the first `k` (by `fo`):
/// those from place `n_assoc` on.
pub open spec fn fn_children(pkg: HirPackage, fo: Seq<int>, n_assoc: int, file: u64, k: int) -> Seq<DiskSymbolIndex>
    decreases k - n_assoc,
{
    if k <= n_assoc {
        Seq::empty()
    } else {
        let r = fn_children(pkg, fo, n_assoc, file, k - 1);
        if pkg.fns@[fo[k - 1]].name_span.file.0 == file {
            r.push(DiskSymbolIndex((pkg.structs@.len() + pkg.aliases@.len() + k - 1) as u32))
        } else {
            r
        }
    }
}

/// The symbols of the first `k` modules (in symbol order, the module of
/// symbol `q` at place `ma[q]`) that are children of the module at `here`.
pub open spec fn sub_children(pkg: HirPackage, ma: Seq<int>, here: ModPathView, root_is_lib: bool, k: int) -> Seq<DiskSymbolIndex>
    decreases k,
{
    if k <= 0 {
        Seq::empty()
    } else {
        let r = sub_children(pkg, ma, here, root_is_lib, k - 1);
        if parent_of(here, pkg.modules@[ma[k - 1]].path@, root_is_lib) {
            r.push(DiskSymbolIndex((pkg.structs@.len() + pkg.aliases@.len() + pkg.fns@.len() + k - 1) as u32))
        } else {
            r
        }
    }
}

/// The children of the module at place `pos`: the structs, native type
/// aliases and top-level functions declared in its file, then its
/// submodules, each group in symbol order.
pub open spec fn children_spec(
    pkg: HirPackage,
    so: Seq<int>,
    ao: Seq<int>,
    fo: Seq<int>,
    n_assoc: int,
    ma: Seq<int>,
    pos: int,
    root_is_lib: bool,
) -> Seq<DiskSymbolIndex> {
    let here = pkg.modules@[pos];
    struct_children(pkg, so, here.mod_id.0, pkg.structs@.len() as int)
        + alias_children(pkg, ao, here.mod_id.0, pkg.aliases@.len() as int)
        + fn_children(pkg, fo, n_assoc, here.mod_id.0, pkg.fns@.len() as int)
        + sub_children(pkg, ma, here.path@, root_is_lib, pkg.modules@.len() as int)
}

/// The children of the module symbol `j`.
pub open spec fn module_children(pkg: HirPackage, j: int) -> Seq<DiskSymbolIndex> {
    children_spec(
        pkg,
        struct_order_spec(pkg),
        alias_order_spec(pkg),
        fn_order_spec(pkg),
        assoc_fn_keys(pkg.fns@).len() as int,
        Seq::new(pkg.modules@.len(), |q: int| module_at(pkg, q)),
        module_at(pkg, j),
        has_lib(pkg),
    )
}

/// Symbol `q` holds the struct at place `q` of the symbol order, written
/// after the string table `st` and the external symbol table `es`; what it
/// wrote into both tables stays, at its place, in `m`.
pub open spec fn struct_written(
    pkg: HirPackage,
    tys: Seq<(u32, u32)>,
    m: super::DepMetadataView,
    q: int,
    st: Seq<u8>,
    es: Seq<DiskExternalSymbol>,
) -> bool {
    let d = pkg.structs@[struct_order_spec(pkg)[q]];
    let e = struct_body_spec(d, assoc_of(pkg, d.def_id), tys, mod_files(pkg), st, es);
    &&& symbol_body_at(m, q) == Ok::<SymbolBodyView, super::error::DepMetadataError>(e.0)
    &&& extends(e.1, m.strings)
    &&& ext_extends(e.2, m.ext_syms)
}

/// Symbol `n_s + q` holds the native type alias at place `q` of the
/// symbol order, written after the string table `st`.
pub open spec fn alias_written(pkg: HirPackage, m: super::DepMetadataView, q: int, st: Seq<u8>) -> bool {
    let d = pkg.aliases@[alias_order_spec(pkg)[q]];
    let e = alias_body_spec(d, assoc_of(pkg, d.def_id), mod_files(pkg), st);
    &&& symbol_body_at(m, pkg.structs@.len() + q) == Ok::<SymbolBodyView, super::error::DepMetadataError>(e.0)
    &&& extends(e.1, m.strings)
}

/// Symbol `n_s + n_a + q` holds the function at place `q` of the symbol
/// order, written after the tables `st` and `es`; what it wrote into both
/// stays, at its place, in `m`.
pub open spec fn fn_written(
    pkg: HirPackage,
    tys: Seq<(u32, u32)>,
    m: super::DepMetadataView,
    q: int,
    st: Seq<u8>,
    es: Seq<DiskExternalSymbol>,
) -> bool {
    let e = fn_body_spec(pkg.fns@[fn_order_spec(pkg)[q]], tys, mod_files(pkg), st, es);
    &&& symbol_body_at(m, pkg.structs@.len() + pkg.aliases@.len() + q)
        == Ok::<SymbolBodyView, super::error::DepMetadataError>(e.0)
    &&& extends(e.1, m.strings)
    &&& ext_extends(e.2, m.ext_syms)
}

/// Symbol `n_s + n_a + n_f + q` holds the module whose file name is the
/// `q`-th in order, with its children, written after the string table `st`.
pub open spec fn mod_written(pkg: HirPackage, m: super::DepMetadataView, q: int, st: Seq<u8>) -> bool {
    let e = mod_body_spec(pkg.modules@[module_at(pkg, q)].path@, module_children(pkg, q), st);
    &&& symbol_body_at(m, pkg.structs@.len() + pkg.aliases@.len() + pkg.fns@.len() + q)
        == Ok::<SymbolBodyView, super::error::DepMetadataError>(e.0)
    &&& extends(e.1, m.strings)
}

/// Symbol `q` holds the struct at place `q` of the symbol order, for some
/// state of the tables before it.
pub open spec fn struct_stored(pkg: HirPackage, tys: Seq<(u32, u32)>, m: super::DepMetadataView, q: int) -> bool {
    exists|st: Seq<u8>, es: Seq<DiskExternalSymbol>| #[trigger] struct_written(pkg, tys, m, q, st, es)
}

/// Symbol `n_s + q` holds the native type alias at place `q`.
pub open spec fn alias_stored(pkg: HirPackage, m: super::DepMetadataView, q: int) -> bool {
    exists|st: Seq<u8>| #[trigger] alias_written(pkg, m, q, st)
}

/// Symbol `n_s + n_a + q` holds the function at place `q`.
pub open spec fn fn_stored(pkg: HirPackage, tys: Seq<(u32, u32)>, m: super::DepMetadataView, q: int) -> bool {
    exists|st: Seq<u8>, es: Seq<DiskExternalSymbol>| #[trigger] fn_written(pkg, tys, m, q, st, es)
}

/// Symbol `n_s + n_a + n_f + q` holds the module whose file name is the
/// `q`-th in order.
pub open spec fn mod_stored(pkg: HirPackage, m: super::DepMetadataView, q: int) -> bool {
    exists|st: Seq<u8>| #[trigger] mod_written(pkg, m, q, st)
}

/// The structs as keyed pairs: (id of the definition, position).
pub open spec fn struct_keys(pkg: HirPackage) -> Seq<(u64, u64)> {
    Seq::new(pkg.structs@.len(), |i: int| (pkg.structs@[i].def_id as u64, i as u64))
}

/// The native type aliases as keyed pairs: (id of the definition, position).
pub open spec fn alias_keys(pkg: HirPackage) -> Seq<(u64, u64)> {
    Seq::new(pkg.aliases@.len(), |i: int| (pkg.aliases@[i].def_id as u64, i as u64))
}

/// The associated functions as keyed pairs, in the order given.
pub open spec fn assoc_fn_keys(fns: Seq<HirFnDef>) -> Seq<(u64, u64)>
    decreases fns.len(),
{
    if fns.len() == 0 {
        Seq::empty()
    } else {
        let r = assoc_fn_keys(fns.drop_last());
        if fns.last().parent is Some {
            r.push((fns.last().def_id as u64, (fns.len() - 1) as u64))
        } else {
            r
        }
    }
}

/// The top-level functions as keyed pairs, in the order given.
pub open spec fn top_fn_keys(fns: Seq<HirFnDef>) -> Seq<(u64, u64)>
    decreases fns.len(),
{
    if fns.len() == 0 {
        Seq::empty()
    } else {
        let r = top_fn_keys(fns.drop_last());
        if fns.last().parent is None {
            r.push((fns.last().def_id as u64, (fns.len() - 1) as u64))
        } else {
            r
        }
    }
}

/// The positions that sorted keyed pairs carry.
pub open spec fn positions(ps: Seq<(u64, u64)>) -> Seq<int> {
    ps.map_values(|p: (u64, u64)| p.1 as int)
}

/// The structs in symbol order, by position.
pub open spec fn struct_order_spec(pkg: HirPackage) -> Seq<int> {
    positions(sort_keyed(struct_keys(pkg)))
}

/// The native type aliases in symbol order, by position.
pub open spec fn alias_order_spec(pkg: HirPackage) -> Seq<int> {
    positions(sort_keyed(alias_keys(pkg)))
}

/// The functions in symbol order, by position: associated ones by id,
/// then top-level ones by id.
pub open spec fn fn_order_spec(pkg: HirPackage) -> Seq<int> {
    positions(sort_keyed(assoc_fn_keys(pkg.fns@))) + positions(sort_keyed(top_fn_keys(pkg.fns@)))
}

/// The symbols, among the first `q` functions in symbol order, of those
/// associated with the type `owner`.
pub open spec fn assoc_syms_spec(fns: Seq<HirFnDef>, order: Seq<int>, base_f: int, owner: u32, q: int) -> Seq<DiskSymbolIndex>
    decreases q,
{
    if q <= 0 {
        Seq::empty()
    } else {
        let r = assoc_syms_spec(fns, order, base_f, owner, q - 1);
        if fns[order[q - 1]].parent == Some(owner) {
            r.push(DiskSymbolIndex((base_f + q - 1) as u32))
        } else {
            r
        }
    }
}

/// The associated functions of the type `owner`, by symbol.
pub open spec fn assoc_of(pkg: HirPackage, owner: u32) -> Seq<DiskSymbolIndex> {
    assoc_syms_spec(
        pkg.fns@,
        fn_order_spec(pkg),
        (pkg.structs@.len() + pkg.aliases@.len()) as int,
        owner,
        assoc_fn_keys(pkg.fns@).len() as int,
    )
}

/// The file index of each module: the place of its file name in order.
pub open spec fn mod_files(pkg: HirPackage) -> Seq<(ModId, u32)> {
    Seq::new(
        pkg.modules@.len(),
        |i: int| (
            pkg.modules@[i].mod_id,
            first_index(sort_strs(module_file_names(pkg.modules@)), spec_file_name(pkg.modules@[i].path@)) as u32,
        ),
    )
}

/// The number of the kind of each block of symbols, in symbol order:
/// structs, native type aliases, functions (associated ones first), modules.
pub open spec fn kind_of_symbol(pkg: HirPackage, i: int) -> u32 {
    let s = pkg.structs@.len() as int;
    let a = pkg.aliases@.len() as int;
    let f = pkg.fns@.len() as int;
    if i < s {
        1
    } else if i < s + a {
        3
    } else if i < s + a + f {
        2
    } else {
        0
    }
}

/// The order of the items by their ids: `(id, position)` pairs sorted by id,
/// read as positions.
fn order_by_key(keys: &Vec<(u64, u64)>, n: usize) -> (r: Vec<usize>)
    requires
        forall|i: int| 0 <= i < keys@.len() ==> #[trigger] keys@[i].1 < n,
    ensures
        r@.len() == keys@.len(),
        forall|i: int| 0 <= i < r@.len() ==> #[trigger] r@[i] < n,
        forall|i: int| 0 <= i < r@.len() ==> keys@.contains(#[trigger] sort_keyed(keys@)[i])
            && r@[i] == sort_keyed(keys@)[i].1,
        forall|a: int, b: int| 0 <= a < b < r@.len() ==> #[trigger] sort_keyed(keys@)[a].0 <= #[trigger] sort_keyed(keys@)[b].0,
{
    let sorted = sort_keyed_pairs(keys.as_slice());
    proof {
        lemma_sort_keyed_sorted(keys@);
        lemma_sort_keyed_members(keys@);
        assert forall|k: int| 0 <= k < sorted@.len() implies (#[trigger] sorted@[k]).1 < n by {
            let q = choose|q: int| 0 <= q < keys@.len() && keys@[q] == sorted@[k];
            assert(keys@[q].1 < n);
        }
    }
    let mut out: Vec<usize> = Vec::new();
    let mut i: usize = 0;
    while i < sorted.len()
        invariant
            i <= sorted@.len(),
            sorted@ == sort_keyed(keys@),
            sorted@.len() == keys@.len(),
            forall|k: int| 0 <= k < sorted@.len() ==> (#[trigger] sorted@[k]).1 < n,
            out@.len() == i,
            forall|k: int| 0 <= k < out@.len() ==> #[trigger] out@[k] < n,
            forall|k: int| 0 <= k < out@.len() ==> #[trigger] out@[k] == sorted@[k].1,
        decreases sorted@.len() - i,
    {
        out.push(sorted[i].1 as usize);
        i = i + 1;
    }
    out
}

/// Every pair of a stable sort comes from the input.
proof fn lemma_sort_keyed_members(s: Seq<(u64, u64)>)
    ensures
        forall|k: int| 0 <= k < sort_keyed(s).len() ==> s.contains(#[trigger] sort_keyed(s)[k]),
    decreases s.len(),
{
    if s.len() > 0 {
        lemma_sort_keyed_members(s.drop_last());
        lemma_insert_keyed_members(sort_keyed(s.drop_last()), s.last());
        assert forall|k: int| 0 <= k < sort_keyed(s).len() implies s.contains(#[trigger] sort_keyed(s)[k]) by {
            let y = sort_keyed(s)[k];
            if y != s.last() {
                assert(sort_keyed(s.drop_last()).contains(y));
                let j = choose|j: int| 0 <= j < sort_keyed(s.drop_last()).len() && sort_keyed(s.drop_last())[j] == y;
                assert(s.drop_last().contains(y));
                let q = choose|q: int| 0 <= q < s.drop_last().len() && s.drop_last()[q] == y;
                assert(s[q] == y);
            } else {
                assert(s[s.len() - 1] == y);
            }
        }
    }
}

proof fn lemma_insert_keyed_members(s: Seq<(u64, u64)>, x: (u64, u64))
    ensures
        forall|k: int| 0 <= k < insert_keyed(s, x).len() ==>
            #[trigger] insert_keyed(s, x)[k] == x || s.contains(insert_keyed(s, x)[k]),
    decreases s.len(),
{
    if s.len() > 0 && s.last().0 > x.0 {
        lemma_insert_keyed_members(s.drop_last(), x);
        let r = insert_keyed(s.drop_last(), x);
        assert forall|k: int| 0 <= k < insert_keyed(s, x).len() implies
            #[trigger] insert_keyed(s, x)[k] == x || s.contains(insert_keyed(s, x)[k]) by {
            if k < r.len() {
                if r[k] != x {
                    let q = choose|q: int| 0 <= q < s.drop_last().len() && s.drop_last()[q] == r[k];
                    assert(s[q] == r[k]);
                }
            } else {
                assert(s[s.len() - 1] == s.last());
            }
        }
    } else if s.len() > 0 {
        assert forall|k: int| 0 <= k < insert_keyed(s, x).len() implies
            #[trigger] insert_keyed(s, x)[k] == x || s.contains(insert_keyed(s, x)[k]) by {
            if k < s.len() {
                assert(s[k] == insert_keyed(s, x)[k]);
            }
        }
    }
}


/// The first position of `x` in `s`, or the length of `s` when it is not
/// there.
pub open spec fn first_index(s: Seq<Seq<char>>, x: Seq<char>) -> int
    decreases s.len(),
{
    if s.len() == 0 {
        0
    } else if s[0] == x {
        0
    } else {
        1 + first_index(s.drop_first(), x)
    }
}

proof fn lemma_first_index(s: Seq<Seq<char>>, x: Seq<char>, j: int)
    requires
        0 <= j < s.len(),
        s[j] == x,
        forall|k: int| 0 <= k < j ==> s[k] != x,
    ensures
        first_index(s, x) == j,
    decreases j,
{
    if j > 0 {
        assert(s[0] != x);
        lemma_first_index(s.drop_first(), x, j - 1);
    }
}

/// The position of `name` in `names`, when it is there.
fn position_of(names: &Vec<String>, name: &str) -> (r: Option<usize>)
    ensures
        match r {
            Some(j) => j < names@.len() && names@[j as int]@ == name@
                && forall|k: int| 0 <= k < j ==> names@[k]@ != name@,
            None => !string_views(names@).contains(name@),
        },
{
    let mut j: usize = 0;
    while j < names.len()
        invariant
            j <= names@.len(),
            forall|k: int| 0 <= k < j ==> names@[k]@ != name@,
        decreases names@.len() - j,
    {
        if str_eq(names[j].as_str(), name) {
            return Some(j);
        }
        j = j + 1;
    }
    proof {
        if string_views(names@).contains(name@) {
            let k = choose|k: int| 0 <= k < string_views(names@).len() && string_views(names@)[k] == name@;
            assert(names@[k]@ == name@);
        }
    }
    None
}

/// The source file table: the package's own modules by file name, in
/// ascending order, each name written to the string table. Also gives the
/// sorted names, and the file index of each module.
fn source_file_table(modules: &Vec<HirModule>, strings: &mut StringTable) -> (r: (Vec<DiskSourceInfo>, Vec<(ModId, u32)>, Vec<String>))
    requires
        modules@.len() < u32::MAX,
    ensures
        string_views(r.2@) == sort_strs(module_file_names(modules@)),
        r.0@.len() == modules@.len(),
        r.2@.len() == modules@.len(),
        r.1@.len() == modules@.len(),
        forall|i: int| 0 <= i < modules@.len() ==> (#[trigger] r.1@[i]).0 == modules@[i].mod_id
            && (r.1@[i].1 as int) < modules@.len()
            && r.2@[r.1@[i].1 as int]@ == spec_file_name(modules@[i].path@)
            && r.1@[i].1 == first_index(string_views(r.2@), spec_file_name(modules@[i].path@)),
        extends(old(strings)@, final(strings)@),
        forall|i: int| 0 <= i < r.0@.len() ==> !(#[trigger] r.2@[i])@.contains('\0') && final(strings)@.len() <= u32::MAX
            ==> string_at(final(strings)@, r.0@[i].file_path.0) == Ok::<Seq<char>, super::error::DepMetadataError>(r.2@[i]@),
{
    let ghost start = strings@;
    assert(start.subrange(0, start.len() as int) =~= start);
    let ghost all = module_file_names(modules@);
    let mut names: Vec<String> = Vec::new();
    let mut i: usize = 0;
    while i < modules.len()
        invariant
            i <= modules@.len(),
            all == module_file_names(modules@),
            string_views(names@) == all.take(i as int),
        decreases modules@.len() - i,
    {
        let n = modules[i].path.file_name();
        proof {
            assert(all[i as int] == n@);
            assert(string_views(names@.push(n)) =~= string_views(names@).push(n@));
            assert(all.take(i + 1) =~= all.take(i as int).push(all[i as int]));
        }
        names.push(n);
        i = i + 1;
    }
    assert(all.take(modules@.len() as int) =~= all);
    let sorted = sort_strings(names);
    proof {
        lemma_sort_strs_len(all);
    }
    assert(sorted@.len() == string_views(sorted@).len());
    let mut entries: Vec<DiskSourceInfo> = Vec::new();
    let mut k: usize = 0;
    while k < sorted.len()
        invariant
            k <= sorted@.len(),
            entries@.len() == k,
            extends(start, strings@),
            forall|q: int| 0 <= q < entries@.len() ==> !(#[trigger] sorted@[q])@.contains('\0') && strings@.len() <= u32::MAX
                ==> string_at(strings@, entries@[q].file_path.0) == Ok::<Seq<char>, super::error::DepMetadataError>(sorted@[q]@),
        decreases sorted@.len() - k,
    {
        let ghost prev = strings@;
        let off = strings.push(sorted[k].as_str());
        proof {
            lemma_extends_trans(start, prev, strings@);
            assert forall|q: int| 0 <= q < entries@.len() implies !(#[trigger] sorted@[q])@.contains('\0') && strings@.len() <= u32::MAX
                ==> string_at(strings@, entries@[q].file_path.0) == Ok::<Seq<char>, super::error::DepMetadataError>(sorted@[q]@) by {
                if !sorted@[q]@.contains('\0') && strings@.len() <= u32::MAX {
                    lemma_string_at_extends(prev, strings@, entries@[q].file_path.0);
                }
            }
            if !sorted@[k as int]@.contains('\0') && strings@.len() <= u32::MAX {
                lemma_string_table_push_get(prev, sorted@[k as int]@);
            }
        }
        entries.push(DiskSourceInfo { file_path: off });
        k = k + 1;
    }
    let mut mod_to_file: Vec<(ModId, u32)> = Vec::new();
    let mut i: usize = 0;
    while i < modules.len()
        invariant
            i <= modules@.len(),
            modules@.len() < u32::MAX,
            all == module_file_names(modules@),
            string_views(sorted@) == sort_strs(all),
            sorted@.len() == modules@.len(),
            mod_to_file@.len() == i,
            forall|q: int| 0 <= q < i ==> (#[trigger] mod_to_file@[q]).0 == modules@[q].mod_id
                && (mod_to_file@[q].1 as int) < modules@.len()
                && sorted@[mod_to_file@[q].1 as int]@ == spec_file_name(modules@[q].path@)
                && mod_to_file@[q].1 == first_index(string_views(sorted@), spec_file_name(modules@[q].path@)),
        decreases modules@.len() - i,
    {
        let n = modules[i].path.file_name();
        proof {
            assert(all[i as int] == n@);
            assert(all.contains(n@));
            lemma_sort_strs_member(all, n@);
        }
        let j = match position_of(&sorted, n.as_str()) {
            Some(j) => j,
            None => {
                proof {
                    assert(false);
                }
                0
            },
        };
        proof {
            lemma_first_index(string_views(sorted@), n@, j as int);
        }
        mod_to_file.push((modules[i].mod_id, j as u32));
        i = i + 1;
    }
    (entries, mod_to_file, sorted)
}


/// The names of the members, in the order given.
pub open spec fn member_names(ms: Seq<HirMember>) -> Seq<Seq<char>> {
    ms.map_values(|m: HirMember| m.name@)
}

/// The first member named `name`.
pub open spec fn first_member(ms: Seq<HirMember>, name: Seq<char>) -> Option<int>
    decreases ms.len(),
{
    if ms.len() == 0 {
        None
    } else if ms[0].name@ == name {
        Some(0)
    } else {
        match first_member(ms.drop_first(), name) {
            Some(j) => Some(j + 1),
            None => None,
        }
    }
}

proof fn lemma_first_member_bounds(ms: Seq<HirMember>, name: Seq<char>)
    ensures
        first_member(ms, name) matches Some(j) ==> 0 <= j < ms.len(),
    decreases ms.len(),
{
    if ms.len() > 0 {
        lemma_first_member_bounds(ms.drop_first(), name);
    }
}

/// The members as written, one per name of `names` that a member has, with
/// the string table and the external symbol table after them.
pub open spec fn members_spec(
    ms: Seq<HirMember>,
    names: Seq<Seq<char>>,
    t: TablesView,
    st: Seq<u8>,
    es: Seq<DiskExternalSymbol>,
) -> (Seq<DiskStructMemberView>, Seq<u8>, Seq<DiskExternalSymbol>)
    decreases names.len(),
{
    if names.len() == 0 {
        (Seq::empty(), st, es)
    } else {
        let init = members_spec(ms, names.drop_last(), t, st, es);
        match first_member(ms, names.last()) {
            Some(j) => {
                let (off, st2) = push_string(init.1, names.last());
                let ty = enc_ty(ms[j].ty, t, init.2);
                (
                    init.0.push(DiskStructMemberView {
                        name: DiskStringOffset(off),
                        name_span: disk_span_of(ms[j].ty.span, t.mod_to_file),
                        ty: ty.0,
                    }),
                    st2,
                    ty.1,
                )
            },
            None => init,
        }
    }
}

/// The body of a struct symbol as written, with the string table and the
/// external symbol table after it: its name, its source text, an empty
/// name shared by its generic parameters, then its members by name, their
/// types numbered with the struct's own generic parameters.
pub open spec fn struct_body_spec(
    d: HirStructDef,
    assoc: Seq<DiskSymbolIndex>,
    tys: Seq<(u32, u32)>,
    mtf: Seq<(ModId, u32)>,
    st: Seq<u8>,
    es: Seq<DiskExternalSymbol>,
) -> (SymbolBodyView, Seq<u8>, Seq<DiskExternalSymbol>) {
    let (name_off, st1) = push_string(st, d.name@);
    let (raw_off, st2) = push_string(st1, d.raw_code@);
    let (empty_off, st3) = push_string(st2, Seq::empty());
    let t = TablesView { ty_to_sym: tys, gen_ord: gen_ords(d.genargs@), loc_gen_ord: Seq::empty(), mod_to_file: mtf };
    let ms = members_spec(d.members@, sort_strs(member_names(d.members@)), t, st3, es);
    let span = disk_span_of(d.name_span, mtf);
    (
        SymbolBodyView::Struct(DiskStructDataView {
            name: DiskStringOffset(name_off),
            name_span: span,
            def_raw_code: DiskStringOffset(raw_off),
            def_span: span,
            genargs: Seq::new(d.genargs@.len(), |k: int| DiskGenArg { name: DiskStringOffset(empty_off), name_span: no_span() }),
            members: ms.0,
            assoc_symbols: assoc,
        }),
        ms.1,
        ms.2,
    )
}

/// The body of a native type alias symbol as written, with the string
/// table after it.
pub open spec fn alias_body_spec(d: HirAliasDef, assoc: Seq<DiskSymbolIndex>, mtf: Seq<(ModId, u32)>, st: Seq<u8>) -> (SymbolBodyView, Seq<u8>) {
    let (name_off, st1) = push_string(st, d.name@);
    let (native_off, st2) = push_string(st1, d.native@);
    let t = TablesView { ty_to_sym: Seq::empty(), gen_ord: Seq::empty(), loc_gen_ord: Seq::empty(), mod_to_file: mtf };
    let gs = enc_genargs(d.genargs@, t, st2);
    (
        SymbolBodyView::NativeTypeAlias(DiskNativeTypeAliasDataView {
            name: DiskStringOffset(name_off),
            name_span: disk_span_of(d.name_span, mtf),
            native: DiskStringOffset(native_off),
            native_span: disk_span_of(d.native_span, mtf),
            genargs: gs.0,
            assoc_symbols: assoc,
        }),
        gs.1,
    )
}

/// The body of a function symbol as written, with the string table and the
/// external symbol table after it.
pub open spec fn fn_body_spec(
    d: HirFnDef,
    tys: Seq<(u32, u32)>,
    mtf: Seq<(ModId, u32)>,
    st: Seq<u8>,
    es: Seq<DiskExternalSymbol>,
) -> (SymbolBodyView, Seq<u8>, Seq<DiskExternalSymbol>) {
    let t = TablesView { ty_to_sym: tys, gen_ord: Seq::empty(), loc_gen_ord: Seq::empty(), mod_to_file: mtf };
    let e = enc_fn_data(d.name@, d.name_span, d.raw_code@, d.sig, d.impl_genargs@, d.impl_self_ty, t, st, es);
    (SymbolBodyView::Fn(e.0), e.1, e.2)
}

/// Whether the external symbol table `b` starts with `a`: entries are
/// only ever added at its end.
pub open spec fn ext_extends(a: Seq<DiskExternalSymbol>, b: Seq<DiskExternalSymbol>) -> bool {
    a.len() <= b.len() && b.take(a.len() as int) == a
}

proof fn lemma_ext_extends_trans(a: Seq<DiskExternalSymbol>, b: Seq<DiskExternalSymbol>, c: Seq<DiskExternalSymbol>)
    requires
        ext_extends(a, b),
        ext_extends(b, c),
    ensures
        ext_extends(a, c),
{
    assert(c.take(a.len() as int) =~= b.take(a.len() as int));
}

proof fn lemma_members_ext_extends(
    ms: Seq<HirMember>,
    names: Seq<Seq<char>>,
    t: TablesView,
    st: Seq<u8>,
    es: Seq<DiskExternalSymbol>,
)
    ensures
        ext_extends(es, members_spec(ms, names, t, st, es).2),
    decreases names.len(),
{
    if names.len() == 0 {
        assert(es.take(es.len() as int) =~= es);
    } else {
        lemma_members_ext_extends(ms, names.drop_last(), t, st, es);
        let init = members_spec(ms, names.drop_last(), t, st, es);
        match first_member(ms, names.last()) {
            Some(j) => {
                lemma_enc_ty_extends(ms[j].ty, t, init.2);
                lemma_ext_extends_trans(es, init.2, enc_ty(ms[j].ty, t, init.2).1);
            },
            None => {},
        }
    }
}

proof fn lemma_args_ext_extends(args: Seq<HirArg>, t: TablesView, st: Seq<u8>, es: Seq<DiskExternalSymbol>)
    ensures
        ext_extends(es, enc_args(args, t, st, es).2),
    decreases args.len(),
{
    if args.len() == 0 {
        assert(es.take(es.len() as int) =~= es);
    } else {
        lemma_args_ext_extends(args.drop_last(), t, st, es);
        let init = enc_args(args.drop_last(), t, st, es);
        lemma_enc_ty_extends(args.last().ty, t, init.2);
        lemma_ext_extends_trans(es, init.2, enc_ty(args.last().ty, t, init.2).1);
    }
}

/// Writing a struct only adds to the end of the external symbol table.
proof fn lemma_struct_ext_extends(
    s: HirStructDef,
    assoc: Seq<DiskSymbolIndex>,
    tys: Seq<(u32, u32)>,
    mtf: Seq<(ModId, u32)>,
    st: Seq<u8>,
    es: Seq<DiskExternalSymbol>,
)
    ensures
        ext_extends(es, struct_body_spec(s, assoc, tys, mtf, st, es).2),
{
    let (name_off, st1) = push_string(st, s.name@);
    let (raw_off, st2) = push_string(st1, s.raw_code@);
    let (empty_off, st3) = push_string(st2, Seq::empty());
    let t = TablesView { ty_to_sym: tys, gen_ord: gen_ords(s.genargs@), loc_gen_ord: Seq::empty(), mod_to_file: mtf };
    lemma_members_ext_extends(s.members@, sort_strs(member_names(s.members@)), t, st3, es);
}

/// Writing a function only adds to the end of the external symbol table.
proof fn lemma_fn_ext_extends(
    f: HirFnDef,
    tys: Seq<(u32, u32)>,
    mtf: Seq<(ModId, u32)>,
    st: Seq<u8>,
    es: Seq<DiskExternalSymbol>,
)
    ensures
        ext_extends(es, fn_body_spec(f, tys, mtf, st, es).2),
{
    let ft0 = TablesView { ty_to_sym: tys, gen_ord: Seq::empty(), loc_gen_ord: Seq::empty(), mod_to_file: mtf };
    let all = f.impl_genargs@ + f.sig.genargs@;
    let ords = gen_ords(all.map_values(|g: HirGenArg| g.def_id));
    let ft = TablesView { loc_gen_ord: ords, ..ft0 };
    let (n_off, s1) = push_string(st, f.name@);
    let (r_off, s2) = push_string(s1, f.raw_code@);
    let (gs, s3) = enc_genargs(all, ft, s2);
    lemma_args_ext_extends(f.sig.args@, ft, s3, es);
    let (args, s4, es1) = enc_args(f.sig.args@, ft, s3, es);
    lemma_enc_ty_extends(f.sig.rty, ft, es1);
    let (rty, es2) = enc_ty(f.sig.rty, ft, es1);
    lemma_ext_extends_trans(es, es1, es2);
    match f.impl_self_ty {
        Some(x) => {
            lemma_enc_ty_extends(x, ft, es2);
            lemma_ext_extends_trans(es, es2, enc_ty(x, ft, es2).1);
        },
        None => {},
    }
}

/// The name a module is written under: `lib`, `main`, or the last segment
/// of its path.
pub open spec fn module_name(p: ModPathView) -> Seq<char> {
    match p {
        ModPathView::Lib => "lib"@,
        ModPathView::Main => "main"@,
        ModPathView::Mod(segs) => if segs.len() > 0 {
            segs.last()
        } else {
            Seq::empty()
        },
    }
}

/// The body of a module symbol as written, with the string table after it.
pub open spec fn mod_body_spec(p: ModPathView, children: Seq<DiskSymbolIndex>, st: Seq<u8>) -> (SymbolBodyView, Seq<u8>) {
    let (off, st1) = push_string(st, module_name(p));
    (
        SymbolBodyView::Mod(super::format::DiskModDataView { name: DiskStringOffset(off), name_span: no_span(), children }),
        st1,
    )
}

/// The position of the member named `name`, when there is one.
fn member_named(members: &Vec<HirMember>, name: &str) -> (r: Option<usize>)
    ensures
        r matches Some(j) ==> j < members@.len(),
        match first_member(members@, name@) {
            Some(j) => r == Some(j as usize),
            None => r is None,
        },
        r matches Some(j) ==> first_member(members@, name@) == Some(j as int),
{
    proof {
        lemma_first_member_bounds(members@, name@);
    }
    let mut j: usize = 0;
    assert(members@.skip(0) =~= members@);
    while j < members.len()
        invariant
            j <= members@.len(),
            first_member(members@, name@) == match first_member(members@.skip(j as int), name@) {
                Some(x) => Some(x + j),
                None => None::<int>,
            },
        decreases members@.len() - j,
    {
        assert(members@.skip(j as int)[0] == members@[j as int]);
        assert(members@.skip(j as int).drop_first() =~= members@.skip(j + 1));
        if str_eq(members[j].name.as_str(), name) {
            return Some(j);
        }
        j = j + 1;
    }
    None
}

/// The body of a struct symbol. Its members are written by name, so the
/// file is the same from build to build whatever order the analysis kept
/// them in; its generic parameters go in by position only.
fn struct_body(
    d: &HirStructDef,
    assoc_symbols: Vec<DiskSymbolIndex>,
    ty_to_sym: &Vec<(u32, u32)>,
    mod_to_file: &Vec<(ModId, u32)>,
    strings: &mut StringTable,
    ext: &mut ExtSymBuilder,
) -> (r: SymbolBody)
    ensures
        body_kind_code(r@) == 1,
        extends(old(strings)@, final(strings)@),
        (r@, final(strings)@, final(ext).entries()) == struct_body_spec(
            *d,
            assoc_symbols@,
            ty_to_sym@,
            mod_to_file@,
            old(strings)@,
            old(ext).entries(),
        ),
{
    let ghost start = strings@;
    let ghost es0 = ext.entries();
    let name = strings.push(d.name.as_str());
    let name_span = to_disk_span(&d.name_span, mod_to_file.as_slice());
    let ghost mid = strings@;
    let def_raw_code = strings.push(d.raw_code.as_str());
    proof {
        lemma_extends_trans(start, mid, strings@);
    }
    // Ordinals by id; where an id is listed twice its later place wins, so
    // the table is laid out from the last parameter back.
    let n = d.genargs.len();
    let mut gen_ord: Vec<(u64, u32)> = Vec::new();
    let mut k: usize = 0;
    while k < n
        invariant
            k <= n,
            n == d.genargs@.len(),
            gen_ord@ == gen_ords(d.genargs@).take(k as int),
        decreases n - k,
    {
        proof {
            assert(gen_ords(d.genargs@).take(k + 1) =~= gen_ords(d.genargs@).take(k as int).push(
                (d.genargs@[n - 1 - k], (n - 1 - k) as u32),
            ));
        }
        gen_ord.push((d.genargs[n - 1 - k], (n - 1 - k) as u32));
        k = k + 1;
    }
    assert(gen_ord@ =~= gen_ords(d.genargs@));
    let ghost mid = strings@;
    let empty_name = strings.push("");
    proof {
        lemma_extends_trans(start, mid, strings@);
        reveal_strlit("");
    }
    let ghost st3 = strings@;
    let mut genargs: Vec<DiskGenArg> = Vec::new();
    let mut k: usize = 0;
    while k < n
        invariant
            k <= n,
            genargs@.len() == k,
            forall|q: int| 0 <= q < k ==> #[trigger] genargs@[q] == (DiskGenArg { name: empty_name, name_span: no_span() }),
        decreases n - k,
    {
        genargs.push(DiskGenArg { name: empty_name, name_span: DiskSpan { file: DiskFileIndex(0), begin: 0, end: 0 } });
        k = k + 1;
    }
    let mut names: Vec<String> = Vec::new();
    let mut k: usize = 0;
    while k < d.members.len()
        invariant
            k <= d.members@.len(),
            string_views(names@) == member_names(d.members@).take(k as int),
        decreases d.members@.len() - k,
    {
        let nm = string_of_str(d.members[k].name.as_str());
        proof {
            assert(string_views(names@.push(nm)) =~= string_views(names@).push(nm@));
            assert(member_names(d.members@).take(k + 1) =~= member_names(d.members@).take(k as int).push(d.members@[k as int].name@));
        }
        names.push(nm);
        k = k + 1;
    }
    assert(member_names(d.members@).take(d.members@.len() as int) =~= member_names(d.members@));
    let sorted = sort_strings(names);
    let ghost snames = string_views(sorted@);
    let no_loc_gen: Vec<(u64, u32)> = Vec::new();
    let tables = TyEncodeTables {
        ty_to_sym: ty_to_sym.as_slice(),
        gen_ord: gen_ord.as_slice(),
        loc_gen_ord: no_loc_gen.as_slice(),
        mod_to_file: mod_to_file.as_slice(),
    };
    let ghost tv = TablesView { ty_to_sym: ty_to_sym@, gen_ord: gen_ords(d.genargs@), loc_gen_ord: Seq::empty(), mod_to_file: mod_to_file@ };
    assert(tables@ == tv) by {
        assert(no_loc_gen@ =~= Seq::<(u64, u32)>::empty());
    }
    let mut members: Vec<DiskStructMember> = Vec::new();
    let mut k: usize = 0;
    assert(snames.take(0) =~= Seq::<Seq<char>>::empty());
    while k < sorted.len()
        invariant
            k <= sorted@.len(),
            snames == string_views(sorted@),
            extends(start, strings@),
            tables@ == tv,
            tv == (TablesView { ty_to_sym: ty_to_sym@, gen_ord: gen_ords(d.genargs@), loc_gen_ord: Seq::empty(), mod_to_file: mod_to_file@ }),
            ({
                let e = members_spec(d.members@, snames.take(k as int), tv, st3, es0);
                &&& members@.map_values(|x: DiskStructMember| x@) == e.0
                &&& strings@ == e.1
                &&& ext.entries() == e.2
            }),
        decreases sorted@.len() - k,
    {
        let ghost prev = members_spec(d.members@, snames.take(k as int), tv, st3, es0);
        proof {
            let t = snames.take(k + 1);
            assert(t.drop_last() =~= snames.take(k as int));
            assert(t.last() == sorted@[k as int]@);
            assert(snames[k as int] == sorted@[k as int]@);
        }
        let found = member_named(&d.members, sorted[k].as_str());
        proof {
            let t = snames.take(k + 1);
            assert(members_spec(d.members@, t, tv, st3, es0) == match first_member(d.members@, t.last()) {
                Some(j) => {
                    let (off, st2) = push_string(prev.1, t.last());
                    let ty = enc_ty(d.members@[j].ty, tv, prev.2);
                    (
                        prev.0.push(DiskStructMemberView {
                            name: DiskStringOffset(off),
                            name_span: disk_span_of(d.members@[j].ty.span, tv.mod_to_file),
                            ty: ty.0,
                        }),
                        st2,
                        ty.1,
                    )
                },
                None => prev,
            });
        }
        if let Some(j) = found {
            let ghost mid = strings@;
            let mname = strings.push(sorted[k].as_str());
            proof {
                lemma_extends_trans(start, mid, strings@);
            }
            let mty = &d.members[j].ty;
            let mspan = to_disk_span(&mty.span, mod_to_file.as_slice());
            let ty = encode_ty(mty, &tables, ext);
            let ghost before = members@.map_values(|x: DiskStructMember| x@);
            proof {
                assert(ty@ == enc_ty(d.members@[j as int].ty, tv, prev.2).0);
                assert(mspan == disk_span_of(d.members@[j as int].ty.span, tv.mod_to_file));
                assert(mname == DiskStringOffset(push_string(prev.1, snames[k as int]).0));
            }
            members.push(DiskStructMember { name: mname, name_span: mspan, ty });
            proof {
                assert(members@.map_values(|x: DiskStructMember| x@) =~= before.push(members@[members@.len() - 1]@));
                assert(first_member(d.members@, snames[k as int]) == Some(j as int));
                assert(mname.0 == prev.1.len() as u32);
                assert(strings@ == push_string(prev.1, snames[k as int]).1);
                assert(members@[members@.len() - 1]@ == DiskStructMemberView {
                    name: DiskStringOffset(push_string(prev.1, snames[k as int]).0),
                    name_span: disk_span_of(d.members@[j as int].ty.span, tv.mod_to_file),
                    ty: enc_ty(d.members@[j as int].ty, tv, prev.2).0,
                });
                assert(ext.entries() == enc_ty(d.members@[j as int].ty, tv, prev.2).1);
            }
        } else {
            proof {
                assert(first_member(d.members@, snames[k as int]) is None);
            }
        }
        k = k + 1;
    }
    assert(snames.take(sorted@.len() as int) =~= snames);
    let r = SymbolBody::Struct(DiskStructData {
        name,
        name_span,
        def_raw_code,
        def_span: name_span,
        genargs: DiskVec(genargs),
        members: DiskVec(members),
        assoc_symbols: DiskVec(assoc_symbols),
    });
    proof {
        assert(genargs@.map_values(|x: DiskGenArg| x@) =~= Seq::new(n as nat, |q: int| DiskGenArg { name: empty_name, name_span: no_span() }));
        assert(assoc_symbols@.map_values(|x: DiskSymbolIndex| x@) =~= assoc_symbols@);
    }
    r
}

/// The body of a native type alias symbol.
fn alias_body(
    d: &HirAliasDef,
    assoc_symbols: Vec<DiskSymbolIndex>,
    mod_to_file: &Vec<(ModId, u32)>,
    strings: &mut StringTable,
) -> (r: SymbolBody)
    ensures
        body_kind_code(r@) == 3,
        extends(old(strings)@, final(strings)@),
        (r@, final(strings)@) == alias_body_spec(*d, assoc_symbols@, mod_to_file@, old(strings)@),
{
    let ghost start = strings@;
    let name = strings.push(d.name.as_str());
    let name_span = to_disk_span(&d.name_span, mod_to_file.as_slice());
    let ghost mid = strings@;
    let native = strings.push(d.native.as_str());
    proof {
        lemma_extends_trans(start, mid, strings@);
    }
    let ghost st2 = strings@;
    let ghost tv = TablesView { ty_to_sym: Seq::empty(), gen_ord: Seq::empty(), loc_gen_ord: Seq::empty(), mod_to_file: mod_to_file@ };
    let native_span = to_disk_span(&d.native_span, mod_to_file.as_slice());
    let mut genargs: Vec<DiskGenArg> = Vec::new();
    let mut k: usize = 0;
    assert(d.genargs@.take(0) =~= Seq::<HirGenArg>::empty());
    while k < d.genargs.len()
        invariant
            k <= d.genargs@.len(),
            extends(start, strings@),
            tv.mod_to_file == mod_to_file@,
            genargs@ == enc_genargs(d.genargs@.take(k as int), tv, st2).0,
            strings@ == enc_genargs(d.genargs@.take(k as int), tv, st2).1,
        decreases d.genargs@.len() - k,
    {
        proof {
            let t = d.genargs@.take(k + 1);
            assert(t.drop_last() =~= d.genargs@.take(k as int));
            assert(t.last() == d.genargs@[k as int]);
        }
        let ghost mid = strings@;
        let gname = strings.push(d.genargs[k].name.as_str());
        proof {
            lemma_extends_trans(start, mid, strings@);
        }
        let gspan = to_disk_span(&d.genargs[k].name_span, mod_to_file.as_slice());
        genargs.push(DiskGenArg { name: gname, name_span: gspan });
        k = k + 1;
    }
    assert(d.genargs@.take(d.genargs@.len() as int) =~= d.genargs@);
    proof {
        assert(genargs@.map_values(|x: DiskGenArg| x@) =~= genargs@);
        assert(assoc_symbols@.map_values(|x: DiskSymbolIndex| x@) =~= assoc_symbols@);
    }
    SymbolBody::NativeTypeAlias(DiskNativeTypeAliasData {
        name,
        name_span,
        native,
        native_span,
        genargs: DiskVec(genargs),
        assoc_symbols: DiskVec(assoc_symbols),
    })
}

proof fn lemma_push_string_extends(st: Seq<u8>, s: Seq<char>)
    ensures
        extends(st, push_string(st, s).1),
{
    assert(push_string(st, s).1.subrange(0, st.len() as int) =~= st);
}

proof fn lemma_enc_genargs_extends(gs: Seq<HirGenArg>, t: TablesView, st: Seq<u8>)
    ensures
        extends(st, enc_genargs(gs, t, st).1),
    decreases gs.len(),
{
    if gs.len() == 0 {
        assert(st.subrange(0, st.len() as int) =~= st);
    } else {
        lemma_enc_genargs_extends(gs.drop_last(), t, st);
        let init = enc_genargs(gs.drop_last(), t, st);
        lemma_push_string_extends(init.1, gs.last().name@);
        lemma_extends_trans(st, init.1, push_string(init.1, gs.last().name@).1);
    }
}

proof fn lemma_enc_args_extends(args: Seq<HirArg>, t: TablesView, st: Seq<u8>, es: Seq<DiskExternalSymbol>)
    ensures
        extends(st, enc_args(args, t, st, es).1),
    decreases args.len(),
{
    if args.len() == 0 {
        assert(st.subrange(0, st.len() as int) =~= st);
    } else {
        lemma_enc_args_extends(args.drop_last(), t, st, es);
        let init = enc_args(args.drop_last(), t, st, es);
        lemma_push_string_extends(init.1, args.last().name@);
        lemma_extends_trans(st, init.1, push_string(init.1, args.last().name@).1);
    }
}

/// The body of a function symbol. Functions number the generic parameters
/// of their impl and their own by themselves, so no ordinals of a type
/// are in scope.
fn fn_body(
    d: &HirFnDef,
    ty_to_sym: &Vec<(u32, u32)>,
    mod_to_file: &Vec<(ModId, u32)>,
    strings: &mut StringTable,
    ext: &mut ExtSymBuilder,
) -> (r: SymbolBody)
    requires
        d.impl_genargs@.len() + d.sig.genargs@.len() <= usize::MAX,
    ensures
        body_kind_code(r@) == 2,
        extends(old(strings)@, final(strings)@),
        (r@, final(strings)@, final(ext).entries()) == fn_body_spec(*d, ty_to_sym@, mod_to_file@, old(strings)@, old(ext).entries()),
{
    let no_gen: Vec<(u64, u32)> = Vec::new();
    let tables = TyEncodeTables {
        ty_to_sym: ty_to_sym.as_slice(),
        gen_ord: no_gen.as_slice(),
        loc_gen_ord: no_gen.as_slice(),
        mod_to_file: mod_to_file.as_slice(),
    };
    let (data, _ords) = encode_fn_data(
        d.name.as_str(),
        &d.name_span,
        d.raw_code.as_str(),
        &d.sig,
        &d.impl_genargs,
        &d.impl_self_ty,
        &tables,
        strings,
        ext,
    );
    proof {
        let st = old(strings)@;
        let all = d.impl_genargs@ + d.sig.genargs@;
        let ords = crate::dependency_metadata::encode_ty::gen_ords(all.map_values(|g: HirGenArg| g.def_id));
        let ft = TablesView { loc_gen_ord: ords, ..tables@ };
        let st1 = push_string(st, d.name@).1;
        let st2 = push_string(st1, d.raw_code@).1;
        let st3 = enc_genargs(all, ft, st2).1;
        lemma_push_string_extends(st, d.name@);
        lemma_push_string_extends(st1, d.raw_code@);
        lemma_enc_genargs_extends(all, ft, st2);
        lemma_enc_args_extends(d.sig.args@, ft, st3, old(ext).entries());
        lemma_extends_trans(st, st1, st2);
        lemma_extends_trans(st, st2, st3);
        lemma_extends_trans(st, st3, strings@);
        assert(no_gen@ =~= Seq::<(u64, u32)>::empty());
        assert(tables@ == TablesView { ty_to_sym: ty_to_sym@, gen_ord: Seq::empty(), loc_gen_ord: Seq::empty(), mod_to_file: mod_to_file@ });
    }
    SymbolBody::Fn(data)
}

/// Whether `parent` is the module that declares `child`: a top-level
/// module belongs to the root (the lib module, or else the main one).
fn is_parent(parent: &ModPath, child: &ModPath, root_is_lib: bool) -> (r: bool)
    ensures
        r == parent_of(parent@, child@, root_is_lib),
{
    match child {
        ModPath::Main | ModPath::Lib => false,
        ModPath::Mod(cs) => {
            assert(strings_view(cs@).len() == cs@.len());
            if cs.len() == 1 {
                match parent {
                    ModPath::Lib => root_is_lib,
                    ModPath::Main => !root_is_lib,
                    ModPath::Mod(_) => false,
                }
            } else {
                match parent {
                    ModPath::Mod(ps) => {
                        assert(strings_view(ps@).len() == ps@.len());
                        if cs.len() == 0 || ps.len() != cs.len() - 1 {
                            return false;
                        }
                        let mut k: usize = 0;
                        while k < ps.len()
                            invariant
                                k <= ps@.len(),
                                ps@.len() + 1 == cs@.len(),
                                forall|x: int| 0 <= x < k ==> (#[trigger] ps@[x])@ == cs@[x]@,
                                parent@ == ModPathView::Mod(strings_view(ps@)),
                                child@ == ModPathView::Mod(strings_view(cs@)),
                                cs@.len() != 1,
                            decreases ps@.len() - k,
                        {
                            if !str_eq(ps[k].as_str(), cs[k].as_str()) {
                                proof {
                                    assert(strings_view(ps@)[k as int] != strings_view(cs@).take(ps@.len() as int)[k as int]);
                                }
                                return false;
                            }
                            k = k + 1;
                        }
                        proof {
                            assert(strings_view(ps@) =~= strings_view(cs@).take(ps@.len() as int));
                        }
                        true
                    },
                    _ => false,
                }
            }
        },
    }
}

/// The body of a module symbol: its name, and its children in the order
/// they were numbered.
fn mod_body(path: &ModPath, children: Vec<DiskSymbolIndex>, strings: &mut StringTable) -> (r: SymbolBody)
    ensures
        body_kind_code(r@) == 0,
        extends(old(strings)@, final(strings)@),
        (r@, final(strings)@) == mod_body_spec(path@, children@, old(strings)@),
{
    proof {
        reveal_strlit("lib");
        reveal_strlit("main");
        reveal_strlit("");
    }
    let name = match path {
        ModPath::Lib => strings.push("lib"),
        ModPath::Main => strings.push("main"),
        ModPath::Mod(segs) => {
            if segs.len() > 0 {
                strings.push(segs[segs.len() - 1].as_str())
            } else {
                strings.push("")
            }
        },
    };
    proof {
        assert(children@.map_values(|x: DiskSymbolIndex| x@) =~= children@);
    }
    SymbolBody::Mod(DiskModData {
        name,
        name_span: DiskSpan { file: DiskFileIndex(0), begin: 0, end: 0 },
        children: DiskVec(children),
    })
}

/// The number of a body's kind.
fn kind_code(b: &SymbolBody) -> (r: u32)
    ensures
        r == body_kind_code(b@),
{
    match b {
        SymbolBody::Mod(_) => 0,
        SymbolBody::Struct(_) => 1,
        SymbolBody::Fn(_) => 2,
        SymbolBody::NativeTypeAlias(_) => 3,
    }
}


/// The symbol of the first entry of `t` for `key`.
pub open spec fn first_sym(t: Seq<(u32, u32)>, key: u32) -> Option<u32>
    decreases t.len(),
{
    if t.len() == 0 {
        None
    } else if t[0].0 == key {
        Some(t[0].1)
    } else {
        first_sym(t.drop_first(), key)
    }
}

/// The lang items that name a type or function of the package, as
/// (number, symbol) pairs, in the order given.
pub open spec fn lang_pairs(items: Seq<HirLangItem>, tys: Seq<(u32, u32)>, vals: Seq<(u32, u32)>) -> Seq<(u64, u64)>
    decreases items.len(),
{
    if items.len() == 0 {
        Seq::empty()
    } else {
        let rest = lang_pairs(items.drop_last(), tys, vals);
        let li = items.last();
        let sym = match li.target {
            LangItemTarget::Ty(id) => first_sym(tys, id),
            LangItemTarget::Fn(id) => first_sym(vals, id),
        };
        match sym {
            Some(x) => rest.push((li.item as u64, x as u64)),
            None => rest,
        }
    }
}

/// Pairs back as entries of the lang item table.
pub open spec fn lang_entries(ps: Seq<(u64, u64)>) -> Seq<DiskLangItem> {
    ps.map_values(|p: (u64, u64)| DiskLangItem { lang_item: p.0 as u32, sym_idx: DiskSymbolIndex(p.1 as u32) })
}

fn sym_of(t: &Vec<(u32, u32)>, key: u32) -> (r: Option<u32>)
    ensures
        r == first_sym(t@, key),
{
    let mut k: usize = 0;
    assert(t@.skip(0) =~= t@);
    while k < t.len()
        invariant
            k <= t@.len(),
            first_sym(t@, key) == first_sym(t@.skip(k as int), key),
        decreases t@.len() - k,
    {
        assert(t@.skip(k as int)[0] == t@[k as int]);
        assert(t@.skip(k as int).drop_first() =~= t@.skip(k + 1));
        if t[k].0 == key {
            return Some(t[k].1);
        }
        k = k + 1;
    }
    None
}

/// Builds the `.biwameta` of a package from what the analysis knows of
/// it, and gives the symbol index each definition got: the package's ids
/// as its dependents see them.
///
/// Symbols are numbered in blocks: structs, native type aliases,
/// functions (associated ones, then top-level ones), modules. Within a
/// block they go by the id of their definition, and modules by file name,
/// so the file is the same from build to build. The source file table
/// lists the package's modules by file name; lang items go by their
/// number; the dependencies' SVHs by package id, in a stable sort, since
/// they are compared as a set. The SVH is computed from the finished
/// tables.
///
/// Each symbol's body is its definition written out: its name and every
/// string it holds pushed onto the string table (where they stay), its
/// types numbered by `map`, its associated functions and, for a module,
/// its children, the definitions declared in its file and its submodules.
#[verifier::spinoff_prover]
#[verifier::rlimit(100)]
pub fn build_metadata(pkg: &HirPackage, dep_svhs: &[(u32, u64)]) -> (r: (DepMetadata, SymbolIndexMap))
    requires
        pkg.structs@.len() + pkg.aliases@.len() + pkg.fns@.len() + pkg.modules@.len() < u32::MAX,
        forall|i: int| 0 <= i < pkg.fns@.len() ==>
            #[trigger] pkg.fns@[i].impl_genargs@.len() + pkg.fns@[i].sig.genargs@.len() <= usize::MAX,
    ensures
        ({
            let (m, map) = r;
            &&& m.svh.0 == stream_hash(svh_stream(m@))
            &&& m@.dep_svhs == dep_entries(sort_keyed(dep_pairs(dep_svhs@)))
            &&& m@.lang_items == lang_entries(sort_keyed(lang_pairs(pkg.lang_items@, map.tys@, map.vals@)))
            &&& forall|a: int, b: int| 0 <= a < b < m@.lang_items.len() ==>
                #[trigger] m@.lang_items[a].lang_item <= #[trigger] m@.lang_items[b].lang_item
            &&& m@.source_files.len() == pkg.modules@.len()
            &&& m@.root_sym_idx == root_symbol(*pkg)
            &&& forall|i: int| 0 <= i < m@.source_files.len() ==>
                !(#[trigger] sort_strs(module_file_names(pkg.modules@))[i]).contains('\0')
                && m@.strings.len() <= u32::MAX ==> string_at(m@.strings, m@.source_files[i].file_path.0)
                == Ok::<Seq<char>, super::error::DepMetadataError>(sort_strs(module_file_names(pkg.modules@))[i])
            &&& m@.sym_hdrs.len() == pkg.structs@.len() + pkg.aliases@.len() + pkg.fns@.len()
                + pkg.modules@.len()
            &&& forall|i: int| 0 <= i < m@.sym_hdrs.len() ==> (#[trigger] m@.sym_hdrs[i]).kind
                == kind_of_symbol(*pkg, i)
            &&& m@.sym_bodies.len() <= u32::MAX ==> forall|i: int| 0 <= i < m@.sym_hdrs.len()
                ==> #[trigger] symbol_body_at(m@, i) is Ok
            &&& m@.sym_bodies.len() <= u32::MAX ==> forall|q: int| 0 <= q < pkg.structs@.len()
                ==> #[trigger] struct_stored(*pkg, map.tys@, m@, q)
            &&& m@.sym_bodies.len() <= u32::MAX ==> forall|q: int| 0 <= q < pkg.aliases@.len()
                ==> #[trigger] alias_stored(*pkg, m@, q)
            &&& m@.sym_bodies.len() <= u32::MAX ==> forall|q: int| 0 <= q < pkg.fns@.len()
                ==> #[trigger] fn_stored(*pkg, map.tys@, m@, q)
            &&& m@.sym_bodies.len() <= u32::MAX ==> forall|q: int| 0 <= q < pkg.modules@.len()
                ==> #[trigger] mod_stored(*pkg, m@, q)
            &&& map.tys@.len() == pkg.structs@.len() + pkg.aliases@.len()
            &&& forall|a: int| 0 <= a < map.tys@.len() ==> (#[trigger] map.tys@[a]).1 == a
            &&& forall|a: int, b: int| 0 <= a < b < pkg.structs@.len() ==> #[trigger] map.tys@[a].0 <= #[trigger] map.tys@[b].0
            &&& forall|a: int, b: int| pkg.structs@.len() <= a < b < map.tys@.len() ==> #[trigger] map.tys@[a].0 <= #[trigger] map.tys@[b].0
            &&& map.vals@.len() == pkg.fns@.len()
            &&& forall|a: int, b: int| 0 <= a < b < assoc_count(pkg.fns@) ==> #[trigger] map.vals@[a].0 <= #[trigger] map.vals@[b].0
            &&& forall|a: int, b: int| assoc_count(pkg.fns@) <= a < b < map.vals@.len() ==> #[trigger] map.vals@[a].0 <= #[trigger] map.vals@[b].0
            &&& forall|a: int| 0 <= a < map.vals@.len() ==> (#[trigger] map.vals@[a]).1
                == pkg.structs@.len() + pkg.aliases@.len() + a
            &&& map.modules@.len() == pkg.modules@.len()
            &&& forall|a: int| 0 <= a < map.modules@.len() ==> (#[trigger] map.modules@[a]).1
                == pkg.structs@.len() + pkg.aliases@.len() + pkg.fns@.len() + a
        }),
{
    let n_s = pkg.structs.len();
    let n_a = pkg.aliases.len();
    let n_f = pkg.fns.len();
    let n_m = pkg.modules.len();
    let base_a = n_s;
    let base_f = n_s + n_a;
    let base_m = n_s + n_a + n_f;

    // The source file table.
    let mut strings = StringTable::empty();
    let (file_entries, mod_to_file, sorted_names) = source_file_table(&pkg.modules, &mut strings);
    let ghost phase1 = strings@;
    assert(phase1.subrange(0, phase1.len() as int) =~= phase1);
    assert(mod_to_file@ =~= mod_files(*pkg));

    // Numbering: each block by the id of its definitions.
    let mut keys: Vec<(u64, u64)> = Vec::new();
    let mut i: usize = 0;
    while i < n_s
        invariant
            i <= n_s,
            n_s == pkg.structs@.len(),
            keys@.len() == i,
            forall|k: int| 0 <= k < keys@.len() ==> #[trigger] keys@[k].1 < n_s,
            forall|k: int| 0 <= k < keys@.len() ==> #[trigger] keys@[k] == (pkg.structs@[k].def_id as u64, k as u64),
        decreases n_s - i,
    {
        keys.push((pkg.structs[i].def_id as u64, i as u64));
        i = i + 1;
    }
    let struct_order = order_by_key(&keys, n_s);
    proof {
        assert(keys@ =~= struct_keys(*pkg));
        lemma_sort_keyed_sorted(keys@);
        assert(struct_order_spec(*pkg).len() == n_s);
        assert forall|q: int| 0 <= q < n_s implies #[trigger] struct_order_spec(*pkg)[q] == struct_order@[q] as int by {}

        assert forall|a: int, b: int| 0 <= a < b < n_s implies
            pkg.structs@[struct_order@[a] as int].def_id <= pkg.structs@[struct_order@[b] as int].def_id by {
            let ka = sort_keyed(keys@)[a];
            let kb = sort_keyed(keys@)[b];
            let qa = choose|q: int| 0 <= q < keys@.len() && keys@[q] == ka;
            let qb = choose|q: int| 0 <= q < keys@.len() && keys@[q] == kb;
            assert(keys@[qa] == ka && keys@[qb] == kb);
            assert(ka.0 <= kb.0);
        }
    }
    let mut keys: Vec<(u64, u64)> = Vec::new();
    let mut i: usize = 0;
    while i < n_a
        invariant
            i <= n_a,
            n_a == pkg.aliases@.len(),
            keys@.len() == i,
            forall|k: int| 0 <= k < keys@.len() ==> #[trigger] keys@[k].1 < n_a,
            forall|k: int| 0 <= k < keys@.len() ==> #[trigger] keys@[k] == (pkg.aliases@[k].def_id as u64, k as u64),
        decreases n_a - i,
    {
        keys.push((pkg.aliases[i].def_id as u64, i as u64));
        i = i + 1;
    }
    let alias_order = order_by_key(&keys, n_a);
    proof {
        assert(keys@ =~= alias_keys(*pkg));
        lemma_sort_keyed_sorted(keys@);
        assert(alias_order_spec(*pkg).len() == n_a);
        assert forall|q: int| 0 <= q < n_a implies #[trigger] alias_order_spec(*pkg)[q] == alias_order@[q] as int by {}

        assert forall|a: int, b: int| 0 <= a < b < n_a implies
            pkg.aliases@[alias_order@[a] as int].def_id <= pkg.aliases@[alias_order@[b] as int].def_id by {
            let ka = sort_keyed(keys@)[a];
            let kb = sort_keyed(keys@)[b];
            let qa = choose|q: int| 0 <= q < keys@.len() && keys@[q] == ka;
            let qb = choose|q: int| 0 <= q < keys@.len() && keys@[q] == kb;
            assert(keys@[qa] == ka && keys@[qb] == kb);
            assert(ka.0 <= kb.0);
        }
    }
    let mut assoc_keys: Vec<(u64, u64)> = Vec::new();
    let mut top_keys: Vec<(u64, u64)> = Vec::new();
    let mut i: usize = 0;
    while i < n_f
        invariant
            i <= n_f,
            n_f == pkg.fns@.len(),
            assoc_keys@.len() + top_keys@.len() == i,
            assoc_keys@.len() == assoc_count(pkg.fns@.take(i as int)),
            assoc_keys@ == assoc_fn_keys(pkg.fns@.take(i as int)),
            top_keys@ == top_fn_keys(pkg.fns@.take(i as int)),
            forall|k: int| 0 <= k < assoc_keys@.len() ==> #[trigger] assoc_keys@[k].1 < n_f,
            forall|k: int| 0 <= k < top_keys@.len() ==> #[trigger] top_keys@[k].1 < n_f,
            forall|k: int| 0 <= k < assoc_keys@.len() ==> (#[trigger] assoc_keys@[k]).0
                == pkg.fns@[assoc_keys@[k].1 as int].def_id as u64,
            forall|k: int| 0 <= k < top_keys@.len() ==> (#[trigger] top_keys@[k]).0
                == pkg.fns@[top_keys@[k].1 as int].def_id as u64,
        decreases n_f - i,
    {
        proof {
            let t = pkg.fns@.take(i + 1);
            assert(t.drop_last() =~= pkg.fns@.take(i as int));
            assert(t.last() == pkg.fns@[i as int]);
        }
        if pkg.fns[i].parent.is_some() {
            assoc_keys.push((pkg.fns[i].def_id as u64, i as u64));
        } else {
            top_keys.push((pkg.fns[i].def_id as u64, i as u64));
        }
        i = i + 1;
    }
    assert(pkg.fns@.take(n_f as int) =~= pkg.fns@);
    let assoc_order = order_by_key(&assoc_keys, n_f);
    let top_order = order_by_key(&top_keys, n_f);
    let n_assoc = assoc_order.len();
    proof {
        lemma_sort_keyed_sorted(assoc_keys@);
        lemma_sort_keyed_sorted(top_keys@);
        assert(n_assoc == assoc_fn_keys(pkg.fns@).len());

        assert forall|a: int, b: int| 0 <= a < b < assoc_order@.len() implies
            pkg.fns@[assoc_order@[a] as int].def_id <= pkg.fns@[assoc_order@[b] as int].def_id by {
            let ka = sort_keyed(assoc_keys@)[a];
            let kb = sort_keyed(assoc_keys@)[b];
            let qa = choose|q: int| 0 <= q < assoc_keys@.len() && assoc_keys@[q] == ka;
            let qb = choose|q: int| 0 <= q < assoc_keys@.len() && assoc_keys@[q] == kb;
            assert(assoc_keys@[qa] == ka && assoc_keys@[qb] == kb);
            assert(ka.0 <= kb.0);
        }
        assert forall|a: int, b: int| 0 <= a < b < top_order@.len() implies
            pkg.fns@[top_order@[a] as int].def_id <= pkg.fns@[top_order@[b] as int].def_id by {
            let ka = sort_keyed(top_keys@)[a];
            let kb = sort_keyed(top_keys@)[b];
            let qa = choose|q: int| 0 <= q < top_keys@.len() && top_keys@[q] == ka;
            let qb = choose|q: int| 0 <= q < top_keys@.len() && top_keys@[q] == kb;
            assert(top_keys@[qa] == ka && top_keys@[qb] == kb);
            assert(ka.0 <= kb.0);
        }
    }
    let mut fn_order: Vec<usize> = Vec::new();
    let mut i: usize = 0;
    while i < n_assoc
        invariant
            i <= n_assoc,
            n_assoc == assoc_order@.len(),
            fn_order@.len() == i,
            forall|k: int| 0 <= k < assoc_order@.len() ==> #[trigger] assoc_order@[k] < n_f,
            forall|k: int| 0 <= k < fn_order@.len() ==> #[trigger] fn_order@[k] < n_f,
            forall|k: int| 0 <= k < fn_order@.len() ==> #[trigger] fn_order@[k] == assoc_order@[k],
        decreases n_assoc - i,
    {
        fn_order.push(assoc_order[i]);
        i = i + 1;
    }
    let mut i: usize = 0;
    while i < top_order.len()
        invariant
            i <= top_order@.len(),
            fn_order@.len() == n_assoc + i,
            n_assoc == assoc_order@.len(),
            forall|k: int| 0 <= k < top_order@.len() ==> #[trigger] top_order@[k] < n_f,
            forall|k: int| 0 <= k < fn_order@.len() ==> #[trigger] fn_order@[k] < n_f,
            forall|k: int| 0 <= k < n_assoc ==> #[trigger] fn_order@[k] == assoc_order@[k],
            forall|q: int| 0 <= q < i ==> #[trigger] fn_order@[n_assoc + q] == top_order@[q],
        decreases top_order@.len() - i,
    {
        fn_order.push(top_order[i]);
        i = i + 1;
    }
    assert(fn_order@.len() == n_f);
    proof {
        let fs = fn_order_spec(*pkg);
        let pa = positions(sort_keyed(assoc_fn_keys(pkg.fns@)));
        let pt = positions(sort_keyed(top_fn_keys(pkg.fns@)));
        assert(pa.len() == n_assoc);
        assert(pt.len() == top_order@.len());
        assert(fs.len() == n_f);
        assert forall|q: int| 0 <= q < n_f implies #[trigger] fs[q] == fn_order@[q] as int by {
            if q < n_assoc {
                assert(fs[q] == pa[q]);
                assert(fn_order@[q] == assoc_order@[q]);
            } else {
                let t = q - n_assoc;
                assert(fs[q] == pt[t]);
                assert(fn_order@[n_assoc + t] == top_order@[t]);
            }
        }
    }

    // The symbol of each definition.
    let ty_to_sym = number_types(pkg, &struct_order, &alias_order);
    let mut val_to_sym: Vec<(u32, u32)> = Vec::new();
    let mut k: usize = 0;
    while k < n_f
        invariant
            k <= n_f,
            n_f == pkg.fns@.len(),
            fn_order@.len() == n_f,
            forall|q: int| 0 <= q < fn_order@.len() ==> #[trigger] fn_order@[q] < n_f,
            n_s + n_a + n_f + n_m < u32::MAX,
            base_f == n_s + n_a,
            val_to_sym@.len() == k,
            forall|q: int| 0 <= q < k ==> (#[trigger] val_to_sym@[q]).1 == base_f + q,
            forall|q: int| 0 <= q < k ==> (#[trigger] val_to_sym@[q]).0 == pkg.fns@[fn_order@[q] as int].def_id,
        decreases n_f - k,
    {
        val_to_sym.push((pkg.fns[fn_order[k]].def_id, (base_f + k) as u32));
        k = k + 1;
    }
    let mut mod_syms: Vec<(ModId, u32)> = Vec::new();
    let mut mod_at: Vec<usize> = Vec::new();
    let mut j: usize = 0;
    while j < n_m
        invariant
            j <= n_m,
            n_m == pkg.modules@.len(),
            mod_to_file@.len() == n_m,
            n_s + n_a + n_f + n_m < u32::MAX,
            base_m == n_s + n_a + n_f,
            mod_syms@.len() == j,
            forall|q: int| 0 <= q < j ==> (#[trigger] mod_syms@[q]).1 == base_m + q,
            mod_at@.len() == j,
            forall|q: int| 0 <= q < mod_at@.len() ==> #[trigger] mod_at@[q] < n_m,
            mod_to_file@ == mod_files(*pkg),
            forall|q: int| 0 <= q < mod_at@.len() ==> #[trigger] mod_at@[q] as int == module_at(*pkg, q),
        decreases n_m - j,
    {
        // The module whose file name is the `j`-th in order.
        let mut i: usize = 0;
        let mut found: usize = 0;
        while i < n_m
            invariant_except_break
                i <= n_m,
                found == 0,
                first_with_file(mod_to_file@, j as int, i as int) is None,
            invariant
                n_m == mod_to_file@.len(),
                found < n_m,
            ensures
                found as int == match first_with_file(mod_to_file@, j as int, n_m as int) {
                    Some(x) => x,
                    None => 0,
                },
            decreases n_m - i,
        {
            if mod_to_file[i].1 as usize == j {
                found = i;
                proof {
                    assert(first_with_file(mod_to_file@, j as int, i + 1) == Some(i as int));
                    lemma_first_with_file_stays(mod_to_file@, j as int, i + 1, n_m as int);
                }
                break;
            }
            i = i + 1;
        }
        mod_at.push(found);
        mod_syms.push((pkg.modules[found].mod_id, (base_m + j) as u32));
        j = j + 1;
    }

    // The root module: the lib module, else the main one.
    let mut lib_pos: Option<u32> = None;
    let mut main_pos: Option<u32> = None;
    let ghost names = string_views(sorted_names@);
    let mut i: usize = 0;
    while i < n_m
        invariant
            i <= n_m,
            n_m == pkg.modules@.len(),
            mod_to_file@.len() == n_m,
            names == string_views(sorted_names@),
            forall|q: int| 0 <= q < n_m ==> (#[trigger] mod_to_file@[q]).1 == first_index(names, spec_file_name(pkg.modules@[q].path@))
                && (mod_to_file@[q].1 as int) < n_m,
            lib_pos is Some <==> exists|q: int| 0 <= q < i && (#[trigger] pkg.modules@[q]).path@ == ModPathView::Lib,
            lib_pos matches Some(x) ==> x == first_index(names, spec_file_name(ModPathView::Lib)) && x < n_m,
            main_pos is Some <==> exists|q: int| 0 <= q < i && (#[trigger] pkg.modules@[q]).path@ == ModPathView::Main,
            main_pos matches Some(x) ==> x == first_index(names, spec_file_name(ModPathView::Main)) && x < n_m,
        decreases n_m - i,
    {
        match &pkg.modules[i].path {
            ModPath::Lib => {
                if lib_pos.is_none() {
                    lib_pos = Some(mod_to_file[i].1);
                }
            },
            ModPath::Main => {
                if main_pos.is_none() {
                    main_pos = Some(mod_to_file[i].1);
                }
            },
            ModPath::Mod(_) => {},
        }
        proof {
            assert(pkg.modules@[i as int] == pkg.modules@[i as int]);
        }
        i = i + 1;
    }
    let root_is_lib = lib_pos.is_some();
    let root_sym_idx: u32 = match lib_pos {
        Some(x) => (base_m + x as usize) as u32,
        None => match main_pos {
            Some(x) => (base_m + x as usize) as u32,
            None => 0,
        },
    };

    // The bodies, in symbol order.
    let mut ext = ExtSymBuilder::new();
    let ghost phase1b = strings@;
    let (bodies, Ghost(tabs)) = build_bodies(
        pkg,
        &struct_order,
        &alias_order,
        &fn_order,
        n_assoc,
        &mod_at,
        root_is_lib,
        &ty_to_sym,
        &mod_to_file,
        &mut strings,
        &mut ext,
        Ghost(struct_order_spec(*pkg)),
        Ghost(alias_order_spec(*pkg)),
        Ghost(fn_order_spec(*pkg)),
        Ghost(Seq::new(n_m as nat, |q: int| module_at(*pkg, q))),
    );
    proof {
        lemma_extends_trans(phase1, phase1b, strings@);
    }

    // The body table and the headers.
    let (sym_bodies, offsets) = LazyDiskVec::from_bodies_cut(bodies.as_slice());
    let sym_hdrs = headers_of(&bodies, &offsets);
    proof {
        lemma_headers_decode(bodies@, sym_bodies@, offsets@, sym_hdrs@);
    }
    proof {
        assert forall|q: int| 0 <= q < sym_hdrs@.len() implies (#[trigger] sym_hdrs@[q]).kind == kind_of_symbol(*pkg, q) by {
            assert(body_kind_code(bodies@[q]@) == kind_of_symbol(*pkg, q));
        }
    }

    // Lang items, by their number.
    let mut pairs: Vec<(u64, u64)> = Vec::new();
    let mut i: usize = 0;
    assert(pkg.lang_items@.take(0) =~= Seq::<HirLangItem>::empty());
    while i < pkg.lang_items.len()
        invariant
            i <= pkg.lang_items@.len(),
            forall|k: int| 0 <= k < pairs@.len() ==> (#[trigger] pairs@[k]).0 <= u32::MAX
                && pairs@[k].1 <= u32::MAX,
            pairs@ == lang_pairs(pkg.lang_items@.take(i as int), ty_to_sym@, val_to_sym@),
        decreases pkg.lang_items@.len() - i,
    {
        let li = pkg.lang_items[i];
        proof {
            let t = pkg.lang_items@.take(i + 1);
            assert(t.drop_last() =~= pkg.lang_items@.take(i as int));
            assert(t.last() == li);
        }
        let sym = match li.target {
            LangItemTarget::Ty(id) => sym_of(&ty_to_sym, id),
            LangItemTarget::Fn(id) => sym_of(&val_to_sym, id),
        };
        if let Some(s) = sym {
            pairs.push((li.item as u64, s as u64));
        }
        i = i + 1;
    }
    assert(pkg.lang_items@.take(pkg.lang_items@.len() as int) =~= pkg.lang_items@);
    let sorted_items = sort_keyed_pairs(pairs.as_slice());
    proof {
        lemma_sort_keyed_sorted(pairs@);
        lemma_sort_keyed_members(pairs@);
    }
    let mut lang_items: Vec<DiskLangItem> = Vec::new();
    let mut i: usize = 0;
    while i < sorted_items.len()
        invariant
            i <= sorted_items@.len(),
            sorted_items@ == sort_keyed(pairs@),
            forall|k: int| 0 <= k < pairs@.len() ==> (#[trigger] pairs@[k]).0 <= u32::MAX
                && pairs@[k].1 <= u32::MAX,
            forall|a: int, b: int| 0 <= a < b < sorted_items@.len() ==>
                #[trigger] sorted_items@[a].0 <= #[trigger] sorted_items@[b].0,
            forall|k: int| 0 <= k < sort_keyed(pairs@).len() ==> pairs@.contains(#[trigger] sort_keyed(pairs@)[k]),
            lang_items@.len() == i,
            forall|k: int| 0 <= k < i ==> (#[trigger] lang_items@[k]).lang_item == sorted_items@[k].0,
            lang_items@ == lang_entries(sorted_items@).take(i as int),
        decreases sorted_items@.len() - i,
    {
        let p = sorted_items[i];
        proof {
            assert(pairs@.contains(sorted_items@[i as int]));
            assert(lang_entries(sorted_items@).take(i + 1) =~= lang_entries(sorted_items@).take(i as int).push(
                DiskLangItem { lang_item: p.0 as u32, sym_idx: DiskSymbolIndex(p.1 as u32) },
            ));
        }
        lang_items.push(DiskLangItem { lang_item: p.0 as u32, sym_idx: DiskSymbolIndex(p.1 as u32) });
        i = i + 1;
    }
    assert(lang_items@ =~= lang_entries(sorted_items@));

    // The dependencies' SVHs, by package id.
    let mut dps: Vec<(u64, u64)> = Vec::new();
    let mut i: usize = 0;
    while i < dep_svhs.len()
        invariant
            i <= dep_svhs@.len(),
            dps@ == dep_pairs(dep_svhs@).take(i as int),
        decreases dep_svhs@.len() - i,
    {
        proof {
            assert(dep_pairs(dep_svhs@).take(i + 1) =~= dep_pairs(dep_svhs@).take(i as int).push(
                (dep_svhs@[i as int].0 as u64, dep_svhs@[i as int].1),
            ));
        }
        dps.push((dep_svhs[i].0 as u64, dep_svhs[i].1));
        i = i + 1;
    }
    assert(dps@ =~= dep_pairs(dep_svhs@));
    let sorted_deps = sort_keyed_pairs(dps.as_slice());
    let mut dep_entries_v: Vec<DiskDepSvh> = Vec::new();
    let mut i: usize = 0;
    while i < sorted_deps.len()
        invariant
            i <= sorted_deps@.len(),
            dep_entries_v@ == dep_entries(sorted_deps@).take(i as int),
        decreases sorted_deps@.len() - i,
    {
        proof {
            assert(dep_entries(sorted_deps@).take(i + 1) =~= dep_entries(sorted_deps@).take(i as int).push(
                DiskDepSvh { pkg: sorted_deps@[i as int].0 as u32, svh: sorted_deps@[i as int].1 },
            ));
        }
        dep_entries_v.push(DiskDepSvh { pkg: sorted_deps[i].0 as u32, svh: sorted_deps[i].1 });
        i = i + 1;
    }
    assert(dep_entries_v@ =~= dep_entries(sorted_deps@));

    let mut me = DepMetadata {
        sym_hdrs,
        sym_bodies,
        source_files: SourceFileTable::new(file_entries),
        strings,
        root_sym_idx,
        lang_items,
        svh: Hash64(0),
        dep_svhs: dep_entries_v,
        ext_syms: ext.finish(),
    };
    proof {
        assert forall|i: int| 0 <= i < me@.sym_hdrs.len() && me@.sym_bodies.len() <= u32::MAX implies
            #[trigger] symbol_body_at(me@, i) is Ok by {
            assert(body_at(me@.sym_bodies, me@.sym_hdrs[i]) is Ok);
        }
        let names = sort_strs(module_file_names(pkg.modules@));
        assert forall|i: int| 0 <= i < me@.source_files.len() implies
            !(#[trigger] names[i]).contains('\0') && me@.strings.len() <= u32::MAX
            ==> string_at(me@.strings, me@.source_files[i].file_path.0)
                == Ok::<Seq<char>, super::error::DepMetadataError>(names[i]) by {
            assert(names[i] == string_views(sorted_names@)[i]);
            assert(string_views(sorted_names@)[i] == sorted_names@[i]@);
            if !names[i].contains('\0') && me@.strings.len() <= u32::MAX {
                assert(phase1.len() <= u32::MAX);
                lemma_string_at_extends(phase1, me@.strings, me@.source_files[i].file_path.0);
            }
        }
    }
    let ghost before = me@;
    let h = me.compute_svh();
    me.svh = h;
    assert(svh_source(me@) == svh_source(before));
    proof {
        assert forall|a: int| 0 <= a < ty_to_sym@.len() implies (#[trigger] ty_to_sym@[a]).1 == a by {
            if a < n_s {
                assert(ty_to_sym@[a] == (pkg.structs@[struct_order@[a] as int].def_id, a as u32));
            } else {
                let q = a - n_s;
                assert(ty_to_sym@[n_s + q] == (pkg.aliases@[alias_order@[q] as int].def_id, (n_s + q) as u32));
            }
        }
        assert forall|a: int, b: int| 0 <= a < b < n_s implies #[trigger] ty_to_sym@[a].0 <= #[trigger] ty_to_sym@[b].0 by {
            assert(ty_to_sym@[a] == (pkg.structs@[struct_order@[a] as int].def_id, a as u32));
            assert(ty_to_sym@[b] == (pkg.structs@[struct_order@[b] as int].def_id, b as u32));
            assert(pkg.structs@[struct_order@[a] as int].def_id <= pkg.structs@[struct_order@[b] as int].def_id);
        }
        assert forall|a: int, b: int| n_s <= a < b < ty_to_sym@.len() implies #[trigger] ty_to_sym@[a].0 <= #[trigger] ty_to_sym@[b].0 by {
            let qa = a - n_s;
            let qb = b - n_s;
            assert(ty_to_sym@[n_s + qa] == (pkg.aliases@[alias_order@[qa] as int].def_id, (n_s + qa) as u32));
            assert(ty_to_sym@[n_s + qb] == (pkg.aliases@[alias_order@[qb] as int].def_id, (n_s + qb) as u32));
            assert(pkg.aliases@[alias_order@[qa] as int].def_id <= pkg.aliases@[alias_order@[qb] as int].def_id);
        }
    }
    proof {
        assert forall|a: int, b: int| 0 <= a < b < n_assoc implies #[trigger] val_to_sym@[a].0 <= #[trigger] val_to_sym@[b].0 by {
            assert(fn_order@[a] == assoc_order@[a] && fn_order@[b] == assoc_order@[b]);
            assert(pkg.fns@[assoc_order@[a] as int].def_id <= pkg.fns@[assoc_order@[b] as int].def_id);
        }
        assert forall|a: int, b: int| n_assoc <= a < b < val_to_sym@.len() implies #[trigger] val_to_sym@[a].0 <= #[trigger] val_to_sym@[b].0 by {
            let qa = a - n_assoc;
            let qb = b - n_assoc;
            assert(fn_order@[n_assoc + qa] == top_order@[qa] && fn_order@[n_assoc + qb] == top_order@[qb]);
            assert(pkg.fns@[top_order@[qa] as int].def_id <= pkg.fns@[top_order@[qb] as int].def_id);
        }
    }
    proof {
        let (sts, ess, posts, eposts, chs) = tabs;
        let so = struct_order_spec(*pkg);
        let ao = alias_order_spec(*pkg);
        let fo = fn_order_spec(*pkg);
        if me@.sym_bodies.len() <= u32::MAX {
            assert forall|q: int| 0 <= q < n_s implies #[trigger] struct_stored(*pkg, ty_to_sym@, me@, q) by {
                assert(struct_ok(*pkg, so, fo, (n_s + n_a) as int, n_assoc as int,
                    ty_to_sym@, mod_to_file@, bodies@[q]@, sts[q], ess[q], posts[q], eposts[q], q));
                assert(ext_extends(eposts[q], me@.ext_syms));
                assert(body_at(me@.sym_bodies, me@.sym_hdrs[q]) == Ok::<SymbolBodyView, super::error::DepMetadataError>(bodies@[q]@));
                assert(extends(posts[q], me@.strings));
                assert(struct_written(*pkg, ty_to_sym@, me@, q, sts[q], ess[q]));
            }
            assert forall|q: int| 0 <= q < n_a implies #[trigger] alias_stored(*pkg, me@, q) by {
                assert(alias_ok(*pkg, ao, fo, (n_s + n_a) as int, n_assoc as int,
                    mod_to_file@, bodies@[n_s + q]@, sts[n_s + q], posts[n_s + q], q));
                assert(body_at(me@.sym_bodies, me@.sym_hdrs[n_s + q]) == Ok::<SymbolBodyView, super::error::DepMetadataError>(bodies@[n_s + q]@));
                assert(extends(posts[n_s + q], me@.strings));
                assert(alias_written(*pkg, me@, q, sts[n_s + q]));
            }
            assert forall|q: int| 0 <= q < n_f implies #[trigger] fn_stored(*pkg, ty_to_sym@, me@, q) by {
                let x = n_s + n_a + q;
                assert(fn_ok(*pkg, fo, ty_to_sym@, mod_to_file@, bodies@[x]@, sts[x], ess[x], posts[x], eposts[x], q));
                assert(ext_extends(eposts[x], me@.ext_syms));
                assert(body_at(me@.sym_bodies, me@.sym_hdrs[x]) == Ok::<SymbolBodyView, super::error::DepMetadataError>(bodies@[x]@));
                assert(extends(posts[x], me@.strings));
                assert(fn_written(*pkg, ty_to_sym@, me@, q, sts[x], ess[x]));
            }
            assert forall|q: int| 0 <= q < n_m implies #[trigger] mod_stored(*pkg, me@, q) by {
                let x = n_s + n_a + n_f + q;
                assert(mod_ok(*pkg, mod_at@, chs[q], bodies@[x]@, sts[x], posts[x], q));
                assert(mod_at@[q] as int == module_at(*pkg, q));
                assert(chs[q] == children_spec(*pkg, so, ao, fo, n_assoc as int,
                    Seq::new(n_m as nat, |q: int| module_at(*pkg, q)), mod_at@[q] as int, root_is_lib));
                assert(root_is_lib == has_lib(*pkg));
                assert(Seq::new(n_m as nat, |q: int| module_at(*pkg, q)) =~= Seq::new(pkg.modules@.len(), |q: int| module_at(*pkg, q)));
                assert(body_at(me@.sym_bodies, me@.sym_hdrs[x]) == Ok::<SymbolBodyView, super::error::DepMetadataError>(bodies@[x]@));
                assert(extends(posts[x], me@.strings));
                assert(mod_written(*pkg, me@, q, sts[x]));
            }
        }
    }
    let map = SymbolIndexMap { tys: ty_to_sym, vals: val_to_sym, modules: mod_syms };
    (me, map)
}

/// The header of each body: its kind, public, and its offset.
fn headers_of(bodies: &Vec<SymbolBody>, offsets: &Vec<DiskBodyOffset>) -> (r: Vec<DiskSymbolHeader>)
    requires
        offsets@.len() == bodies@.len(),
    ensures
        r@.len() == bodies@.len(),
        forall|q: int| 0 <= q < r@.len() ==> #[trigger] r@[q] == (DiskSymbolHeader {
            kind: body_kind_code(bodies@[q]@),
            vis: 3,
            offset: offsets@[q],
        }),
{
    let mut sym_hdrs: Vec<DiskSymbolHeader> = Vec::new();
    let mut i: usize = 0;
    while i < bodies.len()
        invariant
            i <= bodies@.len(),
            offsets@.len() == bodies@.len(),
            sym_hdrs@.len() == i,
            forall|q: int| 0 <= q < sym_hdrs@.len() ==> #[trigger] sym_hdrs@[q] == (DiskSymbolHeader {
                kind: body_kind_code(bodies@[q]@),
                vis: 3,
                offset: offsets@[q],
            }),
        decreases bodies@.len() - i,
    {
        let kind = kind_code(&bodies[i]);
        sym_hdrs.push(DiskSymbolHeader { kind, vis: 3, offset: offsets[i] });
        i = i + 1;
    }
    sym_hdrs
}

/// Where the body table fits in 4 GiB, the body of every header laid out
/// from `bodies` reads back.
proof fn lemma_headers_decode(bodies: Seq<SymbolBody>, table: Seq<u8>, offsets: Seq<DiskBodyOffset>, hdrs: Seq<DiskSymbolHeader>)
    requires
        offsets.len() == bodies.len(),
        table.len() == body_table(bodies.map_values(|b: SymbolBody| b@)).len(),
        body_table(bodies.map_values(|b: SymbolBody| b@)).len() <= u32::MAX ==> {
            &&& table == body_table(bodies.map_values(|b: SymbolBody| b@))
            &&& forall|i: int| 0 <= i < bodies.len() ==> #[trigger] offsets[i].0 == body_table(
                bodies.map_values(|b: SymbolBody| b@).take(i),
            ).len()
        },
        hdrs.len() == bodies.len(),
        forall|q: int| 0 <= q < hdrs.len() ==> #[trigger] hdrs[q] == (DiskSymbolHeader {
            kind: body_kind_code(bodies[q]@),
            vis: 3,
            offset: offsets[q],
        }),
    ensures
        table.len() <= u32::MAX ==> forall|i: int| 0 <= i < hdrs.len() ==> #[trigger] body_at(table, hdrs[i])
            == Ok::<SymbolBodyView, super::error::DepMetadataError>(bodies[i]@),
{
    let vs = bodies.map_values(|b: SymbolBody| b@);
    if table.len() <= u32::MAX {
        assert forall|i: int| 0 <= i < hdrs.len() implies #[trigger] body_at(table, hdrs[i])
            == Ok::<SymbolBodyView, super::error::DepMetadataError>(bodies[i]@) by {
            assert(vs[i] == bodies[i]@);
            lemma_body_table_holds_entry(vs, i);
            lemma_body_fits(vs[i]);
            lemma_body_table_read(vs, i, 3);
            assert(offsets[i].0 == body_table(vs.take(i)).len());
        }
    }
}

/// The symbols of the package's types: structs first, then native type
/// aliases, each block in the given order, as (local id, symbol).
fn number_types(pkg: &HirPackage, struct_order: &Vec<usize>, alias_order: &Vec<usize>) -> (r: Vec<(u32, u32)>)
    requires
        struct_order@.len() == pkg.structs@.len(),
        alias_order@.len() == pkg.aliases@.len(),
        forall|q: int| 0 <= q < struct_order@.len() ==> #[trigger] struct_order@[q] < pkg.structs@.len(),
        forall|q: int| 0 <= q < alias_order@.len() ==> #[trigger] alias_order@[q] < pkg.aliases@.len(),
        pkg.structs@.len() + pkg.aliases@.len() < u32::MAX,
    ensures
        r@.len() == pkg.structs@.len() + pkg.aliases@.len(),
        forall|q: int| 0 <= q < pkg.structs@.len() ==> #[trigger] r@[q] == (pkg.structs@[struct_order@[q] as int].def_id, q as u32),
        forall|q: int| 0 <= q < pkg.aliases@.len() ==> #[trigger] r@[pkg.structs@.len() + q]
            == (pkg.aliases@[alias_order@[q] as int].def_id, (pkg.structs@.len() + q) as u32),
{
    let n_s = pkg.structs.len();
    let n_a = pkg.aliases.len();
    let mut ty_to_sym: Vec<(u32, u32)> = Vec::new();
    let mut k: usize = 0;
    while k < n_s
        invariant
            k <= n_s,
            n_s == pkg.structs@.len(),
            struct_order@.len() == n_s,
            forall|q: int| 0 <= q < struct_order@.len() ==> #[trigger] struct_order@[q] < n_s,
            n_s + n_a < u32::MAX,
            ty_to_sym@.len() == k,
            forall|q: int| 0 <= q < k ==> #[trigger] ty_to_sym@[q] == (pkg.structs@[struct_order@[q] as int].def_id, q as u32),
        decreases n_s - k,
    {
        ty_to_sym.push((pkg.structs[struct_order[k]].def_id, k as u32));
        k = k + 1;
    }
    let mut k: usize = 0;
    while k < n_a
        invariant
            k <= n_a,
            n_a == pkg.aliases@.len(),
            alias_order@.len() == n_a,
            forall|q: int| 0 <= q < alias_order@.len() ==> #[trigger] alias_order@[q] < n_a,
            n_s + n_a < u32::MAX,
            ty_to_sym@.len() == n_s + k,
            n_s == pkg.structs@.len(),
            struct_order@.len() == n_s,
            forall|q: int| 0 <= q < n_s ==> #[trigger] ty_to_sym@[q] == (pkg.structs@[struct_order@[q] as int].def_id, q as u32),
            forall|q: int| 0 <= q < k ==> #[trigger] ty_to_sym@[n_s + q] == (pkg.aliases@[alias_order@[q] as int].def_id, (n_s + q) as u32),
        decreases n_a - k,
    {
        ty_to_sym.push((pkg.aliases[alias_order[k]].def_id, (n_s + k) as u32));
        k = k + 1;
    }
    ty_to_sym
}

/// Body `q` is the struct at place `q` of `so`, written after table state
/// `st` and `es`, leaving the string table `post`.
spec fn struct_ok(
    pkg: HirPackage,
    so: Seq<int>,
    fo: Seq<int>,
    base_f: int,
    n_assoc: int,
    tys: Seq<(u32, u32)>,
    files: Seq<(ModId, u32)>,
    body: SymbolBodyView,
    st: Seq<u8>,
    es: Seq<DiskExternalSymbol>,
    post: Seq<u8>,
    epost: Seq<DiskExternalSymbol>,
    q: int,
) -> bool {
    let d = pkg.structs@[so[q]];
    let e = struct_body_spec(d, assoc_syms_spec(pkg.fns@, fo, base_f, d.def_id, n_assoc), tys, files, st, es);
    body == e.0 && post == e.1 && epost == e.2
}

/// Body `n_s + q` is the alias at place `q` of `ao`.
spec fn alias_ok(
    pkg: HirPackage,
    ao: Seq<int>,
    fo: Seq<int>,
    base_f: int,
    n_assoc: int,
    files: Seq<(ModId, u32)>,
    body: SymbolBodyView,
    st: Seq<u8>,
    post: Seq<u8>,
    q: int,
) -> bool {
    let d = pkg.aliases@[ao[q]];
    let e = alias_body_spec(d, assoc_syms_spec(pkg.fns@, fo, base_f, d.def_id, n_assoc), files, st);
    body == e.0 && post == e.1
}

/// Body `base_f + q` is the function at place `q` of `fo`.
spec fn fn_ok(
    pkg: HirPackage,
    fo: Seq<int>,
    tys: Seq<(u32, u32)>,
    files: Seq<(ModId, u32)>,
    body: SymbolBodyView,
    st: Seq<u8>,
    es: Seq<DiskExternalSymbol>,
    post: Seq<u8>,
    epost: Seq<DiskExternalSymbol>,
    q: int,
) -> bool {
    let e = fn_body_spec(pkg.fns@[fo[q]], tys, files, st, es);
    body == e.0 && post == e.1 && epost == e.2
}

/// Body `base_m + q` is the module at place `mod_at[q]`, with `children`.
spec fn mod_ok(
    pkg: HirPackage,
    mod_at: Seq<usize>,
    children: Seq<DiskSymbolIndex>,
    body: SymbolBodyView,
    st: Seq<u8>,
    post: Seq<u8>,
    q: int,
) -> bool {
    let e = mod_body_spec(pkg.modules@[mod_at[q] as int].path@, children, st);
    body == e.0 && post == e.1
}

/// Tables that were prefixes of `prev` stay prefixes of what `prev` grows to.
proof fn lemma_posts_grow(posts: Seq<Seq<u8>>, prev: Seq<u8>, cur: Seq<u8>)
    requires
        forall|q: int| 0 <= q < posts.len() ==> extends(#[trigger] posts[q], prev),
        extends(prev, cur),
    ensures
        forall|q: int| 0 <= q < posts.len() ==> extends(#[trigger] posts[q], cur),
{
    assert forall|q: int| 0 <= q < posts.len() implies extends(#[trigger] posts[q], cur) by {
        lemma_extends_trans(posts[q], prev, cur);
    }
}

/// External symbol tables that were prefixes of `prev` stay prefixes of
/// what `prev` grows to.
proof fn lemma_eposts_grow(eposts: Seq<Seq<DiskExternalSymbol>>, prev: Seq<DiskExternalSymbol>, cur: Seq<DiskExternalSymbol>)
    requires
        forall|q: int| 0 <= q < eposts.len() ==> ext_extends(#[trigger] eposts[q], prev),
        ext_extends(prev, cur),
    ensures
        forall|q: int| 0 <= q < eposts.len() ==> ext_extends(#[trigger] eposts[q], cur),
{
    assert forall|q: int| 0 <= q < eposts.len() implies ext_extends(#[trigger] eposts[q], cur) by {
        lemma_ext_extends_trans(eposts[q], prev, cur);
    }
}

/// The bodies of all symbols, in symbol order, written into the string
/// and external symbol tables; also gives, for each body, the state of
/// both tables before it, the string table after it and, for a module, its
/// children.
#[verifier::spinoff_prover]
#[verifier::rlimit(100)]
fn build_bodies(
    pkg: &HirPackage,
    struct_order: &Vec<usize>,
    alias_order: &Vec<usize>,
    fn_order: &Vec<usize>,
    n_assoc: usize,
    mod_at: &Vec<usize>,
    root_is_lib: bool,
    ty_to_sym: &Vec<(u32, u32)>,
    mod_to_file: &Vec<(ModId, u32)>,
    strings: &mut StringTable,
    ext: &mut ExtSymBuilder,
    Ghost(so): Ghost<Seq<int>>,
    Ghost(ao): Ghost<Seq<int>>,
    Ghost(fo): Ghost<Seq<int>>,
    Ghost(ma): Ghost<Seq<int>>,
) -> (r: (Vec<SymbolBody>, Ghost<(Seq<Seq<u8>>, Seq<Seq<DiskExternalSymbol>>, Seq<Seq<u8>>, Seq<Seq<DiskExternalSymbol>>, Seq<Seq<DiskSymbolIndex>>)>))
    requires
        pkg.structs@.len() + pkg.aliases@.len() + pkg.fns@.len() + pkg.modules@.len() < u32::MAX,
        forall|i: int| 0 <= i < pkg.fns@.len() ==>
            #[trigger] pkg.fns@[i].impl_genargs@.len() + pkg.fns@[i].sig.genargs@.len() <= usize::MAX,
        struct_order@.len() == pkg.structs@.len(),
        forall|q: int| 0 <= q < struct_order@.len() ==> #[trigger] struct_order@[q] < pkg.structs@.len(),
        so.len() == struct_order@.len(),
        forall|q: int| 0 <= q < struct_order@.len() ==> #[trigger] so[q] == struct_order@[q] as int,
        alias_order@.len() == pkg.aliases@.len(),
        forall|q: int| 0 <= q < alias_order@.len() ==> #[trigger] alias_order@[q] < pkg.aliases@.len(),
        ao.len() == alias_order@.len(),
        forall|q: int| 0 <= q < alias_order@.len() ==> #[trigger] ao[q] == alias_order@[q] as int,
        fn_order@.len() == pkg.fns@.len(),
        forall|q: int| 0 <= q < fn_order@.len() ==> #[trigger] fn_order@[q] < pkg.fns@.len(),
        fo.len() == fn_order@.len(),
        forall|q: int| 0 <= q < fn_order@.len() ==> #[trigger] fo[q] == fn_order@[q] as int,
        n_assoc <= pkg.fns@.len(),
        mod_at@.len() == pkg.modules@.len(),
        forall|q: int| 0 <= q < mod_at@.len() ==> #[trigger] mod_at@[q] < pkg.modules@.len(),
        ma.len() == mod_at@.len(),
        forall|q: int| 0 <= q < mod_at@.len() ==> #[trigger] ma[q] == mod_at@[q] as int,
    ensures
        extends(old(strings)@, final(strings)@),
        ({
            let (bodies, g) = r;
            let (sts, ess, posts, eposts, chs) = g@;
            let n_s = pkg.structs@.len() as int;
            let n_a = pkg.aliases@.len() as int;
            let n_f = pkg.fns@.len() as int;
            let n_m = pkg.modules@.len() as int;
            &&& bodies@.len() == n_s + n_a + n_f + n_m
            &&& sts.len() == bodies@.len()
            &&& ess.len() == bodies@.len()
            &&& posts.len() == bodies@.len()
            &&& eposts.len() == bodies@.len()
            &&& chs.len() == n_m
            &&& forall|q: int| 0 <= q < bodies@.len() ==> ext_extends(#[trigger] eposts[q], final(ext).entries())
            &&& forall|q: int| 0 <= q < bodies@.len() ==> body_kind_code((#[trigger] bodies@[q])@) == kind_of_symbol(*pkg, q)
            &&& forall|q: int| 0 <= q < bodies@.len() ==> extends(#[trigger] posts[q], final(strings)@)
            &&& forall|q: int| 0 <= q < n_s ==> #[trigger] struct_ok(*pkg, so, fo, n_s + n_a, n_assoc as int,
                ty_to_sym@, mod_to_file@, bodies@[q]@, sts[q], ess[q], posts[q], eposts[q], q)
            &&& forall|q: int| 0 <= q < n_a ==> #[trigger] alias_ok(*pkg, ao, fo, n_s + n_a, n_assoc as int,
                mod_to_file@, bodies@[n_s + q]@, sts[n_s + q], posts[n_s + q], q)
            &&& forall|q: int| 0 <= q < n_f ==> #[trigger] fn_ok(*pkg, fo, ty_to_sym@, mod_to_file@,
                bodies@[n_s + n_a + q]@, sts[n_s + n_a + q], ess[n_s + n_a + q], posts[n_s + n_a + q],
                eposts[n_s + n_a + q], q)
            &&& forall|q: int| 0 <= q < n_m ==> #[trigger] mod_ok(*pkg, mod_at@, chs[q],
                bodies@[n_s + n_a + n_f + q]@, sts[n_s + n_a + n_f + q], posts[n_s + n_a + n_f + q], q)
            &&& forall|q: int| 0 <= q < n_m ==> #[trigger] chs[q] == children_spec(*pkg, so, ao, fo, n_assoc as int, ma,
                mod_at@[q] as int, root_is_lib)
        }),
{
    let n_s = pkg.structs.len();
    let n_a = pkg.aliases.len();
    let n_f = pkg.fns.len();
    let n_m = pkg.modules.len();
    let base_a = n_s;
    let base_f = n_s + n_a;
    let base_m = n_s + n_a + n_f;
    let ghost start = strings@;
    assert(start.subrange(0, start.len() as int) =~= start);
    let ghost mut sts: Seq<Seq<u8>> = Seq::empty();
    let ghost mut ess: Seq<Seq<DiskExternalSymbol>> = Seq::empty();
    let ghost mut posts: Seq<Seq<u8>> = Seq::empty();
    let ghost mut eposts: Seq<Seq<DiskExternalSymbol>> = Seq::empty();
    let ghost mut chs: Seq<Seq<DiskSymbolIndex>> = Seq::empty();
    let mut bodies: Vec<SymbolBody> = Vec::new();
    let mut k: usize = 0;
    while k < n_s
        invariant
            extends(start, strings@),
            k <= n_s,
            n_s == pkg.structs@.len(),
            n_a == pkg.aliases@.len(),
            n_f == pkg.fns@.len(),
            base_f == n_s + n_a,
            struct_order@.len() == n_s,
            forall|q: int| 0 <= q < struct_order@.len() ==> #[trigger] struct_order@[q] < n_s,
            so.len() == struct_order@.len(),
            forall|q: int| 0 <= q < struct_order@.len() ==> #[trigger] so[q] == struct_order@[q] as int,
            fn_order@.len() == n_f,
            forall|q: int| 0 <= q < fn_order@.len() ==> #[trigger] fn_order@[q] < n_f,
            fo.len() == fn_order@.len(),
            forall|q: int| 0 <= q < fn_order@.len() ==> #[trigger] fo[q] == fn_order@[q] as int,
            n_assoc <= n_f,
            n_s + n_a + n_f + pkg.modules@.len() < u32::MAX,
            bodies@.len() == k,
            sts.len() == k,
            ess.len() == k,
            posts.len() == k,
            eposts.len() == k,
            forall|q: int| 0 <= q < eposts.len() ==> ext_extends(#[trigger] eposts[q], ext.entries()),
            forall|q: int| 0 <= q < bodies@.len() ==> body_kind_code((#[trigger] bodies@[q])@) == kind_of_symbol(*pkg, q),
            forall|q: int| 0 <= q < posts.len() ==> extends(#[trigger] posts[q], strings@),
            forall|q: int| 0 <= q < k ==> #[trigger] struct_ok(*pkg, so, fo, base_f as int, n_assoc as int,
                ty_to_sym@, mod_to_file@, bodies@[q]@, sts[q], ess[q], posts[q], eposts[q], q),
        decreases n_s - k,
    {
        let d = &pkg.structs[struct_order[k]];
        let assoc = assoc_symbols_of(pkg, fn_order, n_assoc, base_f, d.def_id, Ghost(fo));
        let ghost assoc_v = assoc@;
        let ghost prev = strings@;
        let ghost prev_es = ext.entries();
        let b = struct_body(d, assoc, ty_to_sym, mod_to_file, strings, ext);
        proof {
            lemma_extends_trans(start, prev, strings@);
            lemma_posts_grow(posts, prev, strings@);
            lemma_struct_ext_extends(*d, assoc_v, ty_to_sym@, mod_to_file@, prev, prev_es);
            assert(prev_es.take(prev_es.len() as int) =~= prev_es);
            lemma_eposts_grow(eposts, prev_es, ext.entries());
            assert(strings@.subrange(0, strings@.len() as int) =~= strings@);
            sts = sts.push(prev);
            ess = ess.push(prev_es);
            posts = posts.push(strings@);
            assert(ext.entries().take(ext.entries().len() as int) =~= ext.entries());
            eposts = eposts.push(ext.entries());
        }
        bodies.push(b);
        proof {
            assert(struct_ok(*pkg, so, fo, base_f as int, n_assoc as int,
                ty_to_sym@, mod_to_file@, bodies@[k as int]@, sts[k as int], ess[k as int], posts[k as int], eposts[k as int], k as int));
        }
        k = k + 1;
    }
    let mut k: usize = 0;
    while k < n_a
        invariant
            extends(start, strings@),
            k <= n_a,
            n_s == pkg.structs@.len(),
            n_a == pkg.aliases@.len(),
            n_f == pkg.fns@.len(),
            base_f == n_s + n_a,
            alias_order@.len() == n_a,
            forall|q: int| 0 <= q < alias_order@.len() ==> #[trigger] alias_order@[q] < n_a,
            ao.len() == alias_order@.len(),
            forall|q: int| 0 <= q < alias_order@.len() ==> #[trigger] ao[q] == alias_order@[q] as int,
            fn_order@.len() == n_f,
            forall|q: int| 0 <= q < fn_order@.len() ==> #[trigger] fn_order@[q] < n_f,
            fo.len() == fn_order@.len(),
            forall|q: int| 0 <= q < fn_order@.len() ==> #[trigger] fo[q] == fn_order@[q] as int,
            n_assoc <= n_f,
            n_s + n_a + n_f + pkg.modules@.len() < u32::MAX,
            bodies@.len() == n_s + k,
            sts.len() == n_s + k,
            ess.len() == n_s + k,
            posts.len() == n_s + k,
            eposts.len() == n_s + k,
            forall|q: int| 0 <= q < eposts.len() ==> ext_extends(#[trigger] eposts[q], ext.entries()),
            forall|q: int| 0 <= q < bodies@.len() ==> body_kind_code((#[trigger] bodies@[q])@) == kind_of_symbol(*pkg, q),
            forall|q: int| 0 <= q < posts.len() ==> extends(#[trigger] posts[q], strings@),
            forall|q: int| 0 <= q < n_s ==> #[trigger] struct_ok(*pkg, so, fo, base_f as int, n_assoc as int,
                ty_to_sym@, mod_to_file@, bodies@[q]@, sts[q], ess[q], posts[q], eposts[q], q),
            forall|q: int| 0 <= q < k ==> #[trigger] alias_ok(*pkg, ao, fo, base_f as int, n_assoc as int,
                mod_to_file@, bodies@[n_s + q]@, sts[n_s + q], posts[n_s + q], q),
        decreases n_a - k,
    {
        let d = &pkg.aliases[alias_order[k]];
        let assoc = assoc_symbols_of(pkg, fn_order, n_assoc, base_f, d.def_id, Ghost(fo));
        let ghost prev = strings@;
        let ghost prev_es = ext.entries();
        let b = alias_body(d, assoc, mod_to_file, strings);
        proof {
            lemma_extends_trans(start, prev, strings@);
            lemma_posts_grow(posts, prev, strings@);
            assert(prev_es.take(prev_es.len() as int) =~= prev_es);
            lemma_eposts_grow(eposts, prev_es, ext.entries());
            assert(strings@.subrange(0, strings@.len() as int) =~= strings@);
            sts = sts.push(prev);
            ess = ess.push(prev_es);
            posts = posts.push(strings@);
            assert(ext.entries().take(ext.entries().len() as int) =~= ext.entries());
            eposts = eposts.push(ext.entries());
        }
        bodies.push(b);
        proof {
            assert(alias_ok(*pkg, ao, fo, base_f as int, n_assoc as int,
                mod_to_file@, bodies@[n_s + k]@, sts[n_s + k], posts[n_s + k], k as int));
        }
        k = k + 1;
    }
    let mut k: usize = 0;
    while k < n_f
        invariant
            extends(start, strings@),
            k <= n_f,
            n_s == pkg.structs@.len(),
            n_a == pkg.aliases@.len(),
            n_f == pkg.fns@.len(),
            base_f == n_s + n_a,
            fn_order@.len() == n_f,
            forall|q: int| 0 <= q < fn_order@.len() ==> #[trigger] fn_order@[q] < n_f,
            fo.len() == fn_order@.len(),
            forall|q: int| 0 <= q < fn_order@.len() ==> #[trigger] fo[q] == fn_order@[q] as int,
            forall|i: int| 0 <= i < pkg.fns@.len() ==>
                #[trigger] pkg.fns@[i].impl_genargs@.len() + pkg.fns@[i].sig.genargs@.len() <= usize::MAX,
            n_s + n_a + n_f + pkg.modules@.len() < u32::MAX,
            bodies@.len() == base_f + k,
            sts.len() == base_f + k,
            ess.len() == base_f + k,
            posts.len() == base_f + k,
            eposts.len() == base_f + k,
            forall|q: int| 0 <= q < eposts.len() ==> ext_extends(#[trigger] eposts[q], ext.entries()),
            forall|q: int| 0 <= q < bodies@.len() ==> body_kind_code((#[trigger] bodies@[q])@) == kind_of_symbol(*pkg, q),
            forall|q: int| 0 <= q < posts.len() ==> extends(#[trigger] posts[q], strings@),
            forall|q: int| 0 <= q < n_s ==> #[trigger] struct_ok(*pkg, so, fo, base_f as int, n_assoc as int,
                ty_to_sym@, mod_to_file@, bodies@[q]@, sts[q], ess[q], posts[q], eposts[q], q),
            forall|q: int| 0 <= q < n_a ==> #[trigger] alias_ok(*pkg, ao, fo, base_f as int, n_assoc as int,
                mod_to_file@, bodies@[n_s + q]@, sts[n_s + q], posts[n_s + q], q),
            forall|q: int| 0 <= q < k ==> #[trigger] fn_ok(*pkg, fo, ty_to_sym@, mod_to_file@,
                bodies@[base_f + q]@, sts[base_f + q], ess[base_f + q], posts[base_f + q], eposts[base_f + q], q),
        decreases n_f - k,
    {
        let ghost prev = strings@;
        let ghost prev_es = ext.entries();
        let b = fn_body(&pkg.fns[fn_order[k]], ty_to_sym, mod_to_file, strings, ext);
        proof {
            lemma_extends_trans(start, prev, strings@);
            lemma_posts_grow(posts, prev, strings@);
            lemma_fn_ext_extends(pkg.fns@[fn_order@[k as int] as int], ty_to_sym@, mod_to_file@, prev, prev_es);
            assert(prev_es.take(prev_es.len() as int) =~= prev_es);
            lemma_eposts_grow(eposts, prev_es, ext.entries());
            assert(strings@.subrange(0, strings@.len() as int) =~= strings@);
            sts = sts.push(prev);
            ess = ess.push(prev_es);
            posts = posts.push(strings@);
            assert(ext.entries().take(ext.entries().len() as int) =~= ext.entries());
            eposts = eposts.push(ext.entries());
        }
        bodies.push(b);
        proof {
            assert(fn_ok(*pkg, fo, ty_to_sym@, mod_to_file@,
                bodies@[base_f + k]@, sts[base_f + k], ess[base_f + k], posts[base_f + k], eposts[base_f + k], k as int));
        }
        k = k + 1;
    }
    let mut j: usize = 0;
    while j < n_m
        invariant
            extends(start, strings@),
            j <= n_m,
            n_s == pkg.structs@.len(),
            n_a == pkg.aliases@.len(),
            n_f == pkg.fns@.len(),
            n_m == pkg.modules@.len(),
            mod_at@.len() == n_m,
            forall|q: int| 0 <= q < mod_at@.len() ==> #[trigger] mod_at@[q] < n_m,
            struct_order@.len() == n_s,
            forall|q: int| 0 <= q < struct_order@.len() ==> #[trigger] struct_order@[q] < n_s,
            alias_order@.len() == n_a,
            forall|q: int| 0 <= q < alias_order@.len() ==> #[trigger] alias_order@[q] < n_a,
            fn_order@.len() == n_f,
            forall|q: int| 0 <= q < fn_order@.len() ==> #[trigger] fn_order@[q] < n_f,
            n_assoc <= n_f,
            n_s + n_a + n_f + n_m < u32::MAX,
            base_a == n_s,
            base_f == n_s + n_a,
            base_m == n_s + n_a + n_f,
            bodies@.len() == base_m + j,
            sts.len() == base_m + j,
            ess.len() == base_m + j,
            posts.len() == base_m + j,
            eposts.len() == base_m + j,
            forall|q: int| 0 <= q < eposts.len() ==> ext_extends(#[trigger] eposts[q], ext.entries()),
            chs.len() == j,
            forall|q: int| 0 <= q < bodies@.len() ==> body_kind_code((#[trigger] bodies@[q])@) == kind_of_symbol(*pkg, q),
            forall|q: int| 0 <= q < posts.len() ==> extends(#[trigger] posts[q], strings@),
            forall|q: int| 0 <= q < n_s ==> #[trigger] struct_ok(*pkg, so, fo, base_f as int, n_assoc as int,
                ty_to_sym@, mod_to_file@, bodies@[q]@, sts[q], ess[q], posts[q], eposts[q], q),
            forall|q: int| 0 <= q < n_a ==> #[trigger] alias_ok(*pkg, ao, fo, base_f as int, n_assoc as int,
                mod_to_file@, bodies@[n_s + q]@, sts[n_s + q], posts[n_s + q], q),
            forall|q: int| 0 <= q < n_f ==> #[trigger] fn_ok(*pkg, fo, ty_to_sym@, mod_to_file@,
                bodies@[base_f + q]@, sts[base_f + q], ess[base_f + q], posts[base_f + q], eposts[base_f + q], q),
            forall|q: int| 0 <= q < j ==> #[trigger] mod_ok(*pkg, mod_at@, chs[q],
                bodies@[base_m + q]@, sts[base_m + q], posts[base_m + q], q),
            so.len() == n_s,
            forall|q: int| 0 <= q < struct_order@.len() ==> #[trigger] so[q] == struct_order@[q] as int,
            ao.len() == n_a,
            forall|q: int| 0 <= q < alias_order@.len() ==> #[trigger] ao[q] == alias_order@[q] as int,
            fo.len() == n_f,
            forall|q: int| 0 <= q < fn_order@.len() ==> #[trigger] fo[q] == fn_order@[q] as int,
            ma.len() == n_m,
            forall|q: int| 0 <= q < mod_at@.len() ==> #[trigger] ma[q] == mod_at@[q] as int,
            forall|q: int| 0 <= q < j ==> #[trigger] chs[q] == children_spec(*pkg, so, ao, fo, n_assoc as int, ma,
                mod_at@[q] as int, root_is_lib),
        decreases n_m - j,
    {
        let here = &pkg.modules[mod_at[j]];
        let mut children: Vec<DiskSymbolIndex> = Vec::new();
        let file = here.mod_id.0;
        let mut k: usize = 0;
        while k < n_s
            invariant
                k <= n_s,
                n_s == pkg.structs@.len(),
                struct_order@.len() == n_s,
                forall|q: int| 0 <= q < struct_order@.len() ==> #[trigger] struct_order@[q] < n_s,
                forall|q: int| 0 <= q < struct_order@.len() ==> #[trigger] so[q] == struct_order@[q] as int,
                n_s + n_a + n_f + n_m < u32::MAX,
                children@ == struct_children(*pkg, so, file, k as int),
            decreases n_s - k,
        {
            if pkg.structs[struct_order[k]].name_span.file.0 == file {
                children.push(DiskSymbolIndex(k as u32));
            }
            k = k + 1;
        }
        let ghost c1 = children@;
        assert(alias_children(*pkg, ao, file, 0) =~= Seq::<DiskSymbolIndex>::empty());
        assert(children@ =~= c1 + alias_children(*pkg, ao, file, 0));
        let mut k: usize = 0;
        while k < n_a
            invariant
                k <= n_a,
                n_s == pkg.structs@.len(),
                n_a == pkg.aliases@.len(),
                alias_order@.len() == n_a,
                forall|q: int| 0 <= q < alias_order@.len() ==> #[trigger] alias_order@[q] < n_a,
                forall|q: int| 0 <= q < alias_order@.len() ==> #[trigger] ao[q] == alias_order@[q] as int,
                n_s + n_a + n_f + n_m < u32::MAX,
                base_a == n_s,
                children@ == c1 + alias_children(*pkg, ao, file, k as int),
            decreases n_a - k,
        {
            if pkg.aliases[alias_order[k]].name_span.file.0 == file {
                children.push(DiskSymbolIndex((base_a + k) as u32));
                assert(children@ =~= c1 + alias_children(*pkg, ao, file, k + 1));
            } else {
                assert(children@ =~= c1 + alias_children(*pkg, ao, file, k + 1));
            }
            k = k + 1;
        }
        let ghost c2 = children@;
        assert(children@ =~= c2 + fn_children(*pkg, fo, n_assoc as int, file, n_assoc as int));
        let mut k: usize = n_assoc;
        while k < n_f
            invariant
                n_assoc <= k <= n_f,
                n_s == pkg.structs@.len(),
                n_a == pkg.aliases@.len(),
                n_f == pkg.fns@.len(),
                fn_order@.len() == n_f,
                forall|q: int| 0 <= q < fn_order@.len() ==> #[trigger] fn_order@[q] < n_f,
                forall|q: int| 0 <= q < fn_order@.len() ==> #[trigger] fo[q] == fn_order@[q] as int,
                n_s + n_a + n_f + n_m < u32::MAX,
                base_f == n_s + n_a,
                children@ == c2 + fn_children(*pkg, fo, n_assoc as int, file, k as int),
            decreases n_f - k,
        {
            if pkg.fns[fn_order[k]].name_span.file.0 == file {
                children.push(DiskSymbolIndex((base_f + k) as u32));
                assert(children@ =~= c2 + fn_children(*pkg, fo, n_assoc as int, file, k + 1));
            } else {
                assert(children@ =~= c2 + fn_children(*pkg, fo, n_assoc as int, file, k + 1));
            }
            k = k + 1;
        }
        let ghost c3 = children@;
        assert(children@ =~= c3 + sub_children(*pkg, ma, here.path@, root_is_lib, 0));
        let mut q: usize = 0;
        while q < n_m
            invariant
                q <= n_m,
                n_s == pkg.structs@.len(),
                n_a == pkg.aliases@.len(),
                n_f == pkg.fns@.len(),
                n_m == pkg.modules@.len(),
                mod_at@.len() == n_m,
                forall|x: int| 0 <= x < mod_at@.len() ==> #[trigger] mod_at@[x] < n_m,
                forall|x: int| 0 <= x < mod_at@.len() ==> #[trigger] ma[x] == mod_at@[x] as int,
                n_s + n_a + n_f + n_m < u32::MAX,
                base_m == n_s + n_a + n_f,
                children@ == c3 + sub_children(*pkg, ma, here.path@, root_is_lib, q as int),
            decreases n_m - q,
        {
            if is_parent(&here.path, &pkg.modules[mod_at[q]].path, root_is_lib) {
                children.push(DiskSymbolIndex((base_m + q) as u32));
                assert(children@ =~= c3 + sub_children(*pkg, ma, here.path@, root_is_lib, q + 1));
            } else {
                assert(children@ =~= c3 + sub_children(*pkg, ma, here.path@, root_is_lib, q + 1));
            }
            q = q + 1;
        }
        assert(children@ == children_spec(*pkg, so, ao, fo, n_assoc as int, ma, mod_at@[j as int] as int, root_is_lib));
        let ghost prev = strings@;
        let ghost prev_es = ext.entries();
        let ghost ch = children@;
        let b = mod_body(&here.path, children, strings);
        proof {
            lemma_extends_trans(start, prev, strings@);
            lemma_posts_grow(posts, prev, strings@);
            assert(prev_es.take(prev_es.len() as int) =~= prev_es);
            lemma_eposts_grow(eposts, prev_es, ext.entries());
            assert(strings@.subrange(0, strings@.len() as int) =~= strings@);
            sts = sts.push(prev);
            ess = ess.push(prev_es);
            posts = posts.push(strings@);
            assert(ext.entries().take(ext.entries().len() as int) =~= ext.entries());
            eposts = eposts.push(ext.entries());
            chs = chs.push(ch);
        }
        bodies.push(b);
        proof {
            assert(mod_ok(*pkg, mod_at@, chs[j as int], bodies@[base_m + j]@, sts[base_m + j], posts[base_m + j], j as int));
        }
        j = j + 1;
    }
    (bodies, Ghost((sts, ess, posts, eposts, chs)))
}

/// The symbols of the associated functions of the type `owner`, in the
/// order they were numbered.
fn assoc_symbols_of(pkg: &HirPackage, fn_order: &Vec<usize>, n_assoc: usize, base_f: usize, owner: u32, Ghost(order): Ghost<Seq<int>>) -> (r: Vec<DiskSymbolIndex>)
    requires
        n_assoc <= fn_order@.len(),
        forall|q: int| 0 <= q < fn_order@.len() ==> #[trigger] fn_order@[q] < pkg.fns@.len(),
        base_f + fn_order@.len() < u32::MAX,
        order.len() == fn_order@.len(),
        forall|q: int| 0 <= q < fn_order@.len() ==> #[trigger] order[q] == fn_order@[q] as int,
    ensures
        r@ == assoc_syms_spec(pkg.fns@, order, base_f as int, owner, n_assoc as int),
{
    let mut out: Vec<DiskSymbolIndex> = Vec::new();
    let mut q: usize = 0;
    while q < n_assoc
        invariant
            q <= n_assoc,
            n_assoc <= fn_order@.len(),
            forall|x: int| 0 <= x < fn_order@.len() ==> #[trigger] fn_order@[x] < pkg.fns@.len(),
            base_f + fn_order@.len() < u32::MAX,
            order.len() == fn_order@.len(),
            forall|x: int| 0 <= x < fn_order@.len() ==> #[trigger] order[x] == fn_order@[x] as int,
            out@ == assoc_syms_spec(pkg.fns@, order, base_f as int, owner, q as int),
        decreases n_assoc - q,
    {
        assert(order[q as int] == fn_order@[q as int] as int);
        if pkg.fns[fn_order[q]].parent == Some(owner) {
            out.push(DiskSymbolIndex((base_f + q) as u32));
        }
        q = q + 1;
    }
    out
}

} // verus!
