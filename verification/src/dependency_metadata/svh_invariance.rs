//! What the SVH leaves out: span offsets, the source text of definitions,
//! and how the string, file and external symbol tables are laid out. Two
//! metadata whose symbols declare the same things hash the same, so adding
//! a comment or a blank line, which moves spans and changes the source
//! text written to the string table, does not ripple to dependents.

use vstd::prelude::*;
use super::{DepMetadataView, symbol_body_at, ext_sym_at};
use super::body::SymbolBodyView;
use super::format::{DiskArgView, DiskFileIndex, DiskGenArg, DiskSpan, DiskStringOffset,
    DiskStructMemberView, DiskTyHeader, DiskTyView};
use super::svh::{arg_pairs, body_piece, genarg_names_piece, genargs_piece, insert_by_name,
    member_pairs, named_tys_piece, sort_by_name, svh_source, svh_stream, symbol_piece,
    symbols_piece, ty_piece, ty_ref_piece, tys_piece, file_name_or_empty};
use super::table::string_or_empty;

verus! {

/// A span with its offsets dropped: only its file is kept.
pub open spec fn span_file_only(s: DiskSpan) -> DiskSpan {
    DiskSpan { file: s.file, begin: 0, end: 0 }
}

/// No span at all.
pub open spec fn no_span() -> DiskSpan {
    DiskSpan { file: DiskFileIndex(0), begin: 0, end: 0 }
}

/// A type with the offsets of its spans dropped.
pub open spec fn ty_without_offsets(v: DiskTyView) -> DiskTyView
    decreases v, 1nat,
{
    DiskTyView {
        hdr: DiskTyHeader { kind: v.hdr.kind, sym_id: v.hdr.sym_id, span: span_file_only(v.hdr.span) },
        genargs: tys_without_offsets(v.genargs),
    }
}

pub open spec fn tys_without_offsets(gs: Seq<DiskTyView>) -> Seq<DiskTyView>
    decreases gs, 0nat,
{
    if gs.len() == 0 {
        Seq::empty()
    } else {
        tys_without_offsets(gs.subrange(0, gs.len() - 1)).push(ty_without_offsets(gs[gs.len() - 1]))
    }
}

pub open spec fn genarg_without_offsets(g: DiskGenArg) -> DiskGenArg {
    DiskGenArg { name: g.name, name_span: span_file_only(g.name_span) }
}

pub open spec fn arg_without_offsets(a: DiskArgView) -> DiskArgView {
    DiskArgView { name: a.name, name_span: span_file_only(a.name_span), ty: ty_without_offsets(a.ty) }
}

pub open spec fn member_without_offsets(a: DiskStructMemberView) -> DiskStructMemberView {
    DiskStructMemberView { name: a.name, name_span: span_file_only(a.name_span), ty: ty_without_offsets(a.ty) }
}

/// A body with what the SVH leaves out dropped: span offsets, the source
/// text of the definition and where it stands, and where a native type's
/// code stands.
pub open spec fn body_without_layout(b: SymbolBodyView) -> SymbolBodyView {
    match b {
        SymbolBodyView::Mod(d) => SymbolBodyView::Mod(
            super::format::DiskModDataView { name: d.name, name_span: span_file_only(d.name_span), children: d.children },
        ),
        SymbolBodyView::Struct(d) => SymbolBodyView::Struct(
            super::format::DiskStructDataView {
                name: d.name,
                name_span: span_file_only(d.name_span),
                def_raw_code: DiskStringOffset(0),
                def_span: no_span(),
                genargs: d.genargs.map_values(|g: DiskGenArg| genarg_without_offsets(g)),
                members: d.members.map_values(|x: DiskStructMemberView| member_without_offsets(x)),
                assoc_symbols: d.assoc_symbols,
            },
        ),
        SymbolBodyView::NativeTypeAlias(d) => SymbolBodyView::NativeTypeAlias(
            super::format::DiskNativeTypeAliasDataView {
                name: d.name,
                name_span: span_file_only(d.name_span),
                native: d.native,
                native_span: no_span(),
                genargs: d.genargs.map_values(|g: DiskGenArg| genarg_without_offsets(g)),
                assoc_symbols: d.assoc_symbols,
            },
        ),
        SymbolBodyView::Fn(d) => SymbolBodyView::Fn(
            super::format::DiskFnDataView {
                name: d.name,
                name_span: span_file_only(d.name_span),
                def_raw_code: DiskStringOffset(0),
                def_span: no_span(),
                genargs: d.genargs.map_values(|g: DiskGenArg| genarg_without_offsets(g)),
                args: d.args.map_values(|a: DiskArgView| arg_without_offsets(a)),
                rty: ty_without_offsets(d.rty),
                impl_self_ty: tys_without_offsets(d.impl_self_ty),
            },
        ),
    }
}

/// Two metadata that read names, files and external symbols alike.
pub open spec fn same_tables(m1: DepMetadataView, m2: DepMetadataView) -> bool {
    &&& m1.strings == m2.strings
    &&& m1.source_files == m2.source_files
    &&& m1.ext_syms == m2.ext_syms
}

proof fn lemma_ty_piece(m1: DepMetadataView, m2: DepMetadataView, v: DiskTyView)
    requires
        same_tables(m1, m2),
    ensures
        ty_piece(m1, v) == ty_piece(m2, ty_without_offsets(v)),
    decreases v, 1nat,
{
    lemma_tys_piece(m1, m2, v.genargs);
    lemma_tys_len(v.genargs);
    assert(ty_ref_piece(m1, v.hdr) == ty_ref_piece(m2, ty_without_offsets(v).hdr));
}

proof fn lemma_tys_len(gs: Seq<DiskTyView>)
    ensures
        tys_without_offsets(gs).len() == gs.len(),
    decreases gs.len(),
{
    if gs.len() > 0 {
        lemma_tys_len(gs.subrange(0, gs.len() - 1));
    }
}

proof fn lemma_tys_piece(m1: DepMetadataView, m2: DepMetadataView, gs: Seq<DiskTyView>)
    requires
        same_tables(m1, m2),
    ensures
        tys_piece(m1, gs) == tys_piece(m2, tys_without_offsets(gs)),
    decreases gs, 0nat,
{
    if gs.len() > 0 {
        let init = gs.subrange(0, gs.len() - 1);
        lemma_tys_piece(m1, m2, init);
        lemma_ty_piece(m1, m2, gs[gs.len() - 1]);
        lemma_tys_len(init);
        let w = tys_without_offsets(gs);
        assert(w.subrange(0, w.len() - 1) =~= tys_without_offsets(init));
        assert(w[w.len() - 1] == ty_without_offsets(gs[gs.len() - 1]));
    }
}

proof fn lemma_genarg_names(m1: DepMetadataView, m2: DepMetadataView, gs: Seq<DiskGenArg>)
    requires
        same_tables(m1, m2),
    ensures
        genarg_names_piece(m1, gs) == genarg_names_piece(m2, gs.map_values(|g: DiskGenArg| genarg_without_offsets(g))),
    decreases gs.len(),
{
    let f = |g: DiskGenArg| genarg_without_offsets(g);
    if gs.len() > 0 {
        lemma_genarg_names(m1, m2, gs.drop_last());
        assert(gs.map_values(f).drop_last() =~= gs.drop_last().map_values(f));
    } else {
        assert(gs.map_values(f) =~= Seq::<DiskGenArg>::empty());
    }
}

/// A name with its type, the type's offsets dropped.
pub open spec fn pair_without_offsets(p: (Seq<char>, DiskTyView)) -> (Seq<char>, DiskTyView) {
    (p.0, ty_without_offsets(p.1))
}

proof fn lemma_named_tys(m1: DepMetadataView, m2: DepMetadataView, ps: Seq<(Seq<char>, DiskTyView)>)
    requires
        same_tables(m1, m2),
    ensures
        named_tys_piece(m1, ps) == named_tys_piece(m2, ps.map_values(|p: (Seq<char>, DiskTyView)| pair_without_offsets(p))),
    decreases ps.len(),
{
    let f = |p: (Seq<char>, DiskTyView)| pair_without_offsets(p);
    if ps.len() > 0 {
        lemma_named_tys(m1, m2, ps.drop_last());
        lemma_ty_piece(m1, m2, ps.last().1);
        assert(ps.map_values(f).drop_last() =~= ps.drop_last().map_values(f));
    } else {
        assert(ps.map_values(f) =~= Seq::<(Seq<char>, DiskTyView)>::empty());
    }
}

proof fn lemma_insert_by_name_map(s: Seq<(Seq<char>, DiskTyView)>, x: (Seq<char>, DiskTyView))
    ensures
        insert_by_name(s, x).map_values(|p: (Seq<char>, DiskTyView)| pair_without_offsets(p))
            == insert_by_name(s.map_values(|p: (Seq<char>, DiskTyView)| pair_without_offsets(p)), pair_without_offsets(x)),
    decreases s.len(),
{
    let f = |p: (Seq<char>, DiskTyView)| pair_without_offsets(p);
    if s.len() == 0 {
        assert(s.map_values(f) =~= Seq::<(Seq<char>, DiskTyView)>::empty());
        assert(seq![x].map_values(f) =~= seq![pair_without_offsets(x)]);
    } else {
        let sm = s.map_values(f);
        assert(sm.last() == pair_without_offsets(s.last()));
        assert(sm.drop_last() =~= s.drop_last().map_values(f));
        if crate::sort::lex_le(s.last().0, x.0) {
            assert(s.push(x).map_values(f) =~= sm.push(pair_without_offsets(x)));
        } else {
            lemma_insert_by_name_map(s.drop_last(), x);
            let r = insert_by_name(s.drop_last(), x);
            assert(r.push(s.last()).map_values(f) =~= r.map_values(f).push(pair_without_offsets(s.last())));
        }
    }
}

proof fn lemma_sort_by_name_map(s: Seq<(Seq<char>, DiskTyView)>)
    ensures
        sort_by_name(s).map_values(|p: (Seq<char>, DiskTyView)| pair_without_offsets(p))
            == sort_by_name(s.map_values(|p: (Seq<char>, DiskTyView)| pair_without_offsets(p))),
    decreases s.len(),
{
    let f = |p: (Seq<char>, DiskTyView)| pair_without_offsets(p);
    if s.len() == 0 {
        assert(s.map_values(f) =~= Seq::<(Seq<char>, DiskTyView)>::empty());
        assert(sort_by_name(s).map_values(f) =~= Seq::<(Seq<char>, DiskTyView)>::empty());
    } else {
        lemma_sort_by_name_map(s.drop_last());
        lemma_insert_by_name_map(sort_by_name(s.drop_last()), s.last());
        let sm = s.map_values(f);
        assert(sm.drop_last() =~= s.drop_last().map_values(f));
        assert(sm.last() == pair_without_offsets(s.last()));
    }
}

/// What a body contributes to the SVH does not change when its span
/// offsets and its source text are dropped, nor when it is read against
/// another metadata with the same strings, files and external symbols.
pub proof fn lemma_body_piece_ignores_layout(m1: DepMetadataView, m2: DepMetadataView, b: SymbolBodyView)
    requires
        same_tables(m1, m2),
    ensures
        body_piece(m1, b) == body_piece(m2, body_without_layout(b)),
{
    match b {
        SymbolBodyView::Mod(d) => {},
        SymbolBodyView::Struct(d) => {
            lemma_genarg_names(m1, m2, d.genargs);
            let ps = member_pairs(m1, d.members);
            let f = |p: (Seq<char>, DiskTyView)| pair_without_offsets(p);
            let mw = d.members.map_values(|x: DiskStructMemberView| member_without_offsets(x));
            assert(member_pairs(m2, mw) =~= ps.map_values(f));
            lemma_sort_by_name_map(ps);
            lemma_named_tys(m1, m2, sort_by_name(ps));
        },
        SymbolBodyView::NativeTypeAlias(d) => {
            lemma_genarg_names(m1, m2, d.genargs);
        },
        SymbolBodyView::Fn(d) => {
            lemma_genarg_names(m1, m2, d.genargs);
            let ps = arg_pairs(m1, d.args);
            let f = |p: (Seq<char>, DiskTyView)| pair_without_offsets(p);
            let aw = d.args.map_values(|a: DiskArgView| arg_without_offsets(a));
            assert(arg_pairs(m2, aw) =~= ps.map_values(f));
            lemma_named_tys(m1, m2, ps);
            lemma_ty_piece(m1, m2, d.rty);
            lemma_tys_piece(m1, m2, d.impl_self_ty);
            lemma_tys_len(d.impl_self_ty);
        },
    }
}

/// The symbols of `m1` and `m2` agree but for what the SVH leaves out.
pub open spec fn same_interface_symbols(m1: DepMetadataView, m2: DepMetadataView) -> bool {
    &&& m1.sym_hdrs.len() == m2.sym_hdrs.len()
    &&& forall|i: int| 0 <= i < m1.sym_hdrs.len() ==> match (#[trigger] symbol_body_at(m1, i), symbol_body_at(m2, i)) {
        (Ok(b1), Ok(b2)) => body_without_layout(b1) == body_without_layout(b2),
        (Err(_), Err(_)) => true,
        _ => false,
    }
}

proof fn lemma_symbols_piece(m1: DepMetadataView, m2: DepMetadataView, n: nat)
    requires
        same_tables(m1, m2),
        same_interface_symbols(m1, m2),
        n <= m1.sym_hdrs.len(),
    ensures
        symbols_piece(m1, n) == symbols_piece(m2, n),
    decreases n,
{
    if n > 0 {
        lemma_symbols_piece(m1, m2, (n - 1) as nat);
        let i = n - 1;
        match (symbol_body_at(m1, i), symbol_body_at(m2, i)) {
            (Ok(b1), Ok(b2)) => {
                lemma_body_piece_ignores_layout(m1, m2, b1);
                lemma_body_piece_ignores_layout(m2, m2, b2);
            },
            _ => {},
        }
        assert(symbol_piece(m1, i) == symbol_piece(m2, i));
    }
}

/// Span offsets, the source text of definitions, and the recorded SVHs do
/// not go into the SVH: two metadata that agree on everything else hash
/// the same.
pub proof fn lemma_svh_ignores_layout(m1: DepMetadataView, m2: DepMetadataView)
    requires
        same_tables(m1, m2),
        same_interface_symbols(m1, m2),
        m1.root_sym_idx == m2.root_sym_idx,
        m1.lang_items == m2.lang_items,
    ensures
        svh_stream(m1) == svh_stream(m2),
{
    let s1 = svh_source(m1);
    let s2 = svh_source(m2);
    assert forall|i: int| 0 <= i < s1.sym_hdrs.len() implies match (#[trigger] symbol_body_at(s1, i), symbol_body_at(s2, i)) {
        (Ok(b1), Ok(b2)) => body_without_layout(b1) == body_without_layout(b2),
        (Err(_), Err(_)) => true,
        _ => false,
    } by {
        assert(symbol_body_at(s1, i) == symbol_body_at(m1, i));
        assert(symbol_body_at(s2, i) == symbol_body_at(m2, i));
    }
    lemma_symbols_piece(s1, s2, s1.sym_hdrs.len());
}

// --- equal once resolved ---
//
// Two metadata can lay their tables out differently: strings at other
// offsets, files and external symbols in another order. What a body means
// is what its offsets resolve to.

/// The strings at `o1` of `m1` and at `o2` of `m2` are the same text.
pub open spec fn same_text(m1: DepMetadataView, o1: DiskStringOffset, m2: DepMetadataView, o2: DiskStringOffset) -> bool {
    string_or_empty(m1.strings, o1.0) == string_or_empty(m2.strings, o2.0)
}

/// The two spans lie in files of the same name; their offsets do not count.
pub open spec fn same_place(m1: DepMetadataView, s1: DiskSpan, m2: DepMetadataView, s2: DiskSpan) -> bool {
    file_name_or_empty(m1, s1.file.0) == file_name_or_empty(m2, s2.file.0)
}

/// The two type headers are of the same kind and point at the same
/// symbol: an external symbol by the package and symbol it resolves to.
pub open spec fn same_ref(m1: DepMetadataView, h1: DiskTyHeader, m2: DepMetadataView, h2: DiskTyHeader) -> bool {
    &&& h1.kind == h2.kind
    &&& if h1.kind == 8 {
        ext_sym_at(m1, h1.sym_id.0) == ext_sym_at(m2, h2.sym_id.0)
    } else {
        h1.sym_id == h2.sym_id
    }
}

pub open spec fn same_ty(m1: DepMetadataView, v1: DiskTyView, m2: DepMetadataView, v2: DiskTyView) -> bool
    decreases v1, 1nat,
{
    same_ref(m1, v1.hdr, m2, v2.hdr) && same_tys(m1, v1.genargs, m2, v2.genargs)
}

pub open spec fn same_tys(m1: DepMetadataView, g1: Seq<DiskTyView>, m2: DepMetadataView, g2: Seq<DiskTyView>) -> bool
    decreases g1, 0nat,
{
    &&& g1.len() == g2.len()
    &&& (g1.len() == 0 || (same_tys(m1, g1.subrange(0, g1.len() - 1), m2, g2.subrange(0, g2.len() - 1))
        && same_ty(m1, g1[g1.len() - 1], m2, g2[g2.len() - 1])))
}

pub open spec fn same_genargs(m1: DepMetadataView, g1: Seq<DiskGenArg>, m2: DepMetadataView, g2: Seq<DiskGenArg>) -> bool {
    &&& g1.len() == g2.len()
    &&& forall|i: int| 0 <= i < g1.len() ==> same_text(m1, (#[trigger] g1[i]).name, m2, g2[i].name)
}

pub open spec fn same_args(m1: DepMetadataView, a1: Seq<DiskArgView>, m2: DepMetadataView, a2: Seq<DiskArgView>) -> bool {
    &&& a1.len() == a2.len()
    &&& forall|i: int| 0 <= i < a1.len() ==> same_text(m1, (#[trigger] a1[i]).name, m2, a2[i].name)
        && same_ty(m1, a1[i].ty, m2, a2[i].ty)
}

pub open spec fn same_members(m1: DepMetadataView, a1: Seq<DiskStructMemberView>, m2: DepMetadataView, a2: Seq<DiskStructMemberView>) -> bool {
    &&& a1.len() == a2.len()
    &&& forall|i: int| 0 <= i < a1.len() ==> same_text(m1, (#[trigger] a1[i]).name, m2, a2[i].name)
        && same_ty(m1, a1[i].ty, m2, a2[i].ty)
}

/// The two bodies declare the same thing once their offsets are resolved:
/// same names, files, members, signatures and symbols. Span offsets and
/// the source text of the definition do not count.
pub open spec fn same_interface(m1: DepMetadataView, b1: SymbolBodyView, m2: DepMetadataView, b2: SymbolBodyView) -> bool {
    match (b1, b2) {
        (SymbolBodyView::Mod(d1), SymbolBodyView::Mod(d2)) => {
            &&& same_text(m1, d1.name, m2, d2.name)
            &&& same_place(m1, d1.name_span, m2, d2.name_span)
            &&& d1.children == d2.children
        },
        (SymbolBodyView::Struct(d1), SymbolBodyView::Struct(d2)) => {
            &&& same_text(m1, d1.name, m2, d2.name)
            &&& same_place(m1, d1.name_span, m2, d2.name_span)
            &&& same_genargs(m1, d1.genargs, m2, d2.genargs)
            &&& same_members(m1, d1.members, m2, d2.members)
            &&& d1.assoc_symbols == d2.assoc_symbols
        },
        (SymbolBodyView::NativeTypeAlias(d1), SymbolBodyView::NativeTypeAlias(d2)) => {
            &&& same_text(m1, d1.name, m2, d2.name)
            &&& same_place(m1, d1.name_span, m2, d2.name_span)
            &&& same_text(m1, d1.native, m2, d2.native)
            &&& same_genargs(m1, d1.genargs, m2, d2.genargs)
            &&& d1.assoc_symbols == d2.assoc_symbols
        },
        (SymbolBodyView::Fn(d1), SymbolBodyView::Fn(d2)) => {
            &&& same_text(m1, d1.name, m2, d2.name)
            &&& same_place(m1, d1.name_span, m2, d2.name_span)
            &&& same_genargs(m1, d1.genargs, m2, d2.genargs)
            &&& same_args(m1, d1.args, m2, d2.args)
            &&& same_ty(m1, d1.rty, m2, d2.rty)
            &&& same_tys(m1, d1.impl_self_ty, m2, d2.impl_self_ty)
        },
        _ => false,
    }
}

proof fn lemma_same_ty_piece(m1: DepMetadataView, v1: DiskTyView, m2: DepMetadataView, v2: DiskTyView)
    requires
        same_ty(m1, v1, m2, v2),
    ensures
        ty_piece(m1, v1) == ty_piece(m2, v2),
    decreases v1, 1nat,
{
    lemma_same_tys_piece(m1, v1.genargs, m2, v2.genargs);
    assert(ty_ref_piece(m1, v1.hdr) == ty_ref_piece(m2, v2.hdr));
}

proof fn lemma_same_tys_piece(m1: DepMetadataView, g1: Seq<DiskTyView>, m2: DepMetadataView, g2: Seq<DiskTyView>)
    requires
        same_tys(m1, g1, m2, g2),
    ensures
        tys_piece(m1, g1) == tys_piece(m2, g2),
    decreases g1, 0nat,
{
    if g1.len() > 0 {
        lemma_same_tys_piece(m1, g1.subrange(0, g1.len() - 1), m2, g2.subrange(0, g2.len() - 1));
        lemma_same_ty_piece(m1, g1[g1.len() - 1], m2, g2[g2.len() - 1]);
    }
}

proof fn lemma_same_genarg_names(m1: DepMetadataView, g1: Seq<DiskGenArg>, m2: DepMetadataView, g2: Seq<DiskGenArg>)
    requires
        same_genargs(m1, g1, m2, g2),
    ensures
        genarg_names_piece(m1, g1) == genarg_names_piece(m2, g2),
    decreases g1.len(),
{
    if g1.len() > 0 {
        let d1 = g1.drop_last();
        let d2 = g2.drop_last();
        assert forall|i: int| 0 <= i < d1.len() implies same_text(m1, (#[trigger] d1[i]).name, m2, d2[i].name) by {
            assert(d1[i] == g1[i] && d2[i] == g2[i]);
            assert(same_text(m1, g1[i].name, m2, g2[i].name));
        }
        lemma_same_genarg_names(m1, d1, m2, d2);
        assert(same_text(m1, g1[g1.len() - 1].name, m2, g2[g2.len() - 1].name));
    }
}

/// Two lists of named types alike: the same names, types the same once
/// resolved.
pub open spec fn pairs_alike(m1: DepMetadataView, p1: Seq<(Seq<char>, DiskTyView)>, m2: DepMetadataView, p2: Seq<(Seq<char>, DiskTyView)>) -> bool {
    &&& p1.len() == p2.len()
    &&& forall|i: int| 0 <= i < p1.len() ==> (#[trigger] p1[i]).0 == p2[i].0 && same_ty(m1, p1[i].1, m2, p2[i].1)
}

proof fn lemma_named_tys_alike(m1: DepMetadataView, p1: Seq<(Seq<char>, DiskTyView)>, m2: DepMetadataView, p2: Seq<(Seq<char>, DiskTyView)>)
    requires
        pairs_alike(m1, p1, m2, p2),
    ensures
        named_tys_piece(m1, p1) == named_tys_piece(m2, p2),
    decreases p1.len(),
{
    if p1.len() > 0 {
        let d1 = p1.drop_last();
        let d2 = p2.drop_last();
        assert forall|i: int| 0 <= i < d1.len() implies (#[trigger] d1[i]).0 == d2[i].0 && same_ty(m1, d1[i].1, m2, d2[i].1) by {
            assert(d1[i] == p1[i] && d2[i] == p2[i]);
        }
        lemma_named_tys_alike(m1, d1, m2, d2);
        assert(p1[p1.len() - 1].0 == p2[p2.len() - 1].0);
        lemma_same_ty_piece(m1, p1.last().1, m2, p2.last().1);
    }
}

proof fn lemma_insert_alike(
    m1: DepMetadataView,
    s1: Seq<(Seq<char>, DiskTyView)>,
    x1: (Seq<char>, DiskTyView),
    m2: DepMetadataView,
    s2: Seq<(Seq<char>, DiskTyView)>,
    x2: (Seq<char>, DiskTyView),
)
    requires
        pairs_alike(m1, s1, m2, s2),
        x1.0 == x2.0,
        same_ty(m1, x1.1, m2, x2.1),
    ensures
        pairs_alike(m1, insert_by_name(s1, x1), m2, insert_by_name(s2, x2)),
    decreases s1.len(),
{
    if s1.len() == 0 {
        assert(insert_by_name(s1, x1) =~= seq![x1]);
        assert(insert_by_name(s2, x2) =~= seq![x2]);
    } else {
        assert(s1.last().0 == s2.last().0) by {
            assert(s1[s1.len() - 1].0 == s2[s2.len() - 1].0);
        }
        if crate::sort::lex_le(s1.last().0, x1.0) {
            let r1 = s1.push(x1);
            let r2 = s2.push(x2);
            assert forall|i: int| 0 <= i < r1.len() implies (#[trigger] r1[i]).0 == r2[i].0 && same_ty(m1, r1[i].1, m2, r2[i].1) by {
                if i < s1.len() {
                    assert(r1[i] == s1[i] && r2[i] == s2[i]);
                }
            }
        } else {
            let d1 = s1.drop_last();
            let d2 = s2.drop_last();
            assert forall|i: int| 0 <= i < d1.len() implies (#[trigger] d1[i]).0 == d2[i].0 && same_ty(m1, d1[i].1, m2, d2[i].1) by {
                assert(d1[i] == s1[i] && d2[i] == s2[i]);
            }
            lemma_insert_alike(m1, d1, x1, m2, d2, x2);
            let i1 = insert_by_name(d1, x1);
            let i2 = insert_by_name(d2, x2);
            let r1 = i1.push(s1.last());
            let r2 = i2.push(s2.last());
            assert(s1[s1.len() - 1] == s1.last());
            assert forall|i: int| 0 <= i < r1.len() implies (#[trigger] r1[i]).0 == r2[i].0 && same_ty(m1, r1[i].1, m2, r2[i].1) by {
                if i < i1.len() {
                    assert(r1[i] == i1[i] && r2[i] == i2[i]);
                } else {
                    assert(r1[i] == s1[s1.len() - 1] && r2[i] == s2[s2.len() - 1]);
                }
            }
        }
    }
}

proof fn lemma_sort_alike(m1: DepMetadataView, p1: Seq<(Seq<char>, DiskTyView)>, m2: DepMetadataView, p2: Seq<(Seq<char>, DiskTyView)>)
    requires
        pairs_alike(m1, p1, m2, p2),
    ensures
        pairs_alike(m1, sort_by_name(p1), m2, sort_by_name(p2)),
    decreases p1.len(),
{
    if p1.len() > 0 {
        let d1 = p1.drop_last();
        let d2 = p2.drop_last();
        assert forall|i: int| 0 <= i < d1.len() implies (#[trigger] d1[i]).0 == d2[i].0 && same_ty(m1, d1[i].1, m2, d2[i].1) by {
            assert(d1[i] == p1[i] && d2[i] == p2[i]);
        }
        lemma_sort_alike(m1, d1, m2, d2);
        assert(p1[p1.len() - 1].0 == p2[p2.len() - 1].0);
        lemma_insert_alike(m1, sort_by_name(d1), p1.last(), m2, sort_by_name(d2), p2.last());
    } else {
        assert(sort_by_name(p1) =~= Seq::<(Seq<char>, DiskTyView)>::empty());
        assert(sort_by_name(p2) =~= Seq::<(Seq<char>, DiskTyView)>::empty());
    }
}

/// Two bodies that declare the same thing once their offsets are resolved
/// contribute the same to the SVH, whatever the layout of their tables.
pub proof fn lemma_body_piece_same_interface(m1: DepMetadataView, b1: SymbolBodyView, m2: DepMetadataView, b2: SymbolBodyView)
    requires
        same_interface(m1, b1, m2, b2),
    ensures
        body_piece(m1, b1) == body_piece(m2, b2),
{
    match (b1, b2) {
        (SymbolBodyView::Mod(d1), SymbolBodyView::Mod(d2)) => {},
        (SymbolBodyView::Struct(d1), SymbolBodyView::Struct(d2)) => {
            lemma_same_genarg_names(m1, d1.genargs, m2, d2.genargs);
            let p1 = member_pairs(m1, d1.members);
            let p2 = member_pairs(m2, d2.members);
            assert forall|i: int| 0 <= i < p1.len() implies (#[trigger] p1[i]).0 == p2[i].0 && same_ty(m1, p1[i].1, m2, p2[i].1) by {
                assert(same_text(m1, d1.members[i].name, m2, d2.members[i].name));
            }
            lemma_sort_alike(m1, p1, m2, p2);
            lemma_named_tys_alike(m1, sort_by_name(p1), m2, sort_by_name(p2));
        },
        (SymbolBodyView::NativeTypeAlias(d1), SymbolBodyView::NativeTypeAlias(d2)) => {
            lemma_same_genarg_names(m1, d1.genargs, m2, d2.genargs);
        },
        (SymbolBodyView::Fn(d1), SymbolBodyView::Fn(d2)) => {
            lemma_same_genarg_names(m1, d1.genargs, m2, d2.genargs);
            let p1 = arg_pairs(m1, d1.args);
            let p2 = arg_pairs(m2, d2.args);
            assert forall|i: int| 0 <= i < p1.len() implies (#[trigger] p1[i]).0 == p2[i].0 && same_ty(m1, p1[i].1, m2, p2[i].1) by {
                assert(same_text(m1, d1.args[i].name, m2, d2.args[i].name));
            }
            lemma_named_tys_alike(m1, p1, m2, p2);
            lemma_same_ty_piece(m1, d1.rty, m2, d2.rty);
            lemma_same_tys_piece(m1, d1.impl_self_ty, m2, d2.impl_self_ty);
        },
        _ => {},
    }
}

/// The symbols of `m1` and `m2` declare the same things, symbol by symbol,
/// once offsets are resolved.
pub open spec fn same_interface_all(m1: DepMetadataView, m2: DepMetadataView) -> bool {
    &&& m1.sym_hdrs.len() == m2.sym_hdrs.len()
    &&& forall|i: int| 0 <= i < m1.sym_hdrs.len() ==> match (#[trigger] symbol_body_at(m1, i), symbol_body_at(m2, i)) {
        (Ok(b1), Ok(b2)) => same_interface(m1, b1, m2, b2),
        (Err(_), Err(_)) => true,
        _ => false,
    }
}

proof fn lemma_symbols_same_interface(m1: DepMetadataView, m2: DepMetadataView, n: nat)
    requires
        same_interface_all(m1, m2),
        n <= m1.sym_hdrs.len(),
    ensures
        symbols_piece(svh_source(m1), n) == symbols_piece(svh_source(m2), n),
    decreases n,
{
    if n > 0 {
        lemma_symbols_same_interface(m1, m2, (n - 1) as nat);
        let i = n - 1;
        let s1 = svh_source(m1);
        let s2 = svh_source(m2);
        assert(symbol_body_at(s1, i) == symbol_body_at(m1, i));
        assert(symbol_body_at(s2, i) == symbol_body_at(m2, i));
        match (symbol_body_at(m1, i), symbol_body_at(m2, i)) {
            (Ok(b1), Ok(b2)) => {
                lemma_body_piece_same_interface(m1, b1, m2, b2);
                lemma_body_piece_ignores_layout(s1, m1, b1);
                lemma_body_piece_ignores_layout(m1, m1, b1);
                lemma_body_piece_ignores_layout(s2, m2, b2);
                lemma_body_piece_ignores_layout(m2, m2, b2);
            },
            _ => {},
        }
        assert(symbol_piece(s1, i) == symbol_piece(s2, i));
    }
}

/// The SVH is of the interface only: spans, the source text of definitions
/// (so comments and blank lines), the layout of the string, file and
/// external symbol tables, and the recorded SVHs do not go into it. Two
/// metadata whose symbols declare the same things once offsets are
/// resolved to their strings, file names and external symbols, with the
/// same root and lang items, have the same SVH.
pub proof fn lemma_svh_of_interface(m1: DepMetadataView, m2: DepMetadataView)
    requires
        same_interface_all(m1, m2),
        m1.root_sym_idx == m2.root_sym_idx,
        m1.lang_items == m2.lang_items,
    ensures
        svh_stream(m1) == svh_stream(m2),
{
    lemma_symbols_same_interface(m1, m2, m1.sym_hdrs.len());
}

} // verus!
