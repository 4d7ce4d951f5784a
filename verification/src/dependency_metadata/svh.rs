//! The Strict Version Hash (SVH): the hash of a package's **interface**.
//!
//! It is what incremental builds turn on: when a package's SVH is the same
//! as last time, the packages that depend on it need no rebuild.
//!
//! It holds the order, kind, name, module, signature, members and native
//! body of every symbol, the lang items, and the **symbol indices**: other
//! packages refer to a symbol by `(PackageId, symbol index)`, so when the
//! numbering shifts they must be rebuilt, and when numbering, names and
//! signatures are all unchanged they are not affected at all.
//!
//! It leaves out span offsets and `def_raw_code` (adding a comment or a
//! blank line must not ripple to dependents), string table offsets (the
//! strings themselves go in), and the dependency SVH table (with it, a
//! rebuilt std would always ripple, even when none of the std symbols this
//! package uses moved). The file name of a symbol's module goes in, being
//! part of mangled names.

use vstd::prelude::*;
use vstd::utf8::encode_utf8;
use crate::hash::{Hash64, StableHasher64, fnv_fold, stream_hash, length_prefixed, FNV_OFFSET_BASIS,
    lemma_fnv_fold_concat};
use crate::le_bytes::{u32_le, u64_le};
use crate::sort::{lex_le, str_le};
use crate::text::string_of_str;
use super::{DepMetadata, DepMetadataView, symbol_body_at, ext_sym_at};
use super::body::{SymbolBody, SymbolBodyView};
use super::format::{BIWAC_DEPENDENCY_METADATA_FORMAT_VERSION, DiskArgView, DiskGenArg,
    DiskStringOffset, DiskSpan, DiskStructMember, DiskStructMemberView, DiskSymbolIndex, DiskTy,
    DiskTyHeader, DiskTyView, DiskArg, tys_view};
use super::codec::{DiskVec, lemma_plain_views};
use super::lang_item::DiskLangItem;
use super::table::{string_or_empty, file_at, string_at};

verus! {

/// What `write_str` feeds for a text.
pub open spec fn str_piece(t: Seq<char>) -> Seq<u8> {
    length_prefixed(encode_utf8(t))
}

/// The file name of source file `idx`, or the empty text where it cannot
/// be read.
pub open spec fn file_name_or_empty(m: DepMetadataView, idx: u32) -> Seq<char> {
    match file_at(m.source_files, idx) {
        Ok(f) => string_or_empty(m.strings, f.file_path.0),
        Err(_) => Seq::empty(),
    }
}

/// A symbol's name and the file name of its module. Span offsets are left
/// out.
pub open spec fn name_piece(m: DepMetadataView, name: DiskStringOffset, span: DiskSpan) -> Seq<u8> {
    str_piece(string_or_empty(m.strings, name.0)) + str_piece(file_name_or_empty(m, span.file.0))
}

pub open spec fn genarg_names_piece(m: DepMetadataView, gs: Seq<DiskGenArg>) -> Seq<u8>
    decreases gs.len(),
{
    if gs.len() == 0 {
        Seq::empty()
    } else {
        genarg_names_piece(m, gs.drop_last()) + str_piece(string_or_empty(m.strings, gs.last().name.0))
    }
}

/// The number of generic parameters, then their names.
pub open spec fn genargs_piece(m: DepMetadataView, gs: Seq<DiskGenArg>) -> Seq<u8> {
    u64_le(gs.len() as u64) + genarg_names_piece(m, gs)
}

/// What a type reference points at. An external symbol is resolved first,
/// so the order of the external symbol table does not matter; the other
/// kinds mix their number in as it is.
pub open spec fn ty_ref_piece(m: DepMetadataView, hdr: DiskTyHeader) -> Seq<u8> {
    if hdr.kind == 8 {
        match ext_sym_at(m, hdr.sym_id.0) {
            Some((pkg, sym)) => u32_le(pkg) + u32_le(sym),
            None => str_piece("<unresolved-external>"@),
        }
    } else {
        u32_le(hdr.sym_id.0)
    }
}

pub open spec fn ty_piece(m: DepMetadataView, v: DiskTyView) -> Seq<u8>
    decreases v, 1nat,
{
    u32_le(v.hdr.kind) + ty_ref_piece(m, v.hdr) + u64_le(v.genargs.len() as u64) + tys_piece(
        m,
        v.genargs,
    )
}

pub open spec fn tys_piece(m: DepMetadataView, gs: Seq<DiskTyView>) -> Seq<u8>
    decreases gs, 0nat,
{
    if gs.len() == 0 {
        Seq::empty()
    } else {
        tys_piece(m, gs.subrange(0, gs.len() - 1)) + ty_piece(m, gs[gs.len() - 1])
    }
}

/// Names with their types, one after the other.
pub open spec fn named_tys_piece(m: DepMetadataView, ps: Seq<(Seq<char>, DiskTyView)>) -> Seq<u8>
    decreases ps.len(),
{
    if ps.len() == 0 {
        Seq::empty()
    } else {
        named_tys_piece(m, ps.drop_last()) + str_piece(ps.last().0) + ty_piece(m, ps.last().1)
    }
}

pub open spec fn u32s_piece(xs: Seq<DiskSymbolIndex>) -> Seq<u8>
    decreases xs.len(),
{
    if xs.len() == 0 {
        Seq::empty()
    } else {
        u32s_piece(xs.drop_last()) + u32_le(xs.last().0)
    }
}

/// The number of symbol indices, then each.
pub open spec fn indices_piece(xs: Seq<DiskSymbolIndex>) -> Seq<u8> {
    u64_le(xs.len() as u64) + u32s_piece(xs)
}

pub open spec fn arg_pairs(m: DepMetadataView, args: Seq<DiskArgView>) -> Seq<(Seq<char>, DiskTyView)> {
    args.map_values(|a: DiskArgView| (string_or_empty(m.strings, a.name.0), a.ty))
}

pub open spec fn member_pairs(m: DepMetadataView, ms: Seq<DiskStructMemberView>) -> Seq<(Seq<char>, DiskTyView)> {
    ms.map_values(|a: DiskStructMemberView| (string_or_empty(m.strings, a.name.0), a.ty))
}

/// Inserts `x` right after the last pair whose name is not greater.
pub open spec fn insert_by_name(s: Seq<(Seq<char>, DiskTyView)>, x: (Seq<char>, DiskTyView)) -> Seq<
    (Seq<char>, DiskTyView),
>
    decreases s.len(),
{
    if s.len() == 0 {
        seq![x]
    } else if lex_le(s.last().0, x.0) {
        s.push(x)
    } else {
        insert_by_name(s.drop_last(), x).push(s.last())
    }
}

/// A stable sort by name.
pub open spec fn sort_by_name(s: Seq<(Seq<char>, DiskTyView)>) -> Seq<(Seq<char>, DiskTyView)>
    decreases s.len(),
{
    if s.len() == 0 {
        Seq::empty()
    } else {
        insert_by_name(sort_by_name(s.drop_last()), s.last())
    }
}

/// What a symbol body contributes. Struct members go in by name (the hash
/// is of meaning, not of layout); the order of everything else is kept.
pub open spec fn body_piece(m: DepMetadataView, b: SymbolBodyView) -> Seq<u8> {
    match b {
        SymbolBodyView::Mod(d) => str_piece("mod"@) + name_piece(m, d.name, d.name_span)
            + indices_piece(d.children),
        SymbolBodyView::Struct(d) => str_piece("struct"@) + name_piece(m, d.name, d.name_span)
            + genargs_piece(m, d.genargs) + u64_le(d.members.len() as u64) + named_tys_piece(
            m,
            sort_by_name(member_pairs(m, d.members)),
        ) + indices_piece(d.assoc_symbols),
        SymbolBodyView::NativeTypeAlias(d) => str_piece("native-type-alias"@) + name_piece(
            m,
            d.name,
            d.name_span,
        ) + str_piece(string_or_empty(m.strings, d.native.0)) + genargs_piece(m, d.genargs)
            + indices_piece(d.assoc_symbols),
        SymbolBodyView::Fn(d) => str_piece("fn"@) + name_piece(m, d.name, d.name_span)
            + genargs_piece(m, d.genargs) + u64_le(d.args.len() as u64) + named_tys_piece(
            m,
            arg_pairs(m, d.args),
        ) + ty_piece(m, d.rty) + u64_le(d.impl_self_ty.len() as u64) + tys_piece(
            m,
            d.impl_self_ty,
        ),
    }
}

/// What symbol `i` contributes: its index, then its body, or a marker when
/// the body cannot be decoded (so that it differs from any sound one).
pub open spec fn symbol_piece(m: DepMetadataView, i: int) -> Seq<u8> {
    u64_le(i as u64) + match symbol_body_at(m, i) {
        Ok(b) => body_piece(m, b),
        Err(_) => str_piece("<undecodable>"@),
    }
}

pub open spec fn symbols_piece(m: DepMetadataView, n: nat) -> Seq<u8>
    decreases n,
{
    if n == 0 {
        Seq::empty()
    } else {
        symbols_piece(m, (n - 1) as nat) + symbol_piece(m, n - 1)
    }
}

pub open spec fn lang_items_piece(lis: Seq<DiskLangItem>) -> Seq<u8>
    decreases lis.len(),
{
    if lis.len() == 0 {
        Seq::empty()
    } else {
        lang_items_piece(lis.drop_last()) + u32_le(lis.last().lang_item) + u32_le(
            lis.last().sym_idx.0,
        )
    }
}

/// What the SVH is computed from: the metadata without the SVH itself and
/// without the dependencies' SVHs.
pub open spec fn svh_source(m: DepMetadataView) -> DepMetadataView {
    DepMetadataView { svh: 0, dep_svhs: Seq::empty(), ..m }
}

/// The SVH does not read the hashes a metadata records: two metadata that
/// differ only in their own SVH and their dependencies' SVHs have the same
/// SVH.
pub proof fn lemma_svh_ignores_recorded_hashes(m1: DepMetadataView, m2: DepMetadataView)
    requires
        m1.sym_hdrs == m2.sym_hdrs,
        m1.sym_bodies == m2.sym_bodies,
        m1.source_files == m2.source_files,
        m1.strings == m2.strings,
        m1.root_sym_idx == m2.root_sym_idx,
        m1.lang_items == m2.lang_items,
        m1.ext_syms == m2.ext_syms,
    ensures
        svh_stream(m1) == svh_stream(m2),
{
    assert(svh_source(m1) == svh_source(m2));
}

/// Everything the SVH hashes, in order.
pub open spec fn svh_stream(m: DepMetadataView) -> Seq<u8> {
    let m = svh_source(m);
    str_piece("biwameta-svh"@) + u32_le(BIWAC_DEPENDENCY_METADATA_FORMAT_VERSION) + u32_le(
        m.root_sym_idx,
    ) + u64_le(m.sym_hdrs.len() as u64) + symbols_piece(m, m.sym_hdrs.len()) + str_piece(
        "lang-items"@,
    ) + u64_le(m.lang_items.len() as u64) + lang_items_piece(m.lang_items)
}

/// Names with the types they stand beside, as plain values.
pub open spec fn pair_views(v: Seq<(String, &DiskTy)>) -> Seq<(Seq<char>, DiskTyView)> {
    v.map_values(|p: (String, &DiskTy)| (p.0@, p.1@))
}

proof fn lemma_insert_by_name_at(s: Seq<(Seq<char>, DiskTyView)>, x: (Seq<char>, DiskTyView), j: int)
    requires
        0 <= j <= s.len(),
        forall|k: int| j <= k < s.len() ==> !lex_le(#[trigger] s[k].0, x.0),
        j == 0 || lex_le(s[j - 1].0, x.0),
    ensures
        insert_by_name(s, x) == s.insert(j, x),
    decreases s.len(),
{
    if s.len() == 0 {
        assert(s.insert(j, x) =~= seq![x]);
    } else if j == s.len() {
        assert(s.insert(j, x) =~= s.push(x));
    } else {
        assert(!lex_le(s[s.len() - 1].0, x.0));
        let t = s.drop_last();
        assert forall|k: int| j <= k < t.len() implies !lex_le(#[trigger] t[k].0, x.0) by {
            assert(t[k] == s[k]);
        }
        lemma_insert_by_name_at(t, x, j);
        assert(t.insert(j, x).push(s.last()) =~= s.insert(j, x));
    }
}

/// Sorts names with their types by name, keeping the order of equal names.
fn sort_pairs<'a>(v: Vec<(String, &'a DiskTy)>) -> (r: Vec<(String, &'a DiskTy)>)
    ensures
        pair_views(r@) == sort_by_name(pair_views(v@)),
{
    let ghost sv = pair_views(v@);
    let mut out: Vec<(String, &'a DiskTy)> = Vec::new();
    let n = v.len();
    let mut i: usize = 0;
    assert(sv.take(0) =~= Seq::<(Seq<char>, DiskTyView)>::empty());
    assert(pair_views(out@) =~= Seq::<(Seq<char>, DiskTyView)>::empty());
    while i < n
        invariant
            n == v@.len(),
            i <= n,
            sv == pair_views(v@),
            pair_views(out@) == sort_by_name(sv.take(i as int)),
        decreases n - i,
    {
        let mut j: usize = out.len();
        while j > 0 && !str_le(out[j - 1].0.as_str(), v[i].0.as_str())
            invariant
                j <= out@.len(),
                i < v@.len(),
                forall|k: int| j <= k < out@.len() ==> !lex_le(#[trigger] pair_views(out@)[k].0, v@[i as int].0@),
            decreases j,
        {
            assert(pair_views(out@)[j - 1] == (out@[j - 1].0@, out@[j - 1].1@));
            j = j - 1;
        }
        let x = (v[i].0.clone(), v[i].1);
        proof {
            let so = pair_views(out@);
            if j > 0 {
                assert(so[j - 1] == (out@[j - 1].0@, out@[j - 1].1@));
            }
            assert(sv[i as int] == (x.0@, x.1@));
            lemma_insert_by_name_at(so, (x.0@, x.1@), j as int);
            let t = sv.take(i + 1);
            assert(t.drop_last() =~= sv.take(i as int));
            assert(t.last() == (x.0@, x.1@));
        }
        let ghost before = out@;
        out.insert(j, x);
        assert(pair_views(out@) =~= pair_views(before).insert(j as int, (x.0@, x.1@)));
        i = i + 1;
    }
    assert(sv.take(n as int) =~= sv);
    out
}

/// Viewing a `Vec<DiskTy>` element by element is viewing it as type
/// arguments.
proof fn lemma_tys_view_map(ts: Seq<DiskTy>)
    ensures
        tys_view(ts) == ts.map_values(|t: DiskTy| t@),
    decreases ts.len(),
{
    if ts.len() > 0 {
        let init = ts.subrange(0, ts.len() - 1);
        lemma_tys_view_map(init);
        assert(ts.map_values(|t: DiskTy| t@) =~= init.map_values(|t: DiskTy| t@).push(ts[ts.len() - 1]@));
    } else {
        assert(ts.map_values(|t: DiskTy| t@) =~= Seq::<DiskTyView>::empty());
    }
}

impl DepMetadata {
    /// The string at `offset`, or `""` where it cannot be read.
    pub(crate) fn str_or_empty(&self, offset: DiskStringOffset) -> (r: &str)
        ensures
            r@ == string_or_empty(svh_source(self@).strings, offset.0),
    {
        match self.get_str(offset) {
            Ok(s) => s,
            Err(_) => {
                proof {
                    reveal_strlit("");
                }
                ""
            },
        }
    }

    /// Mixes in a symbol's name and the file name of its module.
    fn svh_name(&self, h: &mut StableHasher64, name: DiskStringOffset, span: &DiskSpan)
        ensures
            final(h).state == fnv_fold(old(h).state, name_piece(svh_source(self@), name, *span)),
    {
        h.write_str(self.str_or_empty(name));
        let ghost mid = h.state;
        let modu = match self.source_files.get(span.file.0) {
            Ok(f) => self.str_or_empty(f.file_path),
            Err(_) => {
                proof {
                    reveal_strlit("");
                }
                ""
            },
        };
        h.write_str(modu);
        proof {
            lemma_fnv_fold_concat(
                old(h).state,
                str_piece(string_or_empty(svh_source(self@).strings, name.0)),
                str_piece(file_name_or_empty(svh_source(self@), span.file.0)),
            );
        }
    }

    fn svh_genargs(&self, h: &mut StableHasher64, genargs: &[DiskGenArg])
        ensures
            final(h).state == fnv_fold(old(h).state, genargs_piece(svh_source(self@), genargs@)),
    {
        let ghost s0 = h.state;
        h.write_usize(genargs.len());
        let ghost head = u64_le(genargs@.len() as u64);
        let mut i: usize = 0;
        assert(genargs@.take(0) =~= Seq::<DiskGenArg>::empty());
        assert(head + genarg_names_piece(svh_source(self@), genargs@.take(0)) =~= head);
        while i < genargs.len()
            invariant
                i <= genargs@.len(),
                h.state == fnv_fold(s0, head + genarg_names_piece(svh_source(self@), genargs@.take(i as int))),
            decreases genargs@.len() - i,
        {
            let ghost acc = head + genarg_names_piece(svh_source(self@), genargs@.take(i as int));
            h.write_str(self.str_or_empty(genargs[i].name));
            proof {
                let t = genargs@.take(i + 1);
                assert(t.drop_last() =~= genargs@.take(i as int));
                assert(t.last() == genargs@[i as int]);
                let p = str_piece(string_or_empty(svh_source(self@).strings, genargs@[i as int].name.0));
                lemma_fnv_fold_concat(s0, acc, p);
                assert(acc + p =~= head + genarg_names_piece(svh_source(self@), t));
            }
            i = i + 1;
        }
        assert(genargs@.take(genargs@.len() as int) =~= genargs@);
    }

    /// Mixes in a type reference, its generic arguments included.
    fn svh_ty(&self, h: &mut StableHasher64, ty: &DiskTy)
        ensures
            final(h).state == fnv_fold(old(h).state, ty_piece(svh_source(self@), ty@)),
        decreases ty,
    {
        let ghost s0 = h.state;
        h.write_u32(ty.hdr.kind);
        let ghost a1 = u32_le(ty.hdr.kind);
        if ty.hdr.kind == 8 {
            match self.resolve_ext_sym(ty.hdr.sym_id.0) {
                Some((pkg_id, sym_idx)) => {
                    h.write_u32(pkg_id.value());
                    h.write_u32(sym_idx);
                    proof {
                        lemma_fnv_fold_concat(s0, a1, u32_le(pkg_id.0));
                        lemma_fnv_fold_concat(s0, a1 + u32_le(pkg_id.0), u32_le(sym_idx));
                        assert(a1 + u32_le(pkg_id.0) + u32_le(sym_idx) =~= a1 + ty_ref_piece(
                            svh_source(self@),
                            ty.hdr,
                        ));
                    }
                },
                None => {
                    h.write_str("<unresolved-external>");
                    proof {
                        lemma_fnv_fold_concat(s0, a1, str_piece("<unresolved-external>"@));
                    }
                },
            }
        } else {
            h.write_u32(ty.hdr.sym_id.0);
            proof {
                lemma_fnv_fold_concat(s0, a1, u32_le(ty.hdr.sym_id.0));
            }
        }
        let ghost a2 = a1 + ty_ref_piece(svh_source(self@), ty.hdr);
        h.write_usize(ty.genargs.len());
        proof {
            lemma_fnv_fold_concat(s0, a2, u64_le(ty.genargs@.len() as u64));
        }
        let ghost head = a2 + u64_le(ty.genargs@.len() as u64);
        let ghost gs = ty.genargs@;
        let mut i: usize = 0;
        assert(tys_view(gs.take(0)) =~= Seq::<DiskTyView>::empty());
        assert(head + tys_piece(svh_source(self@), tys_view(gs.take(0))) =~= head);
        while i < ty.genargs.len()
            invariant
                i <= gs.len(),
                gs == ty.genargs@,
                h.state == fnv_fold(s0, head + tys_piece(svh_source(self@), tys_view(gs.take(i as int)))),
            decreases gs.len() - i,
        {
            proof {
                assert(decreases_to!(*ty => ty.genargs));
                assert(decreases_to!(ty.genargs => ty.genargs@));
                assert(decreases_to!(ty.genargs@ => ty.genargs@[i as int]));
            }
            let ghost acc = head + tys_piece(svh_source(self@), tys_view(gs.take(i as int)));
            self.svh_ty(h, &ty.genargs[i]);
            proof {
                let tk = gs.take(i + 1);
                assert(tk.subrange(0, tk.len() - 1) =~= gs.take(i as int));
                let vk = tys_view(tk);
                assert(vk.subrange(0, vk.len() - 1) =~= tys_view(gs.take(i as int)));
                assert(vk[vk.len() - 1] == gs[i as int]@);
                lemma_fnv_fold_concat(s0, acc, ty_piece(svh_source(self@), gs[i as int]@));
                assert(acc + ty_piece(svh_source(self@), gs[i as int]@) =~= head + tys_piece(svh_source(self@), vk));
            }
            i = i + 1;
        }
        proof {
            assert(gs.take(gs.len() as int) =~= gs);
            crate::dependency_metadata::format::lemma_tys_view_len(gs);
        }
        assert(head + tys_piece(svh_source(self@), tys_view(gs)) =~= ty_piece(svh_source(self@), ty@));
    }

    /// Mixes in the number of symbol indices, then each.
    fn svh_indices(&self, h: &mut StableHasher64, xs: &[DiskSymbolIndex])
        ensures
            final(h).state == fnv_fold(old(h).state, indices_piece(xs@)),
    {
        let ghost s0 = h.state;
        h.write_usize(xs.len());
        let ghost head = u64_le(xs@.len() as u64);
        let mut i: usize = 0;
        assert(xs@.take(0) =~= Seq::<DiskSymbolIndex>::empty());
        assert(head + u32s_piece(xs@.take(0)) =~= head);
        while i < xs.len()
            invariant
                i <= xs@.len(),
                h.state == fnv_fold(s0, head + u32s_piece(xs@.take(i as int))),
            decreases xs@.len() - i,
        {
            let ghost acc = head + u32s_piece(xs@.take(i as int));
            h.write_u32(xs[i].0);
            proof {
                let t = xs@.take(i + 1);
                assert(t.drop_last() =~= xs@.take(i as int));
                lemma_fnv_fold_concat(s0, acc, u32_le(xs@[i as int].0));
                assert(acc + u32_le(xs@[i as int].0) =~= head + u32s_piece(t));
            }
            i = i + 1;
        }
        assert(xs@.take(xs@.len() as int) =~= xs@);
    }

    /// Mixes in type references one after the other.
    fn svh_tys(&self, h: &mut StableHasher64, tys: &[DiskTy])
        ensures
            final(h).state == fnv_fold(old(h).state, tys_piece(svh_source(self@), tys@.map_values(|t: DiskTy| t@))),
    {
        let ghost s0 = h.state;
        let ghost gs = tys@;
        let mut i: usize = 0;
        assert(tys_view(gs.take(0)) =~= Seq::<DiskTyView>::empty());
        while i < tys.len()
            invariant
                i <= gs.len(),
                gs == tys@,
                h.state == fnv_fold(s0, tys_piece(svh_source(self@), tys_view(gs.take(i as int)))),
            decreases gs.len() - i,
        {
            let ghost acc = tys_piece(svh_source(self@), tys_view(gs.take(i as int)));
            self.svh_ty(h, &tys[i]);
            proof {
                let tk = gs.take(i + 1);
                assert(tk.subrange(0, tk.len() - 1) =~= gs.take(i as int));
                let vk = tys_view(tk);
                assert(vk.subrange(0, vk.len() - 1) =~= tys_view(gs.take(i as int)));
                assert(vk[vk.len() - 1] == gs[i as int]@);
                lemma_fnv_fold_concat(s0, acc, ty_piece(svh_source(self@), gs[i as int]@));
                assert(acc + ty_piece(svh_source(self@), gs[i as int]@) =~= tys_piece(svh_source(self@), vk));
            }
            i = i + 1;
        }
        proof {
            assert(gs.take(gs.len() as int) =~= gs);
            lemma_tys_view_map(gs);
        }
    }

    /// Mixes in each argument's name and type, in order.
    fn svh_args(&self, h: &mut StableHasher64, args: &[DiskArg])
        ensures
            final(h).state == fnv_fold(
                old(h).state,
                named_tys_piece(svh_source(self@), arg_pairs(svh_source(self@), args@.map_values(|a: DiskArg| a@))),
            ),
    {
        let ghost s0 = h.state;
        let ghost ps = arg_pairs(svh_source(self@), args@.map_values(|a: DiskArg| a@));
        let mut i: usize = 0;
        assert(ps.take(0) =~= Seq::<(Seq<char>, DiskTyView)>::empty());
        while i < args.len()
            invariant
                i <= args@.len(),
                ps == arg_pairs(svh_source(self@), args@.map_values(|a: DiskArg| a@)),
                h.state == fnv_fold(s0, named_tys_piece(svh_source(self@), ps.take(i as int))),
            decreases args@.len() - i,
        {
            let ghost acc = named_tys_piece(svh_source(self@), ps.take(i as int));
            h.write_str(self.str_or_empty(args[i].name));
            self.svh_ty(h, &args[i].ty);
            proof {
                let t = ps.take(i + 1);
                assert(t.drop_last() =~= ps.take(i as int));
                assert(t.last() == ps[i as int]);
                assert(ps[i as int] == (string_or_empty(svh_source(self@).strings, args@[i as int].name.0), args@[i as int].ty@));
                let p1 = str_piece(ps[i as int].0);
                let p2 = ty_piece(svh_source(self@), ps[i as int].1);
                lemma_fnv_fold_concat(s0, acc, p1);
                lemma_fnv_fold_concat(s0, acc + p1, p2);
            }
            i = i + 1;
        }
        assert(ps.take(ps.len() as int) =~= ps);
    }

    /// Mixes in each lang item's number and symbol.
    fn svh_lang_items(&self, h: &mut StableHasher64)
        ensures
            final(h).state == fnv_fold(old(h).state, lang_items_piece(svh_source(self@).lang_items)),
    {
        let ghost s0 = h.state;
        let ghost lis = self.lang_items@;
        let mut i: usize = 0;
        assert(lis.take(0) =~= Seq::<DiskLangItem>::empty());
        while i < self.lang_items.len()
            invariant
                i <= lis.len(),
                lis == self.lang_items@,
                h.state == fnv_fold(s0, lang_items_piece(lis.take(i as int))),
            decreases lis.len() - i,
        {
            let ghost acc = lang_items_piece(lis.take(i as int));
            let li = &self.lang_items[i];
            h.write_u32(li.lang_item);
            h.write_u32(li.sym_idx.0);
            proof {
                let t = lis.take(i + 1);
                assert(t.drop_last() =~= lis.take(i as int));
                lemma_fnv_fold_concat(s0, acc, u32_le(li.lang_item));
                lemma_fnv_fold_concat(s0, acc + u32_le(li.lang_item), u32_le(li.sym_idx.0));
            }
            i = i + 1;
        }
        assert(lis.take(lis.len() as int) =~= lis);
    }

    /// Mixes in struct members by name: the hash is of meaning, not of
    /// layout, so members are put in name order first.
    fn svh_members(&self, h: &mut StableHasher64, members: &[DiskStructMember])
        ensures
            final(h).state == fnv_fold(
                old(h).state,
                named_tys_piece(
                    svh_source(self@),
                    sort_by_name(member_pairs(svh_source(self@), members@.map_values(|x: DiskStructMember| x@))),
                ),
            ),
    {
        let ghost mp = member_pairs(svh_source(self@), members@.map_values(|x: DiskStructMember| x@));
        let mut pairs: Vec<(String, &DiskTy)> = Vec::new();
        let mut i: usize = 0;
        assert(mp.take(0) =~= Seq::<(Seq<char>, DiskTyView)>::empty());
        assert(pair_views(pairs@) =~= Seq::<(Seq<char>, DiskTyView)>::empty());
        while i < members.len()
            invariant
                i <= members@.len(),
                mp == member_pairs(svh_source(self@), members@.map_values(|x: DiskStructMember| x@)),
                pair_views(pairs@) == mp.take(i as int),
            decreases members@.len() - i,
        {
            let name = string_of_str(self.str_or_empty(members[i].name));
            let ghost before = pairs@;
            pairs.push((name, &members[i].ty));
            assert(pair_views(pairs@) =~= pair_views(before).push((name@, members@[i as int].ty@)));
            assert(mp.take(i + 1) =~= mp.take(i as int).push(mp[i as int]));
            i = i + 1;
        }
        assert(mp.take(mp.len() as int) =~= mp);
        let sorted = sort_pairs(pairs);
        let ghost ps = pair_views(sorted@);
        let ghost s0 = h.state;
        let mut k: usize = 0;
        assert(ps.take(0) =~= Seq::<(Seq<char>, DiskTyView)>::empty());
        while k < sorted.len()
            invariant
                k <= sorted@.len(),
                ps == pair_views(sorted@),
                h.state == fnv_fold(s0, named_tys_piece(svh_source(self@), ps.take(k as int))),
            decreases sorted@.len() - k,
        {
            let ghost acc = named_tys_piece(svh_source(self@), ps.take(k as int));
            h.write_str(sorted[k].0.as_str());
            self.svh_ty(h, sorted[k].1);
            proof {
                let t = ps.take(k + 1);
                assert(t.drop_last() =~= ps.take(k as int));
                assert(t.last() == ps[k as int]);
                let p1 = str_piece(ps[k as int].0);
                let p2 = ty_piece(svh_source(self@), ps[k as int].1);
                lemma_fnv_fold_concat(s0, acc, p1);
                lemma_fnv_fold_concat(s0, acc + p1, p2);
            }
            k = k + 1;
        }
        assert(ps.take(ps.len() as int) =~= ps);
    }

    /// Mixes in one symbol body.
    fn svh_body(&self, h: &mut StableHasher64, body: &SymbolBody)
        ensures
            final(h).state == fnv_fold(old(h).state, body_piece(svh_source(self@), body@)),
    {
        let ghost s0 = h.state;
        let ghost m = svh_source(self@);
        match body {
            SymbolBody::Mod(d) => {
                h.write_str("mod");
                let ghost a1 = str_piece("mod"@);
                self.svh_name(h, d.name, &d.name_span);
                proof {
                    lemma_fnv_fold_concat(s0, a1, name_piece(m, d.name, d.name_span));
                }
                let ghost a2 = a1 + name_piece(m, d.name, d.name_span);
                self.svh_indices(h, d.children.0.as_slice());
                proof {
                    lemma_plain_views(d.children.0@);
                    lemma_fnv_fold_concat(s0, a2, indices_piece(d.children@));
                }
            },
            SymbolBody::Struct(d) => {
                h.write_str("struct");
                let ghost a1 = str_piece("struct"@);
                self.svh_name(h, d.name, &d.name_span);
                proof {
                    lemma_fnv_fold_concat(s0, a1, name_piece(m, d.name, d.name_span));
                }
                let ghost a2 = a1 + name_piece(m, d.name, d.name_span);
                self.svh_genargs(h, d.genargs.0.as_slice());
                proof {
                    lemma_plain_views(d.genargs.0@);
                    lemma_fnv_fold_concat(s0, a2, genargs_piece(m, d.genargs@));
                }
                let ghost a3 = a2 + genargs_piece(m, d.genargs@);
                h.write_usize(d.members.0.len());
                proof {
                    lemma_fnv_fold_concat(s0, a3, u64_le(d.members@.len() as u64));
                }
                let ghost a4 = a3 + u64_le(d.members@.len() as u64);
                self.svh_members(h, d.members.0.as_slice());
                let ghost p5 = named_tys_piece(m, sort_by_name(member_pairs(m, d.members@)));
                proof {
                    lemma_fnv_fold_concat(s0, a4, p5);
                }
                let ghost a5 = a4 + p5;
                self.svh_indices(h, d.assoc_symbols.0.as_slice());
                proof {
                    lemma_plain_views(d.assoc_symbols.0@);
                    lemma_fnv_fold_concat(s0, a5, indices_piece(d.assoc_symbols@));
                }
            },
            SymbolBody::NativeTypeAlias(d) => {
                h.write_str("native-type-alias");
                let ghost a1 = str_piece("native-type-alias"@);
                self.svh_name(h, d.name, &d.name_span);
                proof {
                    lemma_fnv_fold_concat(s0, a1, name_piece(m, d.name, d.name_span));
                }
                let ghost a2 = a1 + name_piece(m, d.name, d.name_span);
                // The native body goes to the target language as it is, so it
                // is interface.
                h.write_str(self.str_or_empty(d.native));
                let ghost p3 = str_piece(string_or_empty(m.strings, d.native.0));
                proof {
                    lemma_fnv_fold_concat(s0, a2, p3);
                }
                let ghost a3 = a2 + p3;
                self.svh_genargs(h, d.genargs.0.as_slice());
                proof {
                    lemma_plain_views(d.genargs.0@);
                    lemma_fnv_fold_concat(s0, a3, genargs_piece(m, d.genargs@));
                }
                let ghost a4 = a3 + genargs_piece(m, d.genargs@);
                self.svh_indices(h, d.assoc_symbols.0.as_slice());
                proof {
                    lemma_plain_views(d.assoc_symbols.0@);
                    lemma_fnv_fold_concat(s0, a4, indices_piece(d.assoc_symbols@));
                }
            },
            SymbolBody::Fn(d) => {
                h.write_str("fn");
                let ghost a1 = str_piece("fn"@);
                self.svh_name(h, d.name, &d.name_span);
                proof {
                    lemma_fnv_fold_concat(s0, a1, name_piece(m, d.name, d.name_span));
                }
                let ghost a2 = a1 + name_piece(m, d.name, d.name_span);
                self.svh_genargs(h, d.genargs.0.as_slice());
                proof {
                    lemma_plain_views(d.genargs.0@);
                    lemma_fnv_fold_concat(s0, a2, genargs_piece(m, d.genargs@));
                }
                let ghost a3 = a2 + genargs_piece(m, d.genargs@);
                h.write_usize(d.args.0.len());
                proof {
                    lemma_fnv_fold_concat(s0, a3, u64_le(d.args@.len() as u64));
                }
                let ghost a4 = a3 + u64_le(d.args@.len() as u64);
                self.svh_args(h, d.args.0.as_slice());
                let ghost p5 = named_tys_piece(m, arg_pairs(m, d.args@));
                proof {
                    lemma_fnv_fold_concat(s0, a4, p5);
                }
                let ghost a5 = a4 + p5;
                self.svh_ty(h, &d.rty);
                proof {
                    lemma_fnv_fold_concat(s0, a5, ty_piece(m, d.rty@));
                }
                let ghost a6 = a5 + ty_piece(m, d.rty@);
                h.write_usize(d.impl_self_ty.0.len());
                proof {
                    lemma_fnv_fold_concat(s0, a6, u64_le(d.impl_self_ty@.len() as u64));
                }
                let ghost a7 = a6 + u64_le(d.impl_self_ty@.len() as u64);
                self.svh_tys(h, d.impl_self_ty.0.as_slice());
                proof {
                    lemma_fnv_fold_concat(s0, a7, tys_piece(m, d.impl_self_ty@));
                }
            },
        }
    }

    /// The SVH of this package: see the module documentation for what it
    /// holds and leaves out. The same function serves after decoding, so
    /// a loaded SVH can be checked.
    pub fn compute_svh(&self) -> (r: Hash64)
        ensures
            r.0 == stream_hash(svh_stream(svh_source(self@))),
    {
        let ghost m = svh_source(self@);
        let mut h = StableHasher64::new();
        h.write_str("biwameta-svh");
        let ghost a1 = str_piece("biwameta-svh"@);
        h.write_u32(BIWAC_DEPENDENCY_METADATA_FORMAT_VERSION);
        proof {
            lemma_fnv_fold_concat(FNV_OFFSET_BASIS, a1, u32_le(BIWAC_DEPENDENCY_METADATA_FORMAT_VERSION));
        }
        let ghost a2 = a1 + u32_le(BIWAC_DEPENDENCY_METADATA_FORMAT_VERSION);
        h.write_u32(self.root_sym_idx);
        proof {
            lemma_fnv_fold_concat(FNV_OFFSET_BASIS, a2, u32_le(self.root_sym_idx));
        }
        let ghost a3 = a2 + u32_le(self.root_sym_idx);
        h.write_usize(self.sym_hdrs.len());
        proof {
            lemma_fnv_fold_concat(FNV_OFFSET_BASIS, a3, u64_le(m.sym_hdrs.len() as u64));
        }
        let ghost head = a3 + u64_le(m.sym_hdrs.len() as u64);
        let mut sym_idx: usize = 0;
        assert(head + symbols_piece(m, 0) =~= head);
        while sym_idx < self.sym_hdrs.len()
            invariant
                m == svh_source(self@),
                sym_idx <= m.sym_hdrs.len(),
                h.state == fnv_fold(FNV_OFFSET_BASIS, head + symbols_piece(m, sym_idx as nat)),
            decreases m.sym_hdrs.len() - sym_idx,
        {
            let ghost acc = head + symbols_piece(m, sym_idx as nat);
            h.write_usize(sym_idx);
            proof {
                lemma_fnv_fold_concat(FNV_OFFSET_BASIS, acc, u64_le(sym_idx as u64));
            }
            let ghost acc2 = acc + u64_le(sym_idx as u64);
            match self.get_symbol_body(sym_idx) {
                Ok(body) => {
                    self.svh_body(&mut h, &body);
                    proof {
                        lemma_fnv_fold_concat(FNV_OFFSET_BASIS, acc2, body_piece(m, body@));
                    }
                },
                Err(_) => {
                    // The header is there but the body is broken: mixing that
                    // fact in keeps it apart from any sound body.
                    h.write_str("<undecodable>");
                    proof {
                        lemma_fnv_fold_concat(FNV_OFFSET_BASIS, acc2, str_piece("<undecodable>"@));
                    }
                },
            }
            assert(acc2 + match symbol_body_at(m, sym_idx as int) {
                Ok(b) => body_piece(m, b),
                Err(_) => str_piece("<undecodable>"@),
            } =~= head + symbols_piece(m, (sym_idx + 1) as nat));
            sym_idx = sym_idx + 1;
        }
        let ghost a5 = head + symbols_piece(m, m.sym_hdrs.len());
        // Dependents read lang items straight from here, so they are interface.
        h.write_str("lang-items");
        proof {
            lemma_fnv_fold_concat(FNV_OFFSET_BASIS, a5, str_piece("lang-items"@));
        }
        let ghost a6 = a5 + str_piece("lang-items"@);
        h.write_usize(self.lang_items.len());
        proof {
            lemma_fnv_fold_concat(FNV_OFFSET_BASIS, a6, u64_le(m.lang_items.len() as u64));
        }
        let ghost a7 = a6 + u64_le(m.lang_items.len() as u64);
        self.svh_lang_items(&mut h);
        proof {
            lemma_fnv_fold_concat(FNV_OFFSET_BASIS, a7, lang_items_piece(m.lang_items));
        }
        assert(a7 + lang_items_piece(m.lang_items) == svh_stream(m));
        h.finish()
    }
}

} // verus!
