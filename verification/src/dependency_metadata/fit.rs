//! What fits in the file can be read back: a body whose bytes fit in 4 GiB
//! has every count in it below `u32::MAX`.

use vstd::prelude::*;
use super::body::{SymbolBody, SymbolBodyView, body_encodable};
use super::codec::{DiskCodec, DiskEncode, DiskVec, all_encodable, seq_encoding};
use super::format::{DiskArg, DiskArgView, DiskGenArg, DiskStructMember, DiskStructMemberView,
    DiskSymbolIndex, DiskTy, DiskTyView, ty_bytes, tys_bytes, ty_encodable, tys_encodable};
use super::table::{body_entry, body_table};

verus! {

proof fn lemma_ty_fits(v: DiskTyView)
    ensures
        ty_bytes(v).len() >= 1,
        ty_bytes(v).len() <= u32::MAX ==> ty_encodable(v),
    decreases v, 1nat,
{
    lemma_tys_fits(v.genargs);
}

proof fn lemma_tys_fits(gs: Seq<DiskTyView>)
    ensures
        tys_bytes(gs).len() >= gs.len(),
        tys_bytes(gs).len() <= u32::MAX ==> tys_encodable(gs),
    decreases gs, 0nat,
{
    if gs.len() > 0 {
        lemma_tys_fits(gs.subrange(0, gs.len() - 1));
        lemma_ty_fits(gs[gs.len() - 1]);
    }
}

/// Values whose encodings are never empty and fit-then-encodable: a run
/// of them that fits holds fewer than `u32::MAX` values, each encodable.
proof fn lemma_seq_fits<T: DiskCodec>(vs: Seq<<T as View>::V>)
    requires
        forall|v: <T as View>::V| #[trigger] T::encoding(v).len() >= 1,
        forall|v: <T as View>::V| #[trigger] T::encoding(v).len() <= u32::MAX ==> T::encodable(v),
    ensures
        seq_encoding::<T>(vs).len() >= vs.len(),
        forall|i: int| 0 <= i < vs.len() ==> seq_encoding::<T>(vs).len() >= T::encoding(#[trigger] vs[i]).len(),
        seq_encoding::<T>(vs).len() <= u32::MAX ==> all_encodable::<T>(vs),
    decreases vs.len(),
{
    if vs.len() > 0 {
        let d = vs.drop_last();
        lemma_seq_fits::<T>(d);
        assert(T::encoding(vs.last()).len() >= 1);
        assert forall|i: int| 0 <= i < vs.len() implies seq_encoding::<T>(vs).len() >= T::encoding(#[trigger] vs[i]).len() by {
            if i < vs.len() - 1 {
                assert(vs[i] == d[i]);
            }
        }
        if seq_encoding::<T>(vs).len() <= u32::MAX {
            assert forall|i: int| 0 <= i < vs.len() implies T::encodable(#[trigger] vs[i]) by {
                assert(seq_encoding::<T>(vs).len() >= T::encoding(vs[i]).len());
            }
        }
    }
}

proof fn lemma_vec_fits<T: DiskCodec>(vs: Seq<<T as View>::V>)
    requires
        forall|v: <T as View>::V| #[trigger] T::encoding(v).len() >= 1,
        forall|v: <T as View>::V| #[trigger] T::encoding(v).len() <= u32::MAX ==> T::encodable(v),
    ensures
        <DiskVec<T> as DiskEncode>::encoding(vs).len() <= u32::MAX ==> <DiskVec<T> as DiskCodec>::encodable(vs),
{
    lemma_seq_fits::<T>(vs);
}

proof fn lemma_genargs_fit(vs: Seq<DiskGenArg>)
    ensures
        <DiskVec<DiskGenArg> as DiskEncode>::encoding(vs).len() <= u32::MAX ==> <DiskVec<DiskGenArg> as DiskCodec>::encodable(vs),
{
    lemma_vec_fits::<DiskGenArg>(vs);
}

proof fn lemma_indices_fit(vs: Seq<DiskSymbolIndex>)
    ensures
        <DiskVec<DiskSymbolIndex> as DiskEncode>::encoding(vs).len() <= u32::MAX ==> <DiskVec<DiskSymbolIndex> as DiskCodec>::encodable(vs),
{
    lemma_vec_fits::<DiskSymbolIndex>(vs);
}

proof fn lemma_members_fit(vs: Seq<DiskStructMemberView>)
    ensures
        <DiskVec<DiskStructMember> as DiskEncode>::encoding(vs).len() <= u32::MAX ==> <DiskVec<DiskStructMember> as DiskCodec>::encodable(vs),
{
    assert forall|v: DiskStructMemberView| #[trigger] <DiskStructMember as DiskEncode>::encoding(v).len() >= 1
        && (<DiskStructMember as DiskEncode>::encoding(v).len() <= u32::MAX ==> <DiskStructMember as DiskCodec>::encodable(v)) by {
        lemma_ty_fits(v.ty);
    }
    lemma_vec_fits::<DiskStructMember>(vs);
}

proof fn lemma_args_fit(vs: Seq<DiskArgView>)
    ensures
        <DiskVec<DiskArg> as DiskEncode>::encoding(vs).len() <= u32::MAX ==> <DiskVec<DiskArg> as DiskCodec>::encodable(vs),
{
    assert forall|v: DiskArgView| #[trigger] <DiskArg as DiskEncode>::encoding(v).len() >= 1
        && (<DiskArg as DiskEncode>::encoding(v).len() <= u32::MAX ==> <DiskArg as DiskCodec>::encodable(v)) by {
        lemma_ty_fits(v.ty);
    }
    lemma_vec_fits::<DiskArg>(vs);
}

proof fn lemma_tys_vec_fit(vs: Seq<DiskTyView>)
    ensures
        <DiskVec<DiskTy> as DiskEncode>::encoding(vs).len() <= u32::MAX ==> <DiskVec<DiskTy> as DiskCodec>::encodable(vs),
{
    assert forall|v: DiskTyView| #[trigger] <DiskTy as DiskEncode>::encoding(v).len() >= 1
        && (<DiskTy as DiskEncode>::encoding(v).len() <= u32::MAX ==> <DiskTy as DiskCodec>::encodable(v)) by {
        lemma_ty_fits(v);
    }
    lemma_vec_fits::<DiskTy>(vs);
}

/// A body whose entry in the body table fits in 4 GiB can be written
/// faithfully: every count in it fits in a `u32`.
pub proof fn lemma_body_fits(v: SymbolBodyView)
    ensures
        body_entry(v).len() <= u32::MAX ==> body_encodable(v),
{
    match v {
        SymbolBodyView::Mod(d) => {
            lemma_indices_fit(d.children);
        },
        SymbolBodyView::Struct(d) => {
            lemma_genargs_fit(d.genargs);
            lemma_members_fit(d.members);
            lemma_indices_fit(d.assoc_symbols);
        },
        SymbolBodyView::Fn(d) => {
            lemma_genargs_fit(d.genargs);
            lemma_args_fit(d.args);
            lemma_ty_fits(d.rty);
            lemma_tys_vec_fit(d.impl_self_ty);
        },
        SymbolBodyView::NativeTypeAlias(d) => {
            lemma_genargs_fit(d.genargs);
            lemma_indices_fit(d.assoc_symbols);
        },
    }
}

} // verus!
