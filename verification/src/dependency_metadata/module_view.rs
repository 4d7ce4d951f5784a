//! Looking up the symbols of a dependency's modules by name.

use vstd::prelude::*;
use std::sync::Arc;
use crate::ident::{IdentInterner, InternedIdent, str_eq};
use crate::package::PackageId;
use crate::text::string_of_str;
use super::{DepMetadata, DepMetadataView, symbol_body_at};
use super::body::{SymbolBody, SymbolBodyView};
use super::format::{DiskStringOffset, DiskSymbolIndex};
use super::table::{body_at, string_at, string_or_empty};

verus! {

/// A uniform way to look symbols up by name in a module, whether the module
/// is one of the package being built or one of a dependency, so that name
/// resolution treats both alike.
///
/// Ids are handed out elsewhere; this only looks up the symbol index already
/// assigned.
pub trait PackageModuleView: Sized {
    /// A direct child symbol of the module, by name. `interner` turns the
    /// interned name into text.
    fn lookup_child(&self, name: InternedIdent, interner: &IdentInterner) -> Option<ExternalChildRef>;

    /// The view of a child module.
    fn get_module_view(&self, module_sym_idx: u32) -> Self;

    /// An associated symbol of a type symbol, by name (methods and
    /// associated functions).
    fn lookup_assoc(&self, local_ty_idx: u32, name: InternedIdent, interner: &IdentInterner) -> Option<
        ExternalChildRef,
    >;

    /// The id of the package this view belongs to.
    fn pkg_id(&self) -> PackageId;
}

/// A reference to a symbol of a dependency.
#[derive(Debug, Clone, Copy, PartialEq, Eq, Structural)]
pub struct ExternalChildRef {
    /// The symbol's index in that package (the value of its `DiskSymbolIndex`).
    pub sym_idx: u32,
    pub kind: ExternalChildKind,
}

#[derive(Debug, Clone, Copy, PartialEq, Eq, Structural)]
pub enum ExternalChildKind {
    Mod,
    Ty,
    Val,
    Variant,
    Trait,
}

/// The name and index of a child symbol as the name index lists it, when
/// its header, body and name can be read.
pub open spec fn child_entry(m: DepMetadataView, child: DiskSymbolIndex) -> Option<
    (Seq<char>, u32, ExternalChildKind),
> {
    if child.0 as int >= m.sym_hdrs.len() {
        None
    } else {
        match body_at(m.sym_bodies, m.sym_hdrs[child.0 as int]) {
            Err(_) => None,
            Ok(b) => {
                let (name, kind) = match b {
                    SymbolBodyView::Fn(d) => (d.name, ExternalChildKind::Val),
                    SymbolBodyView::Struct(d) => (d.name, ExternalChildKind::Ty),
                    SymbolBodyView::Mod(d) => (d.name, ExternalChildKind::Mod),
                    SymbolBodyView::NativeTypeAlias(d) => (d.name, ExternalChildKind::Ty),
                };
                match string_at(m.strings, name.0) {
                    Err(_) => None,
                    Ok(s) => Some((s, child.0, kind)),
                }
            },
        }
    }
}

pub open spec fn child_entries(m: DepMetadataView, children: Seq<DiskSymbolIndex>) -> Seq<
    (Seq<char>, u32, ExternalChildKind),
>
    decreases children.len(),
{
    if children.len() == 0 {
        Seq::empty()
    } else {
        child_entries(m, children.drop_last()) + match child_entry(m, children.last()) {
            Some(e) => seq![e],
            None => Seq::empty(),
        }
    }
}

/// The name index of a module: its readable children in order, or nothing
/// when the module itself cannot be read.
pub open spec fn name_index(m: DepMetadataView, module_sym_idx: u32) -> Seq<(Seq<char>, u32, ExternalChildKind)> {
    match symbol_body_at(m, module_sym_idx as int) {
        Ok(SymbolBodyView::Mod(d)) => child_entries(m, d.children),
        _ => Seq::empty(),
    }
}

/// The last entry named `n`: a later child of the same name takes the place
/// of an earlier one.
pub open spec fn find_last(index: Seq<(Seq<char>, u32, ExternalChildKind)>, n: Seq<char>) -> Option<
    (u32, ExternalChildKind),
>
    decreases index.len(),
{
    if index.len() == 0 {
        None
    } else if index.last().0 == n {
        Some((index.last().1, index.last().2))
    } else {
        find_last(index.drop_last(), n)
    }
}

/// The first associated function named `n` among `xs`; an unreadable
/// entry met before it ends the search.
pub open spec fn assoc_lookup(m: DepMetadataView, xs: Seq<DiskSymbolIndex>, n: Seq<char>) -> Option<u32>
    decreases xs.len(),
{
    if xs.len() == 0 {
        None
    } else if xs[0].0 as int >= m.sym_hdrs.len() {
        None
    } else {
        match body_at(m.sym_bodies, m.sym_hdrs[xs[0].0 as int]) {
            Err(_) => None,
            Ok(SymbolBodyView::Fn(d)) => if string_or_empty(m.strings, d.name.0) == n {
                Some(xs[0].0)
            } else {
                assoc_lookup(m, xs.drop_first(), n)
            },
            Ok(_) => assoc_lookup(m, xs.drop_first(), n),
        }
    }
}

/// What looking an associated symbol up in type symbol `ty_idx` gives.
pub open spec fn assoc_of(m: DepMetadataView, ty_idx: u32, n: Seq<char>) -> Option<u32> {
    if ty_idx as int >= m.sym_hdrs.len() {
        None
    } else {
        match body_at(m.sym_bodies, m.sym_hdrs[ty_idx as int]) {
            Ok(SymbolBodyView::Struct(d)) => assoc_lookup(m, d.assoc_symbols, n),
            Ok(SymbolBodyView::NativeTypeAlias(d)) => assoc_lookup(m, d.assoc_symbols, n),
            _ => None,
        }
    }
}

/// `Arc::clone`: another handle on the same metadata.
#[verifier::external_body]
fn share(dep: &Arc<DepMetadata>) -> (r: Arc<DepMetadata>)
    ensures
        *r == **dep,
{
    Arc::clone(dep)
}

/// A view of one module of a dependency's metadata. It holds the metadata
/// through an `Arc`, so it can live as long as name resolution needs.
pub struct DepMetadataModuleView {
    dep: Arc<DepMetadata>,
    module_sym_idx: u32,
    pkg_id: PackageId,
}

impl DepMetadataModuleView {
    pub closed spec fn metadata(&self) -> DepMetadataView {
        (*self.dep)@
    }

    pub closed spec fn module(&self) -> u32 {
        self.module_sym_idx
    }

    pub closed spec fn package(&self) -> PackageId {
        self.pkg_id
    }

    /// The view of the root module.
    pub fn new_root(dep: Arc<DepMetadata>, pkg_id: PackageId) -> (r: Self)
        ensures
            r.metadata() == (*dep)@,
            r.module() == dep.root_sym_idx,
            r.package() == pkg_id,
    {
        let module_sym_idx = dep.root_sym_idx;
        DepMetadataModuleView { dep, module_sym_idx, pkg_id }
    }

    /// The view of the module at a given symbol index (for name resolution).
    pub fn new_for_sym_idx(dep: Arc<DepMetadata>, module_sym_idx: u32, pkg_id: PackageId) -> (r: Self)
        ensures
            r.metadata() == (*dep)@,
            r.module() == module_sym_idx,
            r.package() == pkg_id,
    {
        DepMetadataModuleView { dep, module_sym_idx, pkg_id }
    }

    fn new_submodule(dep: Arc<DepMetadata>, module_sym_idx: u32, pkg_id: PackageId) -> (r: Self)
        ensures
            r.metadata() == (*dep)@,
            r.module() == module_sym_idx,
            r.package() == pkg_id,
    {
        DepMetadataModuleView { dep, module_sym_idx, pkg_id }
    }

    /// The names of the module's children, decoding each child's body for
    /// its name.
    fn build_name_index(&self) -> (r: Vec<(String, u32, ExternalChildKind)>)
        ensures
            r@.map_values(|e: (String, u32, ExternalChildKind)| (e.0@, e.1, e.2)) == name_index(
                self.metadata(),
                self.module(),
            ),
    {
        let mut map: Vec<(String, u32, ExternalChildKind)> = Vec::new();
        let ghost m = self.metadata();
        let body = match self.dep.get_symbol_body(self.module_sym_idx as usize) {
            Ok(b) => b,
            Err(_) => {
                assert(map@.map_values(|e: (String, u32, ExternalChildKind)| (e.0@, e.1, e.2)) =~= Seq::<
                    (Seq<char>, u32, ExternalChildKind),
                >::empty());
                return map;
            },
        };
        let mod_data = match body {
            SymbolBody::Mod(d) => d,
            _ => {
                assert(map@.map_values(|e: (String, u32, ExternalChildKind)| (e.0@, e.1, e.2)) =~= Seq::<
                    (Seq<char>, u32, ExternalChildKind),
                >::empty());
                return map;
            },
        };
        let children = &mod_data.children.0;
        proof {
            super::codec::lemma_plain_views(children@);
        }
        let mut i: usize = 0;
        assert(children@.take(0) =~= Seq::<DiskSymbolIndex>::empty());
        assert(map@.map_values(|e: (String, u32, ExternalChildKind)| (e.0@, e.1, e.2)) =~= Seq::<
            (Seq<char>, u32, ExternalChildKind),
        >::empty());
        while i < children.len()
            invariant
                m == self.metadata(),
                m == (*self.dep)@,
                i <= children@.len(),
                map@.map_values(|e: (String, u32, ExternalChildKind)| (e.0@, e.1, e.2)) == child_entries(
                    m,
                    children@.take(i as int),
                ),
            decreases children@.len() - i,
        {
            let child_idx = children[i];
            let ghost before = map@;
            proof {
                let t = children@.take(i + 1);
                assert(t.drop_last() =~= children@.take(i as int));
                assert(t.last() == child_idx);
            }
            if (child_idx.0 as usize) < self.dep.sym_hdrs.len() {
                let hdr = &self.dep.sym_hdrs[child_idx.0 as usize];
                match self.dep.sym_bodies.get(child_idx.0 as usize, hdr) {
                    Ok(child_body) => {
                        let (name_offset, kind) = match &child_body {
                            SymbolBody::Fn(d) => (d.name, ExternalChildKind::Val),
                            SymbolBody::Struct(d) => (d.name, ExternalChildKind::Ty),
                            SymbolBody::Mod(d) => (d.name, ExternalChildKind::Mod),
                            SymbolBody::NativeTypeAlias(d) => (d.name, ExternalChildKind::Ty),
                        };
                        match self.dep.strings.get(name_offset) {
                            Ok(s) => {
                                let name = string_of_str(s);
                                map.push((name, child_idx.0, kind));
                                assert(map@.map_values(
                                    |e: (String, u32, ExternalChildKind)| (e.0@, e.1, e.2),
                                ) =~= before.map_values(
                                    |e: (String, u32, ExternalChildKind)| (e.0@, e.1, e.2),
                                ).push((name@, child_idx.0, kind)));
                            },
                            Err(_) => {},
                        }
                    },
                    Err(_) => {},
                }
            }
            assert(map@.map_values(|e: (String, u32, ExternalChildKind)| (e.0@, e.1, e.2)) =~= child_entries(
                m,
                children@.take(i + 1),
            ));
            i = i + 1;
        }
        assert(children@.take(children@.len() as int) =~= children@);
        map
    }
}

impl PackageModuleView for DepMetadataModuleView {
    fn lookup_child(&self, name: InternedIdent, interner: &IdentInterner) -> (r: Option<ExternalChildRef>)
        ensures
            (name.0 as int) < interner@.len() ==> match find_last(
                name_index(self.metadata(), self.module()),
                interner@[name.0 as int],
            ) {
                Some((sym_idx, kind)) => r == Some(ExternalChildRef { sym_idx, kind }),
                None => r is None,
            },
            (name.0 as int) >= interner@.len() ==> r is None,
    {
        let name_str = match interner.get_str(&name) {
            Some(s) => s,
            None => return None,
        };
        let index = self.build_name_index();
        let ghost iv = index@.map_values(|e: (String, u32, ExternalChildKind)| (e.0@, e.1, e.2));
        let mut k = index.len();
        assert(iv.take(k as int) =~= iv);
        while k > 0 && !str_eq(index[k - 1].0.as_str(), name_str)
            invariant
                k <= index@.len(),
                iv == index@.map_values(|e: (String, u32, ExternalChildKind)| (e.0@, e.1, e.2)),
                find_last(iv, name_str@) == find_last(iv.take(k as int), name_str@),
            decreases k,
        {
            proof {
                let t = iv.take(k as int);
                assert(t.drop_last() =~= iv.take(k - 1));
                assert(t.last() == iv[k - 1]);
            }
            k = k - 1;
        }
        proof {
            assert(iv.take(iv.len() as int) =~= iv);
        }
        if k == 0 {
            None
        } else {
            proof {
                let t = iv.take(k as int);
                assert(t.last() == iv[k - 1]);
            }
            Some(ExternalChildRef { sym_idx: index[k - 1].1, kind: index[k - 1].2 })
        }
    }

    fn get_module_view(&self, module_sym_idx: u32) -> (r: DepMetadataModuleView)
        ensures
            r.metadata() == self.metadata(),
            r.module() == module_sym_idx,
            r.package() == self.package(),
    {
        DepMetadataModuleView::new_submodule(share(&self.dep), module_sym_idx, self.pkg_id)
    }

    fn lookup_assoc(&self, local_ty_idx: u32, name: InternedIdent, interner: &IdentInterner) -> (r: Option<
        ExternalChildRef,
    >)
        ensures
            (name.0 as int) < interner@.len() ==> match assoc_of(
                self.metadata(),
                local_ty_idx,
                interner@[name.0 as int],
            ) {
                Some(sym_idx) => r == Some(ExternalChildRef { sym_idx, kind: ExternalChildKind::Val }),
                None => r is None,
            },
            (name.0 as int) >= interner@.len() ==> r is None,
    {
        let name_str = match interner.get_str(&name) {
            Some(s) => s,
            None => return None,
        };
        let ghost m = self.metadata();
        if local_ty_idx as usize >= self.dep.sym_hdrs.len() {
            return None;
        }
        let hdr = &self.dep.sym_hdrs[local_ty_idx as usize];
        let body = match self.dep.sym_bodies.get(local_ty_idx as usize, hdr) {
            Ok(b) => b,
            Err(_) => return None,
        };
        let assoc_symbols = match &body {
            SymbolBody::Struct(d) => &d.assoc_symbols.0,
            SymbolBody::NativeTypeAlias(d) => &d.assoc_symbols.0,
            _ => return None,
        };
        proof {
            super::codec::lemma_plain_views(assoc_symbols@);
        }
        let mut i: usize = 0;
        assert(assoc_symbols@.skip(0) =~= assoc_symbols@);
        while i < assoc_symbols.len()
            invariant
                m == self.metadata(),
                m == (*self.dep)@,
                i <= assoc_symbols@.len(),
                assoc_of(m, local_ty_idx, name_str@) == assoc_lookup(m, assoc_symbols@.skip(i as int), name_str@),
                (name.0 as int) < interner@.len(),
                name_str@ == interner@[name.0 as int],
            decreases assoc_symbols@.len() - i,
        {
            let assoc_sym_idx = assoc_symbols[i];
            let ghost xs = assoc_symbols@.skip(i as int);
            assert(xs[0] == assoc_sym_idx);
            assert(xs.drop_first() =~= assoc_symbols@.skip(i + 1));
            if assoc_sym_idx.0 as usize >= self.dep.sym_hdrs.len() {
                return None;
            }
            let assoc_hdr = &self.dep.sym_hdrs[assoc_sym_idx.0 as usize];
            let assoc_body = match self.dep.sym_bodies.get(assoc_sym_idx.0 as usize, assoc_hdr) {
                Ok(b) => b,
                Err(_) => return None,
            };
            if let SymbolBody::Fn(fn_data) = &assoc_body {
                let assoc_name = self.dep.str_or_empty(fn_data.name);
                if str_eq(assoc_name, name_str) {
                    return Some(ExternalChildRef { sym_idx: assoc_sym_idx.0, kind: ExternalChildKind::Val });
                }
            }
            i = i + 1;
        }
        None
    }

    fn pkg_id(&self) -> (r: PackageId)
        ensures
            r == self.package(),
    {
        self.pkg_id
    }
}

} // verus!
