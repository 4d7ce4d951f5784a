//! A loaded dependency, as the package being built sees it.

use vstd::prelude::*;
use std::sync::Arc;
use crate::ident::InternedIdent;
use crate::package::PackageId;
use super::DepMetadata;

verus! {

/// One loaded dependency.
///
/// One is made for every package of the **transitive** dependency graph:
/// direct dependencies alone do not do, since the signatures in a
/// dependency's metadata may refer to types of its own dependencies (a
/// package that calls `greeter::theme() -> color::Rgb` without depending on
/// `color`). Only direct dependencies can start an import path, though (as
/// with Rust's extern prelude); [`Self::direct`] tells them apart.
#[derive(Clone)]
pub struct ExternalPackage {
    /// The package name, which is also what an import path starts with.
    pub ident: InternedIdent,
    /// The id assigned to the package in this build.
    pub pkg_id: PackageId,
    pub meta: Arc<DepMetadata>,
    /// Whether the package being built depends on it directly. When false,
    /// it is loaded to resolve symbols but cannot be named.
    pub direct: bool,
}

} // verus!
