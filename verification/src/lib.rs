//! Verified core of the biwa compiler: stable hashing, string-literal
//! escapes, package and module naming, build fingerprints and the
//! `.biwameta` dependency-metadata format.

pub mod le_bytes;
pub mod hash;
pub mod text;
pub mod escape;
pub mod decimal;
pub mod regex_match;
pub mod package;
pub mod module;
pub mod ident;
pub mod src;
pub mod span;
pub mod target;
pub mod sort;
pub mod fingerprint;
pub mod dependency_metadata;
pub mod attribute;
pub mod driver;
pub mod cli;
pub mod dependency_loader;
pub mod ast;
pub mod structure;
pub mod fetch;
pub mod diagnostic;
pub mod mangle;
pub mod wasm_text;
pub mod wasm_module;
pub mod typescript;
