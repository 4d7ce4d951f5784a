//! The names of the known attributes.

use vstd::prelude::*;

verus! {

#[allow(non_upper_case_globals)]
pub const Native: &'static str = "native";

#[allow(non_upper_case_globals)]
pub const Lang: &'static str = "lang";

} // verus!
