//! Attributes: which exist, what they take, and where they may stand.
//!
//! The syntax of attributes only records what was written; this module is
//! the one place that knows which attributes exist and checks them. The
//! check runs between parsing and lowering, before definitions are
//! collected, so later passes can take the shape of attributes as sound.

pub mod attr_names;
pub mod syntax;
pub mod table;
pub mod error;
pub mod check;

use vstd::prelude::*;
use crate::text::string_of_str;

verus! {

/// What an attribute is attached to. The parser builds `[[native]] fn` as a
/// native function node, so at check time the kind of the node is the
/// target.
#[derive(Debug, Clone, Copy, PartialEq, Eq, Structural)]
pub enum Target {
    Fn,
    NativeFn,
    Method,
    NativeMethod,
    Struct,
    Enum,
    TypeAlias,
    NativeTypeAlias,
    NativeCode,
    Scene,
}

impl Target {
    pub open spec fn spec_describe(self) -> Seq<char> {
        match self {
            Target::Fn => "a function"@,
            Target::NativeFn => "a native function"@,
            Target::Method => "a method"@,
            Target::NativeMethod => "a native method"@,
            Target::Struct => "a struct"@,
            Target::Enum => "an enum"@,
            Target::TypeAlias => "a type alias"@,
            Target::NativeTypeAlias => "a native type alias"@,
            Target::NativeCode => "a native code block"@,
            Target::Scene => "a scene"@,
        }
    }

    pub fn describe(&self) -> (r: &'static str)
        ensures
            r@ == self.spec_describe(),
    {
        match self {
            Target::Fn => "a function",
            Target::NativeFn => "a native function",
            Target::Method => "a method",
            Target::NativeMethod => "a native method",
            Target::Struct => "a struct",
            Target::Enum => "an enum",
            Target::TypeAlias => "a type alias",
            Target::NativeTypeAlias => "a native type alias",
            Target::NativeCode => "a native code block",
            Target::Scene => "a scene",
        }
    }

    pub open spec fn spec_is_native(self) -> bool {
        self is NativeFn || self is NativeMethod || self is NativeTypeAlias || self is NativeCode
    }

    /// Whether the target carries a native implementation; such a target
    /// must have `[[native]]`.
    pub fn is_native(&self) -> (r: bool)
        ensures
            r == self.spec_is_native(),
    {
        match self {
            Target::NativeFn | Target::NativeMethod | Target::NativeTypeAlias | Target::NativeCode => true,
            _ => false,
        }
    }
}

} // verus!
