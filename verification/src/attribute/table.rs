//! The table of known attributes: for each, its name, the shape it is
//! written in and the targets it may be attached to.

use vstd::prelude::*;
use crate::ident::str_eq;
use super::Target;
use super::attr_names;
use super::syntax::AttrValue;

verus! {

/// The shape an attribute is written in.
#[derive(Debug, Clone, Copy, PartialEq, Eq)]
pub enum AttrShape {
    /// `[[foo]]`
    Word,
    /// `[[foo = "bar"]]`
    Value(AttrValueKind),
    /// `[[foo(a = 1, b)]]`: each entry is a key and the kind of its value;
    /// a key whose kind is `None` takes no value (`[[foo(bar)]]`).
    List(&'static [(&'static str, Option<AttrValueKind>)]),
}

#[derive(Debug, Clone, Copy, PartialEq, Eq, Structural)]
pub enum AttrValueKind {
    Integer,
    String,
    Bool,
}

impl AttrValueKind {
    pub open spec fn spec_name(self) -> Seq<char> {
        match self {
            AttrValueKind::Integer => "integer"@,
            AttrValueKind::String => "string"@,
            AttrValueKind::Bool => "boolean"@,
        }
    }

    pub fn name(&self) -> (r: &'static str)
        ensures
            r@ == self.spec_name(),
    {
        match self {
            AttrValueKind::Integer => "integer",
            AttrValueKind::String => "string",
            AttrValueKind::Bool => "boolean",
        }
    }

    /// The kind of a written value.
    pub fn of(val: &AttrValue) -> (r: AttrValueKind)
        ensures
            r == super::check::value_kind_of(*val),
    {
        match val {
            AttrValue::Integer(_) => AttrValueKind::Integer,
            AttrValue::String(_) => AttrValueKind::String,
            AttrValue::Bool(_) => AttrValueKind::Bool,
        }
    }
}

/// The known attributes.
#[derive(Debug, Clone, Copy, PartialEq, Eq, Hash, Structural)]
pub enum KnownAttr {
    /// A native implementation, the one attribute that changes the grammar:
    /// the parser decides by it whether a `{{ ... }}` native body follows,
    /// so only native targets can carry it.
    ///
    ///  ```biwa
    ///  [[native(arch="typescript")]]
    ///  fn write(msg: String) {{ showMessage(msg); }}
    ///  ```
    Native,
    /// A lang item declaration. Whether the key names a real lang item, and
    /// whether the kind and generics of the target fit it, is checked where
    /// lang items are collected; here only the shape (one string value) and
    /// that it stands on a definition.
    ///
    ///  ```biwa
    ///  [[lang="game"]]
    ///  struct Game[C, S] { ... }
    ///  ```
    Lang,
}

impl KnownAttr {
    pub open spec fn spec_name(self) -> Seq<char> {
        match self {
            KnownAttr::Native => attr_names::Native@,
            KnownAttr::Lang => attr_names::Lang@,
        }
    }

    pub open spec fn spec_from_name(name: Seq<char>) -> Option<KnownAttr> {
        if name == attr_names::Native@ {
            Some(KnownAttr::Native)
        } else if name == attr_names::Lang@ {
            Some(KnownAttr::Lang)
        } else {
            None
        }
    }

    pub fn from_name(name: &str) -> (r: Option<KnownAttr>)
        ensures
            r == Self::spec_from_name(name@),
    {
        if str_eq(name, attr_names::Native) {
            Some(KnownAttr::Native)
        } else if str_eq(name, attr_names::Lang) {
            Some(KnownAttr::Lang)
        } else {
            None
        }
    }

    pub fn name(&self) -> (r: &'static str)
        ensures
            r@ == self.spec_name(),
    {
        match self {
            KnownAttr::Native => attr_names::Native,
            KnownAttr::Lang => attr_names::Lang,
        }
    }

    /// Every known attribute.
    pub fn all() -> (r: &'static [KnownAttr])
        ensures
            r@ == seq![KnownAttr::Native, KnownAttr::Lang],
    {
        let a: &'static [KnownAttr] = &[KnownAttr::Native, KnownAttr::Lang];
        assert(a@ =~= seq![KnownAttr::Native, KnownAttr::Lang]);
        a
    }

    /// The shape the attribute is written in: `[[native(arch = <string>)]]`,
    /// `[[lang = <string>]]`.
    pub fn shape(&self) -> (r: AttrShape)
        ensures
            match self {
                KnownAttr::Native => r matches AttrShape::List(keys) && keys@.len() == 1 && keys@[0].0@
                    == "arch"@ && keys@[0].1 == Some(AttrValueKind::String),
                KnownAttr::Lang => r == AttrShape::Value(AttrValueKind::String),
            },
    {
        match self {
            KnownAttr::Native => {
                let keys: &'static [(&'static str, Option<AttrValueKind>)] = &[
                    ("arch", Some(AttrValueKind::String)),
                ];
                assert(keys@.len() == 1);
                AttrShape::List(keys)
            },
            KnownAttr::Lang => AttrShape::Value(AttrValueKind::String),
        }
    }

    pub open spec fn spec_targets(self) -> Seq<Target> {
        match self {
            KnownAttr::Native => seq![
                Target::NativeFn,
                Target::NativeMethod,
                Target::NativeTypeAlias,
                Target::NativeCode,
            ],
            KnownAttr::Lang => seq![
                Target::Struct,
                Target::Enum,
                Target::TypeAlias,
                Target::NativeTypeAlias,
                Target::Fn,
                Target::NativeFn,
                Target::Method,
                Target::NativeMethod,
            ],
        }
    }

    /// The targets this attribute may be attached to.
    pub fn targets(&self) -> (r: &'static [Target])
        ensures
            r@ == self.spec_targets(),
    {
        match self {
            KnownAttr::Native => {
                let t: &'static [Target] = &[
                    Target::NativeFn,
                    Target::NativeMethod,
                    Target::NativeTypeAlias,
                    Target::NativeCode,
                ];
                assert(t@ =~= self.spec_targets());
                t
            },
            KnownAttr::Lang => {
                let t: &'static [Target] = &[
                    Target::Struct,
                    Target::Enum,
                    Target::TypeAlias,
                    Target::NativeTypeAlias,
                    Target::Fn,
                    Target::NativeFn,
                    Target::Method,
                    Target::NativeMethod,
                ];
                assert(t@ =~= self.spec_targets());
                t
            },
        }
    }

    pub fn accepts(&self, target: Target) -> (r: bool)
        ensures
            r == self.spec_targets().contains(target),
    {
        let ts = self.targets();
        let mut i: usize = 0;
        while i < ts.len()
            invariant
                i <= ts@.len(),
                ts@ == self.spec_targets(),
                forall|k: int| 0 <= k < i ==> ts@[k] != target,
            decreases ts@.len() - i,
        {
            if ts[i] == target {
                return true;
            }
            i = i + 1;
        }
        false
    }
}

} // verus!
