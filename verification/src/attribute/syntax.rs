//! The syntax of attributes: what was written, with no knowledge of which
//! attributes exist. The parser records whatever it reads here, unknown
//! names included.

use vstd::prelude::*;
use crate::ident::{IdentInterner, InternedIdent, str_eq};
use crate::span::Span;

verus! {

/// An identifier as written: its interned text and where it stands.
#[derive(Debug, Clone, Copy, PartialEq, Eq, Structural)]
pub struct Ident {
    pub id: InternedIdent,
    pub span: Span,
}

#[derive(Debug, Clone, Copy, PartialEq, Eq, Structural)]
pub struct IntegerLiteral {
    pub val: u64,
    pub span: Span,
}

#[derive(Debug, Clone, Copy, PartialEq, Eq, Structural)]
pub struct BoolLiteral {
    pub val: bool,
    pub span: Span,
}

#[derive(Debug, Clone, PartialEq, Eq)]
pub struct StringLiteral {
    pub val: String,
    pub span: Span,
}

/// One attribute.
///
///  ```biwa
///  [[native(arch="typescript")]]
///  ^^^^^^^^^^^^^^^^^^^^^^^^^^^^^ span
///    ^^^^^^                      name
///           ^^^^^^^^^^^^^^^^^^   body (AttrBody::List)
///  ```
#[derive(Debug, Clone)]
pub struct Attribute {
    pub name: Ident,
    pub body: AttrBody,
    pub span: Span,
}

/// The three shapes an attribute is written in.
#[derive(Debug, Clone)]
pub enum AttrBody {
    /// No argument: `[[foo]]`.
    Word,
    /// One value: `[[lang="write"]]`.
    Value(AttrValue),
    /// Keyed arguments: `[[native(arch="typescript")]]`.
    List(Vec<AttrArg>),
}

/// An argument of `AttrBody::List`; its value may be left out (`[[foo(bar)]]`).
#[derive(Debug, Clone)]
pub struct AttrArg {
    pub key: Ident,
    pub val: Option<AttrValue>,
    pub span: Span,
}

#[derive(Debug, Clone, PartialEq, Eq)]
pub enum AttrValue {
    Integer(IntegerLiteral),
    String(StringLiteral),
    Bool(BoolLiteral),
}

impl AttrValue {
    pub open spec fn spec_span(&self) -> Span {
        match self {
            AttrValue::Integer(l) => l.span,
            AttrValue::String(l) => l.span,
            AttrValue::Bool(l) => l.span,
        }
    }

    pub fn span(&self) -> (r: &Span)
        ensures
            *r == self.spec_span(),
    {
        match self {
            AttrValue::Integer(l) => &l.span,
            AttrValue::String(l) => &l.span,
            AttrValue::Bool(l) => &l.span,
        }
    }

    pub open spec fn spec_as_str(&self) -> Option<Seq<char>> {
        match self {
            AttrValue::String(l) => Some(l.val@),
            _ => None,
        }
    }

    /// The text of a string value.
    pub fn as_str(&self) -> (r: Option<&str>)
        ensures
            match self.spec_as_str() {
                Some(t) => r matches Some(s) && s@ == t,
                None => r is None,
            },
    {
        match self {
            AttrValue::String(l) => Some(l.val.as_str()),
            _ => None,
        }
    }
}

/// The attributes of one definition. Whether they were checked is not
/// recorded here; lookups by name go through the typed accessors of the
/// check, this only offers what walking them needs.
#[derive(Debug, Clone, Default)]
pub struct Attrs(pub Vec<Attribute>);

/// The index of the first attribute named `name`, by the interner's texts.
pub open spec fn find_attr(attrs: Seq<Attribute>, name: Seq<char>, iv: Seq<Seq<char>>) -> Option<int>
    decreases attrs.len(),
{
    if attrs.len() == 0 {
        None
    } else if (attrs[0].name.id.0 as int) < iv.len() && iv[attrs[0].name.id.0 as int] == name {
        Some(0)
    } else {
        match find_attr(attrs.drop_first(), name, iv) {
            Some(i) => Some(i + 1),
            None => None,
        }
    }
}

impl Attrs {
    pub fn new(attrs: Vec<Attribute>) -> (r: Self)
        ensures
            r.0@ == attrs@,
    {
        Attrs(attrs)
    }

    pub fn empty() -> (r: Self)
        ensures
            r.0@ == Seq::<Attribute>::empty(),
    {
        Attrs(Vec::new())
    }

    /// The attributes, in order.
    pub fn iter(&self) -> (r: &[Attribute])
        ensures
            r@ == self.0@,
    {
        self.0.as_slice()
    }

    pub fn is_empty(&self) -> (r: bool)
        ensures
            r == (self.0@.len() == 0),
    {
        self.0.len() == 0
    }

    /// The first attribute named `name`; when one is written twice, the
    /// check reports the duplicate.
    pub fn find(&self, name: &str, interner: &IdentInterner) -> (r: Option<&Attribute>)
        ensures
            match find_attr(self.0@, name@, interner@) {
                Some(i) => r matches Some(a) && *a == self.0@[i],
                None => r is None,
            },
    {
        let mut i: usize = 0;
        assert(self.0@.skip(0) =~= self.0@);
        while i < self.0.len()
            invariant
                i <= self.0@.len(),
                find_attr(self.0@, name@, interner@) == match find_attr(self.0@.skip(i as int), name@, interner@) {
                    Some(j) => Some(j + i),
                    None => None::<int>,
                },
            decreases self.0@.len() - i,
        {
            let a = &self.0[i];
            proof {
                let rest = self.0@.skip(i as int);
                assert(rest[0] == self.0@[i as int]);
                assert(rest.drop_first() =~= self.0@.skip(i + 1));
            }
            match interner.get_str(&a.name.id) {
                Some(s) => {
                    if str_eq(s, name) {
                        return Some(a);
                    }
                },
                None => {},
            }
            i = i + 1;
        }
        None
    }

    pub fn has(&self, name: &str, interner: &IdentInterner) -> (r: bool)
        ensures
            r == find_attr(self.0@, name@, interner@) is Some,
    {
        self.find(name, interner).is_some()
    }
}

} // verus!
