//! What the attribute check reports.

use vstd::prelude::*;
use crate::span::Span;
use crate::sort::{sort_strs, sort_strings, string_views};
use crate::text::{push_str, string_of_str};
use super::Target;
use super::attr_names;
use super::table::{AttrShape, AttrValueKind, KnownAttr};

verus! {

#[derive(Debug)]
pub enum AttrError {
    /// A name that is not in the table.
    UnknownAttribute { name: String, span: Span },
    /// The attribute is not written in the shape the table declares
    /// (`[[lang(write)]]`, a list where a value is expected, and so on).
    InvalidShape { attr: KnownAttr, expected: AttrShape, span: Span },
    /// A list attribute has a key the table does not declare.
    UnknownKey { attr: KnownAttr, key: String, span: Span },
    /// A value of the wrong kind.
    InvalidValueKind {
        attr: KnownAttr,
        key: Option<String>,
        expected: AttrValueKind,
        found: AttrValueKind,
        span: Span,
    },
    /// A key that takes no value has one.
    UnexpectedValue { attr: KnownAttr, key: String, span: Span },
    /// A key that takes a value has none.
    MissingValue { attr: KnownAttr, key: String, span: Span },
    /// The attribute cannot be attached to this target.
    InvalidTarget { attr: KnownAttr, target: Target, span: Span },
    /// The same attribute twice on one definition.
    DuplicatedAttribute { attr: KnownAttr, first: Span, span: Span },
    /// A native definition without `[[native]]`. The parser builds native
    /// nodes from `{{ ... }}` bodies, and decides that by `[[native]]`, so
    /// this cannot happen; it is an invariant check that keeps a future
    /// parser change from breaking silently.
    MissingNativeAttribute { target: Target, span: Span },
    /// `[[native(arch = "...")]]` names no arch the compiler knows.
    UnknownArch { arch: String, span: Span },
}

/// The keys of a list shape, as plain values.
pub open spec fn keys_view(keys: Seq<(&'static str, Option<AttrValueKind>)>) -> Seq<(Seq<char>, Option<AttrValueKind>)> {
    keys.map_values(|k: (&'static str, Option<AttrValueKind>)| (k.0@, k.1))
}

/// An attribute shape as plain values.
pub ghost enum AttrShapeView {
    Word,
    Value(AttrValueKind),
    List(Seq<(Seq<char>, Option<AttrValueKind>)>),
}

pub open spec fn shape_view(s: AttrShape) -> AttrShapeView {
    match s {
        AttrShape::Word => AttrShapeView::Word,
        AttrShape::Value(k) => AttrShapeView::Value(k),
        AttrShape::List(keys) => AttrShapeView::List(keys_view(keys@)),
    }
}

/// An error as plain values.
pub ghost enum AttrErrorView {
    UnknownAttribute { name: Seq<char>, span: Span },
    InvalidShape { attr: KnownAttr, expected: AttrShapeView, span: Span },
    UnknownKey { attr: KnownAttr, key: Seq<char>, span: Span },
    InvalidValueKind {
        attr: KnownAttr,
        key: Option<Seq<char>>,
        expected: AttrValueKind,
        found: AttrValueKind,
        span: Span,
    },
    UnexpectedValue { attr: KnownAttr, key: Seq<char>, span: Span },
    MissingValue { attr: KnownAttr, key: Seq<char>, span: Span },
    InvalidTarget { attr: KnownAttr, target: Target, span: Span },
    DuplicatedAttribute { attr: KnownAttr, first: Span, span: Span },
    MissingNativeAttribute { target: Target, span: Span },
    UnknownArch { arch: Seq<char>, span: Span },
}

pub open spec fn error_view(e: AttrError) -> AttrErrorView {
    match e {
        AttrError::UnknownAttribute { name, span } => AttrErrorView::UnknownAttribute { name: name@, span },
        AttrError::InvalidShape { attr, expected, span } => AttrErrorView::InvalidShape {
            attr,
            expected: shape_view(expected),
            span,
        },
        AttrError::UnknownKey { attr, key, span } => AttrErrorView::UnknownKey { attr, key: key@, span },
        AttrError::InvalidValueKind { attr, key, expected, found, span } => AttrErrorView::InvalidValueKind {
            attr,
            key: match key {
                Some(k) => Some(k@),
                None => None,
            },
            expected,
            found,
            span,
        },
        AttrError::UnexpectedValue { attr, key, span } => AttrErrorView::UnexpectedValue { attr, key: key@, span },
        AttrError::MissingValue { attr, key, span } => AttrErrorView::MissingValue { attr, key: key@, span },
        AttrError::InvalidTarget { attr, target, span } => AttrErrorView::InvalidTarget { attr, target, span },
        AttrError::DuplicatedAttribute { attr, first, span } => AttrErrorView::DuplicatedAttribute {
            attr,
            first,
            span,
        },
        AttrError::MissingNativeAttribute { target, span } => AttrErrorView::MissingNativeAttribute {
            target,
            span,
        },
        AttrError::UnknownArch { arch, span } => AttrErrorView::UnknownArch { arch: arch@, span },
    }
}

pub open spec fn errors_view(es: Seq<AttrError>) -> Seq<AttrErrorView> {
    es.map_values(|e: AttrError| error_view(e))
}

/// The texts joined by `sep`.
pub open spec fn join_with(ss: Seq<Seq<char>>, sep: Seq<char>) -> Seq<char>
    decreases ss.len(),
{
    if ss.len() == 0 {
        Seq::empty()
    } else if ss.len() == 1 {
        ss[0]
    } else {
        join_with(ss.drop_last(), sep) + sep + ss.last()
    }
}

/// The names of the known attributes, in order, joined by `, `.
pub open spec fn known_attribute_list() -> Seq<char> {
    join_with(sort_strs(seq![KnownAttr::Native.spec_name(), KnownAttr::Lang.spec_name()]), ", "@)
}

/// How one key of a list attribute is written.
pub open spec fn key_hint(k: (Seq<char>, Option<AttrValueKind>)) -> Seq<char> {
    match k.1 {
        Some(kind) => k.0 + " = <"@ + kind.spec_name() + ">"@,
        None => k.0,
    }
}

pub open spec fn key_hints(keys: Seq<(Seq<char>, Option<AttrValueKind>)>) -> Seq<Seq<char>> {
    keys.map_values(|k: (Seq<char>, Option<AttrValueKind>)| key_hint(k))
}

/// How an attribute of this shape is written.
pub open spec fn spec_shape_hint(name: Seq<char>, shape: AttrShapeView) -> Seq<char> {
    match shape {
        AttrShapeView::Word => "`[["@ + name + "]]`"@,
        AttrShapeView::Value(kind) => "`[["@ + name + " = <"@ + kind.spec_name() + ">]]`"@,
        AttrShapeView::List(keys) => "`[["@ + name + "("@ + join_with(key_hints(keys), ", "@) + ")]]`"@,
    }
}

/// The one-line message of an error.
pub open spec fn error_message(e: AttrErrorView) -> Seq<char> {
    match e {
        AttrErrorView::UnknownAttribute { name, .. } => "unknown attribute `"@ + name
            + "` (known attributes: "@ + known_attribute_list() + ")"@,
        AttrErrorView::InvalidShape { attr, expected, .. } => "attribute `"@ + attr.spec_name()
            + "` must be written as "@ + spec_shape_hint(attr.spec_name(), expected),
        AttrErrorView::UnknownKey { attr, key, .. } => "attribute `"@ + attr.spec_name()
            + "` has no key `"@ + key + "`"@,
        AttrErrorView::InvalidValueKind { attr, key, expected, found, .. } => match key {
            Some(key) => "key `"@ + key + "` of attribute `"@ + attr.spec_name() + "` expects "@
                + expected.spec_name() + ", found "@ + found.spec_name(),
            None => "attribute `"@ + attr.spec_name() + "` expects "@ + expected.spec_name()
                + ", found "@ + found.spec_name(),
        },
        AttrErrorView::UnexpectedValue { attr, key, .. } => "key `"@ + key + "` of attribute `"@
            + attr.spec_name() + "` takes no value"@,
        AttrErrorView::MissingValue { attr, key, .. } => "key `"@ + key + "` of attribute `"@
            + attr.spec_name() + "` requires a value"@,
        AttrErrorView::InvalidTarget { attr, target, .. } => "attribute `"@ + attr.spec_name()
            + "` cannot be applied to "@ + target.spec_describe(),
        AttrErrorView::DuplicatedAttribute { attr, .. } => "attribute `"@ + attr.spec_name()
            + "` is applied more than once"@,
        AttrErrorView::MissingNativeAttribute { target, .. } => target.spec_describe()
            + " requires the `"@ + attr_names::Native@ + "` attribute"@,
        AttrErrorView::UnknownArch { arch, .. } => "unknown arch `"@ + arch + "`"@,
    }
}

/// Appends `ss` joined by `sep`.
fn push_joined_with(s: &mut String, ss: &Vec<String>, sep: &str)
    ensures
        final(s)@ == old(s)@ + join_with(string_views(ss@), sep@),
{
    let ghost sv = string_views(ss@);
    let mut i: usize = 0;
    assert(sv.take(0) =~= Seq::<Seq<char>>::empty());
    assert(s@ =~= old(s)@ + join_with(sv.take(0), sep@));
    while i < ss.len()
        invariant
            i <= ss@.len(),
            sv == string_views(ss@),
            s@ == old(s)@ + join_with(sv.take(i as int), sep@),
        decreases ss@.len() - i,
    {
        let ghost t = sv.take(i + 1);
        assert(t.drop_last() =~= sv.take(i as int));
        assert(t.last() == ss@[i as int]@);
        if i > 0 {
            push_str(s, sep);
        }
        push_str(s, ss[i].as_str());
        if i == 0 {
            assert(sv.take(0) =~= Seq::<Seq<char>>::empty());
        }
        assert(s@ =~= old(s)@ + join_with(t, sep@));
        i = i + 1;
    }
    assert(sv.take(sv.len() as int) =~= sv);
}

/// How an attribute of this shape is written.
fn shape_hint(name: &str, shape: &AttrShape) -> (r: String)
    ensures
        r@ == spec_shape_hint(name@, shape_view(*shape)),
{
    let mut s = string_of_str("`[[");
    push_str(&mut s, name);
    match shape {
        AttrShape::Word => {
            push_str(&mut s, "]]`");
        },
        AttrShape::Value(kind) => {
            push_str(&mut s, " = <");
            push_str(&mut s, kind.name());
            push_str(&mut s, ">]]`");
        },
        AttrShape::List(keys) => {
            let ghost kv = keys_view(keys@);
            let mut hints: Vec<String> = Vec::new();
            let mut i: usize = 0;
            while i < keys.len()
                invariant
                    i <= keys@.len(),
                    kv == keys_view(keys@),
                    string_views(hints@) == key_hints(kv).take(i as int),
                decreases keys@.len() - i,
            {
                let (key, kind) = keys[i];
                let mut h = string_of_str(key);
                match kind {
                    Some(kind) => {
                        push_str(&mut h, " = <");
                        push_str(&mut h, kind.name());
                        push_str(&mut h, ">");
                    },
                    None => {},
                }
                let ghost before = hints@;
                hints.push(h);
                proof {
                    assert(h@ == key_hint(kv[i as int]));
                    assert(string_views(hints@) =~= string_views(before).push(h@));
                    assert(key_hints(kv).take(i + 1) =~= key_hints(kv).take(i as int).push(h@));
                }
                i = i + 1;
            }
            assert(key_hints(kv).take(kv.len() as int) =~= key_hints(kv));
            push_str(&mut s, "(");
            push_joined_with(&mut s, &hints, ", ");
            push_str(&mut s, ")]]`");
        },
    }
    assert(s@ =~= spec_shape_hint(name@, shape_view(*shape)));
    s
}

impl AttrError {
    pub open spec fn spec_span(&self) -> Span {
        match self {
            AttrError::UnknownAttribute { span, .. } => *span,
            AttrError::InvalidShape { span, .. } => *span,
            AttrError::UnknownKey { span, .. } => *span,
            AttrError::InvalidValueKind { span, .. } => *span,
            AttrError::UnexpectedValue { span, .. } => *span,
            AttrError::MissingValue { span, .. } => *span,
            AttrError::InvalidTarget { span, .. } => *span,
            AttrError::DuplicatedAttribute { span, .. } => *span,
            AttrError::MissingNativeAttribute { span, .. } => *span,
            AttrError::UnknownArch { span, .. } => *span,
        }
    }

    pub fn span(&self) -> (r: &Span)
        ensures
            *r == self.spec_span(),
    {
        match self {
            AttrError::UnknownAttribute { span, .. } => span,
            AttrError::InvalidShape { span, .. } => span,
            AttrError::UnknownKey { span, .. } => span,
            AttrError::InvalidValueKind { span, .. } => span,
            AttrError::UnexpectedValue { span, .. } => span,
            AttrError::MissingValue { span, .. } => span,
            AttrError::InvalidTarget { span, .. } => span,
            AttrError::DuplicatedAttribute { span, .. } => span,
            AttrError::MissingNativeAttribute { span, .. } => span,
            AttrError::UnknownArch { span, .. } => span,
        }
    }

    /// The one-line message for people. Diagnostics with source excerpts
    /// are not rendered for attribute errors yet; this message stands in.
    pub fn message(&self) -> (r: String)
        ensures
            r@ == error_message(error_view(*self)),
    {
        let mut s = String::new();
        match self {
            AttrError::UnknownAttribute { name, .. } => {
                let all = KnownAttr::all();
                let mut known: Vec<String> = Vec::new();
                let mut i: usize = 0;
                while i < all.len()
                    invariant
                        i <= all@.len(),
                        all@ == seq![KnownAttr::Native, KnownAttr::Lang],
                        string_views(known@) == all@.take(i as int).map_values(|a: KnownAttr| a.spec_name()),
                    decreases all@.len() - i,
                {
                    let n = string_of_str(all[i].name());
                    let ghost before = known@;
                    known.push(n);
                    assert(string_views(known@) =~= string_views(before).push(n@));
                    assert(all@.take(i + 1).map_values(|a: KnownAttr| a.spec_name()) =~= all@.take(
                        i as int,
                    ).map_values(|a: KnownAttr| a.spec_name()).push(all@[i as int].spec_name()));
                    i = i + 1;
                }
                assert(all@.take(2).map_values(|a: KnownAttr| a.spec_name()) =~= seq![
                    KnownAttr::Native.spec_name(),
                    KnownAttr::Lang.spec_name(),
                ]);
                let known = sort_strings(known);
                push_str(&mut s, "unknown attribute `");
                push_str(&mut s, name.as_str());
                push_str(&mut s, "` (known attributes: ");
                push_joined_with(&mut s, &known, ", ");
                push_str(&mut s, ")");
            },
            AttrError::InvalidShape { attr, expected, .. } => {
                push_str(&mut s, "attribute `");
                push_str(&mut s, attr.name());
                push_str(&mut s, "` must be written as ");
                let hint = shape_hint(attr.name(), expected);
                push_str(&mut s, hint.as_str());
            },
            AttrError::UnknownKey { attr, key, .. } => {
                push_str(&mut s, "attribute `");
                push_str(&mut s, attr.name());
                push_str(&mut s, "` has no key `");
                push_str(&mut s, key.as_str());
                push_str(&mut s, "`");
            },
            AttrError::InvalidValueKind { attr, key, expected, found, .. } => {
                match key {
                    Some(key) => {
                        push_str(&mut s, "key `");
                        push_str(&mut s, key.as_str());
                        push_str(&mut s, "` of attribute `");
                        push_str(&mut s, attr.name());
                        push_str(&mut s, "` expects ");
                    },
                    None => {
                        push_str(&mut s, "attribute `");
                        push_str(&mut s, attr.name());
                        push_str(&mut s, "` expects ");
                    },
                }
                push_str(&mut s, expected.name());
                push_str(&mut s, ", found ");
                push_str(&mut s, found.name());
            },
            AttrError::UnexpectedValue { attr, key, .. } => {
                push_str(&mut s, "key `");
                push_str(&mut s, key.as_str());
                push_str(&mut s, "` of attribute `");
                push_str(&mut s, attr.name());
                push_str(&mut s, "` takes no value");
            },
            AttrError::MissingValue { attr, key, .. } => {
                push_str(&mut s, "key `");
                push_str(&mut s, key.as_str());
                push_str(&mut s, "` of attribute `");
                push_str(&mut s, attr.name());
                push_str(&mut s, "` requires a value");
            },
            AttrError::InvalidTarget { attr, target, .. } => {
                push_str(&mut s, "attribute `");
                push_str(&mut s, attr.name());
                push_str(&mut s, "` cannot be applied to ");
                push_str(&mut s, target.describe());
            },
            AttrError::DuplicatedAttribute { attr, .. } => {
                push_str(&mut s, "attribute `");
                push_str(&mut s, attr.name());
                push_str(&mut s, "` is applied more than once");
            },
            AttrError::MissingNativeAttribute { target, .. } => {
                push_str(&mut s, target.describe());
                push_str(&mut s, " requires the `");
                push_str(&mut s, attr_names::Native);
                push_str(&mut s, "` attribute");
            },
            AttrError::UnknownArch { arch, .. } => {
                push_str(&mut s, "unknown arch `");
                push_str(&mut s, arch.as_str());
                push_str(&mut s, "`");
            },
        }
        assert(s@ =~= error_message(error_view(*self)));
        s
    }
}

} // verus!
