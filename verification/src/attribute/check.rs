//! Checking the attributes of a definition, and reading checked ones.

use vstd::prelude::*;
use crate::ident::{IdentInterner, str_eq};
use crate::span::Span;
use crate::text::string_of_str;
use super::Target;
use super::attr_names;
use super::error::{AttrError, AttrErrorView, AttrShapeView, error_view, errors_view};
use super::syntax::{AttrArg, AttrBody, AttrValue, Attribute, Attrs, find_attr};
use super::table::{AttrShape, AttrValueKind, KnownAttr};

verus! {

/// The shape the table declares for an attribute, as plain values.
pub open spec fn known_shape(k: KnownAttr) -> AttrShapeView {
    match k {
        KnownAttr::Native => AttrShapeView::List(seq![("arch"@, Some(AttrValueKind::String))]),
        KnownAttr::Lang => AttrShapeView::Value(AttrValueKind::String),
    }
}

pub open spec fn value_kind_of(v: AttrValue) -> AttrValueKind {
    match v {
        AttrValue::Integer(_) => AttrValueKind::Integer,
        AttrValue::String(_) => AttrValueKind::String,
        AttrValue::Bool(_) => AttrValueKind::Bool,
    }
}

/// The error for a value of another kind than expected, if any.
pub open spec fn value_kind_errors(
    known: KnownAttr,
    key: Option<Seq<char>>,
    expected: AttrValueKind,
    val: AttrValue,
) -> Seq<AttrErrorView> {
    if value_kind_of(val) != expected {
        seq![
            AttrErrorView::InvalidValueKind {
                attr: known,
                key,
                expected,
                found: value_kind_of(val),
                span: val.spec_span(),
            },
        ]
    } else {
        Seq::empty()
    }
}

/// The value kind the table gives `key`, if it declares the key.
pub open spec fn find_key(keys: Seq<(Seq<char>, Option<AttrValueKind>)>, key: Seq<char>) -> Option<
    Option<AttrValueKind>,
>
    decreases keys.len(),
{
    if keys.len() == 0 {
        None
    } else if keys[0].0 == key {
        Some(keys[0].1)
    } else {
        find_key(keys.drop_first(), key)
    }
}

/// The errors of one argument of a list attribute.
pub open spec fn arg_errors(
    known: KnownAttr,
    keys: Seq<(Seq<char>, Option<AttrValueKind>)>,
    arg: AttrArg,
    iv: Seq<Seq<char>>,
) -> Seq<AttrErrorView> {
    if arg.key.id.0 as int >= iv.len() {
        Seq::empty()
    } else {
        let key = iv[arg.key.id.0 as int];
        match find_key(keys, key) {
            None => seq![AttrErrorView::UnknownKey { attr: known, key, span: arg.span }],
            Some(expected) => match (expected, arg.val) {
                (Some(kind), Some(val)) => value_kind_errors(known, Some(key), kind, val),
                (Some(_), None) => seq![AttrErrorView::MissingValue { attr: known, key, span: arg.span }],
                (None, Some(val)) => seq![
                    AttrErrorView::UnexpectedValue { attr: known, key, span: val.spec_span() },
                ],
                (None, None) => Seq::empty(),
            },
        }
    }
}

pub open spec fn args_errors(
    known: KnownAttr,
    keys: Seq<(Seq<char>, Option<AttrValueKind>)>,
    args: Seq<AttrArg>,
    iv: Seq<Seq<char>>,
) -> Seq<AttrErrorView>
    decreases args.len(),
{
    if args.len() == 0 {
        Seq::empty()
    } else {
        args_errors(known, keys, args.drop_last(), iv) + arg_errors(known, keys, args.last(), iv)
    }
}

/// The errors of an attribute written in another shape than declared, or
/// with wrong keys or values.
pub open spec fn shape_errors(known: KnownAttr, attr: Attribute, iv: Seq<Seq<char>>) -> Seq<AttrErrorView> {
    match (known_shape(known), attr.body) {
        (AttrShapeView::Word, AttrBody::Word) => Seq::empty(),
        (AttrShapeView::Value(kind), AttrBody::Value(val)) => value_kind_errors(known, None, kind, val),
        (AttrShapeView::List(keys), AttrBody::List(args)) => args_errors(known, keys, args@, iv),
        _ => seq![AttrErrorView::InvalidShape { attr: known, expected: known_shape(known), span: attr.span }],
    }
}

/// Whether the compiler knows an arch by this name.
pub open spec fn known_arch(name: Seq<char>) -> bool {
    name == crate::target::typescript_name() || name == crate::target::wasm_name()
}

pub open spec fn arg_arch_errors(arg: AttrArg, iv: Seq<Seq<char>>) -> Seq<AttrErrorView> {
    if (arg.key.id.0 as int) < iv.len() && iv[arg.key.id.0 as int] == "arch"@ {
        match arg.val {
            Some(val) => match val.spec_as_str() {
                Some(name) => if !known_arch(name) {
                    seq![AttrErrorView::UnknownArch { arch: name, span: val.spec_span() }]
                } else {
                    Seq::empty()
                },
                None => Seq::empty(),
            },
            None => Seq::empty(),
        }
    } else {
        Seq::empty()
    }
}

pub open spec fn args_arch_errors(args: Seq<AttrArg>, iv: Seq<Seq<char>>) -> Seq<AttrErrorView>
    decreases args.len(),
{
    if args.len() == 0 {
        Seq::empty()
    } else {
        args_arch_errors(args.drop_last(), iv) + arg_arch_errors(args.last(), iv)
    }
}

/// The errors for arches of `[[native(arch = "...")]]` the compiler does not
/// know.
pub open spec fn arch_errors(attr: Attribute, iv: Seq<Seq<char>>) -> Seq<AttrErrorView> {
    match attr.body {
        AttrBody::List(args) => args_arch_errors(args@, iv),
        _ => Seq::empty(),
    }
}

/// Where an attribute was first seen on the definition.
pub open spec fn first_seen(seen: Seq<(KnownAttr, Span)>, k: KnownAttr) -> Option<Span>
    decreases seen.len(),
{
    if seen.len() == 0 {
        None
    } else if seen[0].0 == k {
        Some(seen[0].1)
    } else {
        first_seen(seen.drop_first(), k)
    }
}

/// The attributes seen and the errors found, after one more attribute.
pub open spec fn check_step(
    seen: Seq<(KnownAttr, Span)>,
    errs: Seq<AttrErrorView>,
    attr: Attribute,
    target: Target,
    iv: Seq<Seq<char>>,
) -> (Seq<(KnownAttr, Span)>, Seq<AttrErrorView>) {
    if attr.name.id.0 as int >= iv.len() {
        (seen, errs)
    } else {
        let name = iv[attr.name.id.0 as int];
        match KnownAttr::spec_from_name(name) {
            None => (seen, errs.push(AttrErrorView::UnknownAttribute { name, span: attr.span })),
            Some(known) => {
                let seen2 = match first_seen(seen, known) {
                    Some(_) => seen,
                    None => seen.push((known, attr.span)),
                };
                let errs2 = match first_seen(seen, known) {
                    Some(first) => errs.push(
                        AttrErrorView::DuplicatedAttribute { attr: known, first, span: attr.span },
                    ),
                    None => errs,
                };
                if !known.spec_targets().contains(target) {
                    (
                        seen2,
                        errs2.push(AttrErrorView::InvalidTarget { attr: known, target, span: attr.span }),
                    )
                } else {
                    let errs3 = errs2 + shape_errors(known, attr, iv);
                    (
                        seen2,
                        if known == KnownAttr::Native {
                            errs3 + arch_errors(attr, iv)
                        } else {
                            errs3
                        },
                    )
                }
            },
        }
    }
}

pub open spec fn check_fold(attrs: Seq<Attribute>, target: Target, iv: Seq<Seq<char>>) -> (
    Seq<(KnownAttr, Span)>,
    Seq<AttrErrorView>,
)
    decreases attrs.len(),
{
    if attrs.len() == 0 {
        (Seq::empty(), Seq::empty())
    } else {
        let (seen, errs) = check_fold(attrs.drop_last(), target, iv);
        check_step(seen, errs, attrs.last(), target, iv)
    }
}

/// What checking the attributes of one definition reports, in order.
pub open spec fn check_errors(attrs: Seq<Attribute>, target: Target, target_span: Span, iv: Seq<Seq<char>>) -> Seq<
    AttrErrorView,
> {
    let (seen, errs) = check_fold(attrs, target, iv);
    if target.spec_is_native() && first_seen(seen, KnownAttr::Native) is None {
        errs.push(AttrErrorView::MissingNativeAttribute { target, span: target_span })
    } else {
        errs
    }
}

proof fn lemma_errors_view_push(v: Seq<AttrError>, e: AttrError)
    ensures
        errors_view(v.push(e)) == errors_view(v).push(error_view(e)),
{
    assert(errors_view(v.push(e)) =~= errors_view(v).push(error_view(e)));
}

fn push_error(errors: &mut Vec<AttrError>, e: AttrError)
    ensures
        errors_view(final(errors)@) == errors_view(old(errors)@).push(error_view(e)),
{
    let ghost before = errors@;
    errors.push(e);
    proof {
        lemma_errors_view_push(before, e);
    }
}

fn check_value_kind(
    known: KnownAttr,
    key: Option<&str>,
    expected: AttrValueKind,
    val: &AttrValue,
    errors: &mut Vec<AttrError>,
)
    ensures
        errors_view(final(errors)@) == errors_view(old(errors)@) + value_kind_errors(
            known,
            match key {
                Some(k) => Some(k@),
                None => None,
            },
            expected,
            *val,
        ),
{
    let found = AttrValueKind::of(val);
    if found != expected {
        let key = match key {
            Some(k) => Some(string_of_str(k)),
            None => None,
        };
        push_error(
            errors,
            AttrError::InvalidValueKind { attr: known, key, expected, found, span: *val.span() },
        );
    } else {
        assert(errors_view(errors@) =~= errors_view(old(errors)@) + Seq::<AttrErrorView>::empty());
    }
}

/// The value kind the table gives `key`.
fn find_key_exec(keys: &[(&'static str, Option<AttrValueKind>)], key: &str) -> (r: Option<Option<AttrValueKind>>)
    ensures
        r == find_key(super::error::keys_view(keys@), key@),
{
    let ghost kv = super::error::keys_view(keys@);
    let mut i: usize = 0;
    assert(kv.skip(0) =~= kv);
    while i < keys.len()
        invariant
            i <= keys@.len(),
            kv == super::error::keys_view(keys@),
            find_key(kv, key@) == find_key(kv.skip(i as int), key@),
        decreases keys@.len() - i,
    {
        proof {
            let rest = kv.skip(i as int);
            assert(rest[0] == (keys@[i as int].0@, keys@[i as int].1));
            assert(rest.drop_first() =~= kv.skip(i + 1));
        }
        if str_eq(keys[i].0, key) {
            return Some(keys[i].1);
        }
        i = i + 1;
    }
    None
}

fn check_shape(known: KnownAttr, attr: &Attribute, interner: &IdentInterner, errors: &mut Vec<AttrError>)
    ensures
        errors_view(final(errors)@) == errors_view(old(errors)@) + shape_errors(known, *attr, interner@),
{
    let expected = known.shape();
    match (&expected, &attr.body) {
        (AttrShape::Word, AttrBody::Word) => {
            assert(errors_view(errors@) =~= errors_view(old(errors)@) + Seq::<AttrErrorView>::empty());
        },
        (AttrShape::Value(kind), AttrBody::Value(val)) => {
            check_value_kind(known, None, *kind, val, errors);
        },
        (AttrShape::List(keys), AttrBody::List(args)) => {
            let ghost kv = super::error::keys_view(keys@);
            assert(kv =~= seq![("arch"@, Some(AttrValueKind::String))]);
            let mut i: usize = 0;
            assert(args@.take(0) =~= Seq::<AttrArg>::empty());
            assert(errors_view(errors@) =~= errors_view(old(errors)@) + args_errors(known, kv, args@.take(0), interner@));
            while i < args.len()
                invariant
                    i <= args@.len(),
                    kv == super::error::keys_view(keys@),
                    errors_view(errors@) == errors_view(old(errors)@) + args_errors(known, kv, args@.take(i as int), interner@),
                decreases args@.len() - i,
            {
                let ghost e0 = errors_view(errors@);
                let arg = &args[i];
                proof {
                    let t = args@.take(i + 1);
                    assert(t.drop_last() =~= args@.take(i as int));
                    assert(t.last() == *arg);
                }
                match interner.get_str(&arg.key.id) {
                    None => {
                        assert(e0 + arg_errors(known, kv, *arg, interner@) =~= e0);
                    },
                    Some(key) => {
                        match find_key_exec(keys, key) {
                            None => {
                                push_error(
                                    errors,
                                    AttrError::UnknownKey { attr: known, key: string_of_str(key), span: arg.span },
                                );
                            },
                            Some(expected_kind) => match (expected_kind, &arg.val) {
                                (Some(kind), Some(val)) => {
                                    check_value_kind(known, Some(key), kind, val, errors);
                                },
                                (Some(_), None) => {
                                    push_error(
                                        errors,
                                        AttrError::MissingValue { attr: known, key: string_of_str(key), span: arg.span },
                                    );
                                },
                                (None, Some(val)) => {
                                    push_error(
                                        errors,
                                        AttrError::UnexpectedValue {
                                            attr: known,
                                            key: string_of_str(key),
                                            span: *val.span(),
                                        },
                                    );
                                },
                                (None, None) => {
                                    assert(e0 + arg_errors(known, kv, *arg, interner@) =~= e0);
                                },
                            },
                        }
                    },
                }
                assert(errors_view(errors@) =~= errors_view(old(errors)@) + args_errors(
                    known,
                    kv,
                    args@.take(i + 1),
                    interner@,
                ));
                i = i + 1;
            }
            assert(args@.take(args@.len() as int) =~= args@);
        },
        _ => {
            push_error(errors, AttrError::InvalidShape { attr: known, expected, span: attr.span });
            proof {
                assert(super::error::shape_view(expected) == known_shape(known)) by {
                    if let AttrShape::List(keys) = expected {
                        assert(super::error::keys_view(keys@) =~= seq![("arch"@, Some(AttrValueKind::String))]);
                    }
                }
            }
        },
    }
}

/// Checks that the arch of `[[native(arch = "...")]]` is one the compiler
/// knows: any of all the targets, not only those this build can generate
/// (std's `arch = "wasm"` must be sound in a TypeScript-only build).
fn check_arch(attr: &Attribute, interner: &IdentInterner, errors: &mut Vec<AttrError>)
    ensures
        errors_view(final(errors)@) == errors_view(old(errors)@) + arch_errors(*attr, interner@),
{
    let args = match &attr.body {
        AttrBody::List(args) => args,
        _ => {
            assert(errors_view(errors@) =~= errors_view(old(errors)@) + Seq::<AttrErrorView>::empty());
            return;
        },
    };
    let mut i: usize = 0;
    assert(args@.take(0) =~= Seq::<AttrArg>::empty());
    assert(errors_view(errors@) =~= errors_view(old(errors)@) + args_arch_errors(args@.take(0), interner@));
    while i < args.len()
        invariant
            i <= args@.len(),
            errors_view(errors@) == errors_view(old(errors)@) + args_arch_errors(args@.take(i as int), interner@),
        decreases args@.len() - i,
    {
        let ghost e0 = errors_view(errors@);
        let arg = &args[i];
        proof {
            let t = args@.take(i + 1);
            assert(t.drop_last() =~= args@.take(i as int));
            assert(t.last() == *arg);
            reveal_strlit("arch");
        }
        let is_arch = match interner.get_str(&arg.key.id) {
            Some(k) => str_eq(k, "arch"),
            None => false,
        };
        if is_arch {
            match &arg.val {
                Some(val) => match val.as_str() {
                    Some(name) => {
                        if crate::target::Target::from_name(name).is_none() {
                            push_error(errors, AttrError::UnknownArch { arch: string_of_str(name), span: *val.span() });
                        } else {
                            assert(e0 + arg_arch_errors(*arg, interner@) =~= e0);
                        }
                    },
                    None => {
                        assert(e0 + arg_arch_errors(*arg, interner@) =~= e0);
                    },
                },
                None => {
                    assert(e0 + arg_arch_errors(*arg, interner@) =~= e0);
                },
            }
        } else {
            assert(e0 + arg_arch_errors(*arg, interner@) =~= e0);
        }
        assert(errors_view(errors@) =~= errors_view(old(errors)@) + args_arch_errors(args@.take(i + 1), interner@));
        i = i + 1;
    }
    assert(args@.take(args@.len() as int) =~= args@);
}

/// Where `k` was first seen.
fn find_seen(seen: &Vec<(KnownAttr, Span)>, k: KnownAttr) -> (r: Option<Span>)
    ensures
        r == first_seen(seen@, k),
{
    let mut i: usize = 0;
    assert(seen@.skip(0) =~= seen@);
    while i < seen.len()
        invariant
            i <= seen@.len(),
            first_seen(seen@, k) == first_seen(seen@.skip(i as int), k),
        decreases seen@.len() - i,
    {
        proof {
            let rest = seen@.skip(i as int);
            assert(rest[0] == seen@[i as int]);
            assert(rest.drop_first() =~= seen@.skip(i + 1));
        }
        if seen[i].0 == k {
            return Some(seen[i].1);
        }
        i = i + 1;
    }
    None
}

/// Checks the attributes of one definition, attached to `target`, and
/// appends what is wrong to `errors`.
pub fn check(
    attrs: &Attrs,
    target: Target,
    target_span: &Span,
    interner: &IdentInterner,
    errors: &mut Vec<AttrError>,
)
    ensures
        errors_view(final(errors)@) == errors_view(old(errors)@) + check_errors(
            attrs.0@,
            target,
            *target_span,
            interner@,
        ),
{
    // The attributes seen so far, with where each was first written.
    let mut seen: Vec<(KnownAttr, Span)> = Vec::new();
    let list = attrs.iter();
    let mut i: usize = 0;
    assert(list@.take(0) =~= Seq::<Attribute>::empty());
    assert(errors_view(errors@) =~= errors_view(old(errors)@) + Seq::<AttrErrorView>::empty());
    while i < list.len()
        invariant
            i <= list@.len(),
            list@ == attrs.0@,
            (seen@, errors_view(errors@).skip(errors_view(old(errors)@).len() as int)) == check_fold(
                list@.take(i as int),
                target,
                interner@,
            ),
            errors_view(errors@).take(errors_view(old(errors)@).len() as int) == errors_view(old(errors)@),
            errors_view(old(errors)@).len() <= errors_view(errors@).len(),
        decreases list@.len() - i,
    {
        let ghost base = errors_view(old(errors)@);
        let ghost e0 = errors_view(errors@);
        let attr = &list[i];
        proof {
            let t = list@.take(i + 1);
            assert(t.drop_last() =~= list@.take(i as int));
            assert(t.last() == *attr);
            assert(e0 =~= base + e0.skip(base.len() as int));
        }
        let ghost fold0 = check_fold(list@.take(i as int), target, interner@);
        match interner.get_str(&attr.name.id) {
            None => {},
            Some(name) => match KnownAttr::from_name(name) {
                None => {
                    push_error(errors, AttrError::UnknownAttribute { name: string_of_str(name), span: attr.span });
                },
                Some(known) => {
                    match find_seen(&seen, known) {
                        Some(first) => {
                            push_error(
                                errors,
                                AttrError::DuplicatedAttribute { attr: known, first, span: attr.span },
                            );
                        },
                        None => {
                            seen.push((known, attr.span));
                        },
                    }
                    if !known.accepts(target) {
                        // On a wrong target, shape complaints tend to miss the
                        // point, so stop here.
                        push_error(errors, AttrError::InvalidTarget { attr: known, target, span: attr.span });
                    } else {
                        check_shape(known, attr, interner, errors);
                        if known == KnownAttr::Native {
                            check_arch(attr, interner, errors);
                        }
                    }
                },
            },
        }
        proof {
            let e1 = errors_view(errors@);
            let step = check_step(fold0.0, fold0.1, *attr, target, interner@);
            assert(e1 =~= base + step.1);
            assert(e1.skip(base.len() as int) =~= step.1);
            assert(e1.take(base.len() as int) =~= base);
        }
        i = i + 1;
    }
    proof {
        assert(list@.take(list@.len() as int) =~= list@);
    }
    let ghost base = errors_view(old(errors)@);
    let ghost e0 = errors_view(errors@);
    assert(e0 =~= base + e0.skip(base.len() as int));
    // A native definition must carry `[[native]]`.
    if target.is_native() && find_seen(&seen, KnownAttr::Native).is_none() {
        push_error(errors, AttrError::MissingNativeAttribute { target, span: *target_span });
        assert(errors_view(errors@) =~= base + check_errors(attrs.0@, target, *target_span, interner@));
    }
}

/// The position of the first argument whose key reads `key`.
pub open spec fn find_arg(args: Seq<AttrArg>, key: Seq<char>, iv: Seq<Seq<char>>) -> Option<int>
    decreases args.len(),
{
    if args.len() == 0 {
        None
    } else if (args[0].key.id.0 as int) < iv.len() && iv[args[0].key.id.0 as int] == key {
        Some(0)
    } else {
        match find_arg(args.drop_first(), key, iv) {
            Some(j) => Some(j + 1),
            None => None,
        }
    }
}

/// The arch of `[[native(arch = "...")]]`: the first `arch` argument of the
/// first `native` attribute, when it holds a string.
pub open spec fn spec_native_arch(attrs: Seq<Attribute>, iv: Seq<Seq<char>>) -> Option<(Seq<char>, Span)> {
    match find_attr(attrs, attr_names::Native@, iv) {
        None => None,
        Some(i) => match attrs[i].body {
            AttrBody::List(args) => arch_of_args(args@, iv),
            _ => None,
        },
    }
}

/// The string value of the first `arch` argument, with its span.
pub open spec fn arch_of_args(args: Seq<AttrArg>, iv: Seq<Seq<char>>) -> Option<(Seq<char>, Span)> {
    match find_arg(args, "arch"@, iv) {
        None => None,
        Some(j) => match args[j].val {
            None => None,
            Some(v) => match v.spec_as_str() {
                Some(s) => Some((s, v.spec_span())),
                None => None,
            },
        },
    }
}

/// The arch of `[[native(arch = "...")]]`. It assumes the check has passed;
/// called before, it only gives `None` and never takes a wrong attribute
/// for a sound one.
pub fn native_arch<'a>(attrs: &'a Attrs, interner: &IdentInterner) -> (r: Option<(&'a str, Span)>)
    ensures
        match spec_native_arch(attrs.0@, interner@) {
            Some((s, sp)) => r matches Some((t, tsp)) && t@ == s && tsp == sp,
            None => r is None,
        },
{
    let attr = match attrs.find(attr_names::Native, interner) {
        Some(a) => a,
        None => return None,
    };
    let args = match &attr.body {
        AttrBody::List(args) => args,
        _ => return None,
    };
    proof {
        reveal_strlit("arch");
    }
    let mut j: usize = 0;
    assert(args@.skip(0) =~= args@);
    assert(spec_native_arch(attrs.0@, interner@) == arch_of_args(args@, interner@));
    while j < args.len()
        invariant
            j <= args@.len(),
            spec_native_arch(attrs.0@, interner@) == arch_of_args(args@, interner@),
            find_arg(args@, "arch"@, interner@) == match find_arg(args@.skip(j as int), "arch"@, interner@) {
                Some(k) => Some(k + j),
                None => None::<int>,
            },
        decreases args@.len() - j,
    {
        proof {
            let rest = args@.skip(j as int);
            assert(rest[0] == args@[j as int]);
            assert(rest.drop_first() =~= args@.skip(j + 1));
        }
        let is_arch = match interner.get_str(&args[j].key.id) {
            Some(k) => str_eq(k, "arch"),
            None => false,
        };
        if is_arch {
            return match &args[j].val {
                Some(v) => match v.as_str() {
                    Some(s) => Some((s, *v.span())),
                    None => None,
                },
                None => None,
            };
        }
        j = j + 1;
    }
    None
}

/// The key of `[[lang = "..."]]`, with the attribute's span.
pub open spec fn spec_lang_key(attrs: Seq<Attribute>, iv: Seq<Seq<char>>) -> Option<(Seq<char>, Span)> {
    match find_attr(attrs, attr_names::Lang@, iv) {
        None => None,
        Some(i) => match attrs[i].body {
            AttrBody::Value(v) => match v.spec_as_str() {
                Some(s) => Some((s, attrs[i].span)),
                None => None,
            },
            _ => None,
        },
    }
}

pub fn lang_key<'a>(attrs: &'a Attrs, interner: &IdentInterner) -> (r: Option<(&'a str, Span)>)
    ensures
        match spec_lang_key(attrs.0@, interner@) {
            Some((s, sp)) => r matches Some((t, tsp)) && t@ == s && tsp == sp,
            None => r is None,
        },
{
    let attr = match attrs.find(attr_names::Lang, interner) {
        Some(a) => a,
        None => return None,
    };
    match &attr.body {
        AttrBody::Value(v) => match v.as_str() {
            Some(s) => Some((s, attr.span)),
            None => None,
        },
        _ => None,
    }
}

/// Whether a native definition stays in a build for `target`: one that
/// names no arch stays in every build.
///
/// std lays out natives of the same name for different arches; until
/// symbols can be selected by something like `[[feature = "..."]]`, only
/// those of the selected target are kept, before definitions are collected.
pub fn enabled(attrs: &Attrs, target: crate::target::Target, interner: &IdentInterner) -> (r: bool)
    ensures
        r == match spec_native_arch(attrs.0@, interner@) {
            Some((arch, _)) => arch == target.spec_name(),
            None => true,
        },
{
    match native_arch(attrs, interner) {
        Some((arch, _)) => str_eq(arch, target.name()),
        None => true,
    }
}

} // verus!
