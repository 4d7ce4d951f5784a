use biwac::attribute::check::{check, enabled, lang_key, native_arch};
use biwac::attribute::error::AttrError;
use biwac::attribute::syntax::{
    AttrArg, AttrBody, AttrValue, Attribute, Attrs, BoolLiteral, Ident, IntegerLiteral,
    StringLiteral,
};
use biwac::attribute::table::{AttrShape, AttrValueKind, KnownAttr};
use biwac::attribute::Target;
use biwac::ident::IdentInterner;
use biwac::span::Span;
use biwac::src::ModId;

fn sp(begin: usize, end: usize) -> Span {
    Span::new(ModId::new_in_self(0), begin, end)
}

fn ident(interner: &mut IdentInterner, name: &str, at: usize) -> Ident {
    Ident { id: interner.get_or_insert(name), span: sp(at, at + name.len()) }
}

fn string(val: &str, at: usize) -> AttrValue {
    AttrValue::String(StringLiteral { val: val.to_string(), span: sp(at, at + val.len() + 2) })
}

/// `[[native(arch = "<arch>")]]`
fn native(interner: &mut IdentInterner, arch: &str, at: usize) -> Attribute {
    let name = ident(interner, "native", at + 2);
    let key = ident(interner, "arch", at + 9);
    Attribute {
        name,
        body: AttrBody::List(vec![AttrArg { key, val: Some(string(arch, at + 16)), span: sp(at + 9, at + 20) }]),
        span: sp(at, at + 30),
    }
}

/// `[[lang = "<key>"]]`
fn lang(interner: &mut IdentInterner, key: &str, at: usize) -> Attribute {
    let name = ident(interner, "lang", at + 2);
    Attribute { name, body: AttrBody::Value(string(key, at + 9)), span: sp(at, at + 20) }
}

fn run(attrs: &Attrs, target: Target, interner: &IdentInterner) -> Vec<AttrError> {
    let mut errors = Vec::new();
    check(attrs, target, &sp(100, 110), interner, &mut errors);
    errors
}

#[test]
fn sound_native_attribute_passes() {
    let mut interner = IdentInterner::new();
    let attrs = Attrs::new(vec![native(&mut interner, "typescript", 0)]);
    assert!(run(&attrs, Target::NativeFn, &interner).is_empty());
    assert!(run(&attrs, Target::NativeCode, &interner).is_empty());
}

#[test]
fn sound_lang_attribute_passes() {
    let mut interner = IdentInterner::new();
    let attrs = Attrs::new(vec![lang(&mut interner, "write", 0)]);
    assert!(run(&attrs, Target::Fn, &interner).is_empty());
    assert!(run(&attrs, Target::Struct, &interner).is_empty());
}

#[test]
fn unknown_attribute_names_the_known_ones() {
    let mut interner = IdentInterner::new();
    let name = ident(&mut interner, "inline", 2);
    let attrs = Attrs::new(vec![Attribute { name, body: AttrBody::Word, span: sp(0, 10) }]);
    let errors = run(&attrs, Target::Fn, &interner);
    assert_eq!(errors.len(), 1);
    assert_eq!(errors[0].message(), "unknown attribute `inline` (known attributes: lang, native)");
    assert_eq!(*errors[0].span(), sp(0, 10));
}

#[test]
fn lang_written_as_a_list_is_a_shape_error() {
    let mut interner = IdentInterner::new();
    let name = ident(&mut interner, "lang", 2);
    let key = ident(&mut interner, "write", 7);
    let attrs = Attrs::new(vec![Attribute {
        name,
        body: AttrBody::List(vec![AttrArg { key, val: None, span: sp(7, 12) }]),
        span: sp(0, 15),
    }]);
    let errors = run(&attrs, Target::Fn, &interner);
    assert_eq!(errors.len(), 1);
    assert_eq!(errors[0].message(), "attribute `lang` must be written as `[[lang = <string>]]`");
}

#[test]
fn native_written_as_a_word_is_a_shape_error() {
    let mut interner = IdentInterner::new();
    let name = ident(&mut interner, "native", 2);
    let attrs = Attrs::new(vec![Attribute { name, body: AttrBody::Word, span: sp(0, 10) }]);
    let errors = run(&attrs, Target::NativeFn, &interner);
    assert_eq!(errors.len(), 1);
    assert_eq!(errors[0].message(), "attribute `native` must be written as `[[native(arch = <string>)]]`");
}

#[test]
fn unknown_key_and_value_kinds() {
    let mut interner = IdentInterner::new();
    let name = ident(&mut interner, "native", 2);
    let bogus = ident(&mut interner, "os", 9);
    let arch = ident(&mut interner, "arch", 20);
    let arch2 = ident(&mut interner, "arch", 40);
    let attrs = Attrs::new(vec![Attribute {
        name,
        body: AttrBody::List(vec![
            AttrArg { key: bogus, val: None, span: sp(9, 11) },
            AttrArg {
                key: arch,
                val: Some(AttrValue::Integer(IntegerLiteral { val: 3, span: sp(27, 28) })),
                span: sp(20, 28),
            },
            AttrArg { key: arch2, val: None, span: sp(40, 44) },
        ]),
        span: sp(0, 50),
    }]);
    let errors = run(&attrs, Target::NativeFn, &interner);
    let messages: Vec<String> = errors.iter().map(|e| e.message()).collect();
    assert_eq!(
        messages,
        vec![
            "attribute `native` has no key `os`".to_string(),
            "key `arch` of attribute `native` expects string, found integer".to_string(),
            "key `arch` of attribute `native` requires a value".to_string(),
        ]
    );
    assert_eq!(*errors[1].span(), sp(27, 28));
}

#[test]
fn lang_with_a_boolean_value() {
    let mut interner = IdentInterner::new();
    let name = ident(&mut interner, "lang", 2);
    let attrs = Attrs::new(vec![Attribute {
        name,
        body: AttrBody::Value(AttrValue::Bool(BoolLiteral { val: true, span: sp(9, 13) })),
        span: sp(0, 15),
    }]);
    let errors = run(&attrs, Target::Fn, &interner);
    assert_eq!(errors.len(), 1);
    assert_eq!(errors[0].message(), "attribute `lang` expects string, found boolean");
}

#[test]
fn native_on_a_plain_function_is_a_target_error() {
    let mut interner = IdentInterner::new();
    let attrs = Attrs::new(vec![native(&mut interner, "typescript", 0)]);
    let errors = run(&attrs, Target::Fn, &interner);
    assert_eq!(errors.len(), 1);
    assert_eq!(errors[0].message(), "attribute `native` cannot be applied to a function");
}

#[test]
fn duplicated_attribute_points_at_the_first() {
    let mut interner = IdentInterner::new();
    let attrs = Attrs::new(vec![lang(&mut interner, "write", 0), lang(&mut interner, "read", 30)]);
    let errors = run(&attrs, Target::Fn, &interner);
    assert_eq!(errors.len(), 1);
    assert_eq!(errors[0].message(), "attribute `lang` is applied more than once");
    match &errors[0] {
        AttrError::DuplicatedAttribute { attr, first, span } => {
            assert_eq!(*attr, KnownAttr::Lang);
            assert_eq!(*first, sp(0, 20));
            assert_eq!(*span, sp(30, 50));
        }
        other => panic!("unexpected error {:?}", other),
    }
}

#[test]
fn native_target_without_native_attribute() {
    let interner = IdentInterner::new();
    let errors = run(&Attrs::empty(), Target::NativeMethod, &interner);
    assert_eq!(errors.len(), 1);
    assert_eq!(errors[0].message(), "a native method requires the `native` attribute");
    assert_eq!(*errors[0].span(), sp(100, 110));
}

#[test]
fn unknown_arch_is_reported() {
    let mut interner = IdentInterner::new();
    let attrs = Attrs::new(vec![native(&mut interner, "x86", 0)]);
    let errors = run(&attrs, Target::NativeFn, &interner);
    assert_eq!(errors.len(), 1);
    assert_eq!(errors[0].message(), "unknown arch `x86`");
}

#[test]
fn both_arches_are_known_in_any_build() {
    let mut interner = IdentInterner::new();
    let attrs = Attrs::new(vec![native(&mut interner, "wasm", 0)]);
    assert!(run(&attrs, Target::NativeFn, &interner).is_empty());
}

#[test]
fn native_arch_and_enabled() {
    let mut interner = IdentInterner::new();
    let attrs = Attrs::new(vec![native(&mut interner, "typescript", 0)]);
    let (arch, span) = native_arch(&attrs, &interner).unwrap();
    assert_eq!(arch, "typescript");
    assert_eq!(span, sp(16, 28));
    assert!(enabled(&attrs, biwac::target::Target::TypeScript, &interner));
    assert!(!enabled(&attrs, biwac::target::Target::Wasm, &interner));
}

#[test]
fn native_without_arch_stays_in_every_build() {
    let mut interner = IdentInterner::new();
    let name = ident(&mut interner, "native", 2);
    let attrs = Attrs::new(vec![Attribute { name, body: AttrBody::List(vec![]), span: sp(0, 12) }]);
    assert!(native_arch(&attrs, &interner).is_none());
    assert!(enabled(&attrs, biwac::target::Target::TypeScript, &interner));
    assert!(enabled(&attrs, biwac::target::Target::Wasm, &interner));
    assert!(enabled(&Attrs::empty(), biwac::target::Target::Wasm, &interner));
}

#[test]
fn lang_key_reads_the_value() {
    let mut interner = IdentInterner::new();
    let attrs = Attrs::new(vec![native(&mut interner, "wasm", 0), lang(&mut interner, "write", 40)]);
    let (key, span) = lang_key(&attrs, &interner).unwrap();
    assert_eq!(key, "write");
    assert_eq!(span, sp(40, 60));
    assert!(lang_key(&Attrs::empty(), &interner).is_none());
    assert!(attrs.has("lang", &interner));
    assert!(!attrs.has("inline", &interner));
}

#[test]
fn table_of_known_attributes() {
    assert_eq!(KnownAttr::from_name("native"), Some(KnownAttr::Native));
    assert_eq!(KnownAttr::from_name("lang"), Some(KnownAttr::Lang));
    assert_eq!(KnownAttr::from_name("inline"), None);
    assert_eq!(KnownAttr::all().len(), 2);
    assert_eq!(KnownAttr::Lang.shape(), AttrShape::Value(AttrValueKind::String));
    assert!(KnownAttr::Native.accepts(Target::NativeTypeAlias));
    assert!(!KnownAttr::Native.accepts(Target::Struct));
    assert!(KnownAttr::Lang.accepts(Target::Enum));
    assert_eq!(AttrValueKind::of(&string("x", 0)), AttrValueKind::String);
    assert_eq!(AttrValueKind::Bool.name(), "boolean");
    assert_eq!(Target::NativeCode.describe(), "a native code block");
}
