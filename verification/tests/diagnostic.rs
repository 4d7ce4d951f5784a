use biwac::diagnostic::{DiagSpan, ErrorContext, LabelColor};
use biwac::ident::IdentInterner;
use biwac::module::ModPath;
use biwac::package::{MetadataHolder, PackageId, PackageMetadata, PackageName, PackageVersion};
use biwac::src::{ModId, ModSource, SourceHolder};

fn holder() -> MetadataHolder {
    MetadataHolder {
        metadata: PackageMetadata {
            name: PackageName::parse("demo").unwrap(),
            version: PackageVersion::new(0, 1, 0),
            description: None,
            dependencies: vec![],
            no_std: false,
        },
        src: String::new(),
    }
}

fn sources() -> SourceHolder {
    SourceHolder {
        mods: vec![
            (
                ModId::new_in_self(0),
                ModSource { pkg_id: PackageId::new(1), modu: ModPath::Main, src: "fn main() {}".to_string() },
            ),
            (
                ModId::new_in_self(1),
                ModSource {
                    pkg_id: PackageId::new(1),
                    modu: ModPath::Mod(vec!["util".to_string()]),
                    src: "// é\nfn f() {}".to_string(),
                },
            ),
        ],
    }
}

#[test]
fn diagnostic_builders_keep_order() {
    let m = holder();
    let s = sources();
    let i = IdentInterner::new();
    let ctx = ErrorContext { metadata: &m, srcs: &s, interner: &i };
    let d = ctx
        .diagnostic("mismatched types".to_string())
        .note("first".to_string())
        .label_opt(None, "dropped".to_string())
        .sub_label_opt(None, "dropped too".to_string())
        .note("second".to_string());
    assert_eq!(d.message(), "mismatched types");
    assert_eq!(d.notes(), &["first".to_string(), "second".to_string()]);
    assert!(d.placed_labels().is_empty());
    assert!(d.sources().is_empty());
}

#[test]
fn labels_are_placed_by_file_then_position() {
    let m = holder();
    let s = sources();
    let i = IdentInterner::new();
    let ctx = ErrorContext { metadata: &m, srcs: &s, interner: &i };
    let d = ctx
        .diagnostic("bad".to_string())
        .label(DiagSpan::new(ModId::new_in_self(1), 7, 9), "here".to_string())
        .sub_label(DiagSpan::new(ModId::new_in_self(0), 3, 7), "defined".to_string())
        .label(DiagSpan::new(ModId::new_in_self(1), 0, 2), "start".to_string())
        .label(DiagSpan::new(ModId::new_ext(5, 0), 0, 1), "elsewhere".to_string())
        .label(DiagSpan::new(ModId::new_in_self(0), 9, 4), "backwards".to_string());
    let placed = d.placed_labels();
    let got: Vec<(String, usize, usize, String, LabelColor)> = placed
        .into_iter()
        .map(|p| (p.file, p.begin, p.end, p.text, p.color))
        .collect();
    assert_eq!(
        got,
        vec![
            ("main.biwa".to_string(), 3, 7, "defined".to_string(), LabelColor::Blue),
            ("main.biwa".to_string(), 9, 9, "backwards".to_string(), LabelColor::Red),
            ("util.biwa".to_string(), 0, 2, "start".to_string(), LabelColor::Red),
            // `é` takes two bytes: byte 7 is the sixth character.
            ("util.biwa".to_string(), 6, 8, "here".to_string(), LabelColor::Red),
        ]
    );
    assert_eq!(
        d.sources(),
        vec![
            ("main.biwa".to_string(), "fn main() {}".to_string()),
            ("util.biwa".to_string(), "// é\nfn f() {}".to_string()),
        ]
    );
}

#[test]
fn char_offset_counts_characters() {
    let m = ModSource { pkg_id: PackageId::new(1), modu: ModPath::Lib, src: "aé b".to_string() };
    assert_eq!(m.char_offset(0), 0);
    assert_eq!(m.char_offset(1), 1);
    assert_eq!(m.char_offset(2), 2);
    assert_eq!(m.char_offset(3), 2);
    assert_eq!(m.char_offset(4), 3);
    assert_eq!(m.char_offset(100), 4);
}
