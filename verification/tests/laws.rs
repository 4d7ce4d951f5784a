use biwac::dependency_metadata::table::StringTable;
use biwac::dependency_metadata::format::DiskStringOffset;
use biwac::ident::{IdentInterner, InternedIdent};

#[test]
fn interned_ids_read_back_after_later_insertions() {
    let mut interner = IdentInterner::new();
    let a = interner.get_or_insert("alpha");
    let b = interner.get_or_insert("beta");
    let a_again = interner.get_or_insert("alpha");
    let c = interner.get_or_insert("gamma");
    assert_eq!(a, InternedIdent(0));
    assert_eq!(b, InternedIdent(1));
    assert_eq!(a_again, a);
    assert_eq!(c, InternedIdent(2));
    assert_eq!(interner.get_str(&a), Some("alpha"));
    assert_eq!(interner.get("beta"), Some(b));
    assert_eq!(interner.get("delta"), None);
    assert_eq!(interner.get_str(&InternedIdent::self_receiver()), None);
    assert_eq!(interner.len(), 3);
}

#[test]
fn string_table_push_keeps_earlier_strings() {
    let mut t = StringTable::empty();
    let first = t.push("first");
    let second = t.push("second");
    let third = t.push("");
    assert_eq!(first, DiskStringOffset(0));
    assert_eq!(second, DiskStringOffset(6));
    assert_eq!(t.get(first).unwrap(), "first");
    assert_eq!(t.get(second).unwrap(), "second");
    assert_eq!(t.get(third).unwrap(), "");
}
