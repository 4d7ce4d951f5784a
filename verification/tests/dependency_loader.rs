use biwac::dependency_loader::{split_colons_exec, DepsPkgInternalId, DepsSymId};
use biwac::module::ModPath;
use std::str::FromStr;

fn strings(v: &[&str]) -> Vec<String> {
    v.iter().map(|s| s.to_string()).collect()
}

#[test]
fn split_like_str_split() {
    assert_eq!(split_colons_exec("a::b"), strings(&["a", "b"]));
    assert_eq!(split_colons_exec("::a"), strings(&["", "a"]));
    assert_eq!(split_colons_exec("a:::b"), strings(&["a", ":b"]));
    assert_eq!(split_colons_exec(""), strings(&[""]));
    assert_eq!(split_colons_exec("a::"), strings(&["a", ""]));
}

#[test]
fn sym_id_in_the_root_module() {
    let id = DepsSymId::from_str("std::write").unwrap();
    assert_eq!(id.pkg.value(), "std");
    assert_eq!(id.modu, ModPath::Lib);
    assert_eq!(id.id, "write");
}

#[test]
fn sym_id_in_a_submodule() {
    let id = DepsSymId::parse("std::types::string::String").unwrap();
    assert_eq!(id.pkg.value(), "std");
    assert_eq!(id.modu, ModPath::Mod(strings(&["types", "string"])));
    assert_eq!(id.id, "String");
}

#[test]
fn sym_id_errors() {
    let form = "ID must be `[a-z][0-9a-z_]*(::[a-zA-Z][0-9a-zA-Z_]*|_[0-9a-zA-Z_]+)+`".to_string();
    assert_eq!(DepsSymId::parse("std").unwrap_err(), form);
    assert_eq!(DepsSymId::parse("std::").unwrap_err(), form);
    assert_eq!(DepsSymId::parse("std::a::9").unwrap_err(), form);
    assert_eq!(
        DepsSymId::parse("Std::write").unwrap_err(),
        "Invalid package name: `Std`. Package name must be `[a-z][0-9a-z_]*`".to_string()
    );
}

#[test]
fn internal_ids() {
    let id = DepsPkgInternalId::from_str("::main").unwrap();
    assert_eq!(id.modu, ModPath::Lib);
    assert_eq!(id.id, "main");
    let id = DepsPkgInternalId::parse("::game::engine::Scene").unwrap();
    assert_eq!(id.modu, ModPath::Mod(strings(&["game", "engine"])));
    assert_eq!(id.id, "Scene");
}

#[test]
fn internal_id_errors() {
    assert_eq!(DepsPkgInternalId::parse("main").unwrap_err(), "ID must start with `::`");
    let form = "ID must be `(::[a-zA-Z][0-9a-zA-Z_]*|_[0-9a-zA-Z_]+)+`";
    assert_eq!(DepsPkgInternalId::parse("::").unwrap_err(), form);
    assert_eq!(DepsPkgInternalId::parse("::a::").unwrap_err(), form);
    assert_eq!(DepsPkgInternalId::parse("::1").unwrap_err(), form);
}
