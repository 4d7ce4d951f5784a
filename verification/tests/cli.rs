use biwac::cli::resolve_target;
use biwac::target::Target;

#[test]
fn one_target_may_be_left_out() {
    assert_eq!(resolve_target(None, &[Target::TypeScript]), Ok(Target::TypeScript));
}

#[test]
fn named_available_target() {
    assert_eq!(resolve_target(Some("wasm"), &[Target::TypeScript, Target::Wasm]), Ok(Target::Wasm));
}

#[test]
fn several_targets_need_a_choice() {
    assert_eq!(
        resolve_target(None, &[Target::TypeScript, Target::Wasm]),
        Err("--target is required because this build of biwac can produce `typescript`, `wasm`".to_string())
    );
}

#[test]
fn no_target_at_all() {
    assert_eq!(
        resolve_target(None, &[]),
        Err("this build of biwac has no code generation target".to_string())
    );
}

#[test]
fn known_but_unavailable_target() {
    assert_eq!(
        resolve_target(Some("wasm"), &[Target::TypeScript]),
        Err("target `wasm` is not available in this build of biwac (available: `typescript`)".to_string())
    );
}

#[test]
fn unknown_target() {
    assert_eq!(
        resolve_target(Some("jvm"), &[Target::TypeScript, Target::Wasm]),
        Err("unknown target `jvm` (available: `typescript`, `wasm`)".to_string())
    );
}
