//! What the command line decides before a build starts.

use vstd::prelude::*;
use crate::target::{spec_describe_targets, describe_targets, typescript_name, wasm_name, Target};
use crate::text::{push_str, string_of_str};

verus! {

/// The target named `name`, if any.
pub open spec fn target_named(name: Seq<char>) -> Option<Target> {
    if name == typescript_name() {
        Some(Target::TypeScript)
    } else if name == wasm_name() {
        Some(Target::Wasm)
    } else {
        None
    }
}

/// The target a build makes, or the message that says why there is none.
pub open spec fn spec_resolve_target(requested: Option<Seq<char>>, available: Seq<Target>) -> Result<Target, Seq<char>> {
    match requested {
        Some(name) => match target_named(name) {
            Some(t) => if available.contains(t) {
                Ok(t)
            } else {
                Err(
                    "target `"@ + t.spec_name() + "` is not available in this build of biwac (available: "@
                        + spec_describe_targets(available) + ")"@,
                )
            },
            None => Err("unknown target `"@ + name + "` (available: "@ + spec_describe_targets(available) + ")"@),
        },
        None => if available.len() == 1 {
            Ok(available[0])
        } else if available.len() == 0 {
            Err("this build of biwac has no code generation target"@)
        } else {
            Err("--target is required because this build of biwac can produce "@ + spec_describe_targets(available))
        },
    }
}

/// Resolves `--target` among the targets this build can generate. It may
/// be left out when there is one choice; with several, which one is meant
/// cannot be told, so leaving it out is an error.
pub fn resolve_target(requested: Option<&str>, available: &[Target]) -> (r: Result<Target, String>)
    ensures
        match (r, spec_resolve_target(
            match requested {
                Some(n) => Some(n@),
                None => None,
            },
            available@,
        )) {
            (Ok(t), Ok(u)) => t == u,
            (Err(m), Err(n)) => m@ == n,
            _ => false,
        },
{
    match requested {
        Some(name) => match Target::from_name(name) {
            Some(t) => {
                let mut found = false;
                let mut i: usize = 0;
                while i < available.len()
                    invariant
                        i <= available@.len(),
                        found == exists|k: int| 0 <= k < i && available@[k] == t,
                    decreases available@.len() - i,
                {
                    if available[i] == t {
                        found = true;
                    }
                    i = i + 1;
                }
                if found {
                    Ok(t)
                } else {
                    let mut s = string_of_str("target `");
                    push_str(&mut s, t.name());
                    push_str(&mut s, "` is not available in this build of biwac (available: ");
                    let list = describe_targets(available);
                    push_str(&mut s, list.as_str());
                    push_str(&mut s, ")");
                    proof {
                        assert(!available@.contains(t));
                    }
                    Err(s)
                }
            },
            None => {
                let mut s = string_of_str("unknown target `");
                push_str(&mut s, name);
                push_str(&mut s, "` (available: ");
                let list = describe_targets(available);
                push_str(&mut s, list.as_str());
                push_str(&mut s, ")");
                Err(s)
            },
        },
        None => {
            if available.len() == 1 {
                Ok(available[0])
            } else if available.len() == 0 {
                Err(string_of_str("this build of biwac has no code generation target"))
            } else {
                let mut s = string_of_str("--target is required because this build of biwac can produce ");
                let list = describe_targets(available);
                push_str(&mut s, list.as_str());
                Err(s)
            }
        },
    }
}

} // verus!
