//! Code generation targets.
//!
//! This table is the one source of the vocabulary about targets: the arch
//! names of `[[native(arch = "...")]]` and where artifacts go both come
//! from here. [`Target::all`] lists every target whatever the build can
//! produce; which targets a build can produce is [`available_targets`].

use vstd::prelude::*;
use crate::text::{chars_of, push_char, push_str};

verus! {

#[derive(Debug, Clone, Copy, PartialEq, Eq, Hash, Structural)]
pub enum Target {
    /// The form that runs on the novel-game engine in a browser: one `.ts`
    /// per package, importing its dependencies' `.ts` side by side.
    TypeScript,
    /// The form that runs isolated in a VM or another process, using the
    /// engine through synchronous host calls. Monomorphization is a
    /// whole-program step, so only the playable package gets an artifact.
    Wasm,
}

pub open spec fn typescript_name() -> Seq<char> {
    seq!['t', 'y', 'p', 'e', 's', 'c', 'r', 'i', 'p', 't']
}

pub open spec fn wasm_name() -> Seq<char> {
    seq!['w', 'a', 's', 'm']
}

pub open spec fn ts_extension() -> Seq<char> {
    seq!['t', 's']
}

impl Target {
    /// The name given to `--target`, which is also the arch name of
    /// `[[native(arch = "...")]]`.
    pub open spec fn spec_name(&self) -> Seq<char> {
        match self {
            Target::TypeScript => typescript_name(),
            Target::Wasm => wasm_name(),
        }
    }

    /// The extension of the artifact.
    pub open spec fn spec_bin_extension(&self) -> Seq<char> {
        match self {
            Target::TypeScript => ts_extension(),
            Target::Wasm => wasm_name(),
        }
    }

    /// Every target, in table order.
    pub fn all() -> (r: Vec<Target>)
        ensures
            r@ == seq![Target::TypeScript, Target::Wasm],
    {
        let mut v = Vec::new();
        v.push(Target::TypeScript);
        v.push(Target::Wasm);
        assert(v@ =~= seq![Target::TypeScript, Target::Wasm]);
        v
    }

    pub fn name(&self) -> (r: &'static str)
        ensures
            r@ == self.spec_name(),
    {
        match self {
            Target::TypeScript => {
                proof {
                    reveal_strlit("typescript");
                }
                assert("typescript"@ =~= typescript_name());
                "typescript"
            },
            Target::Wasm => {
                proof {
                    reveal_strlit("wasm");
                }
                assert("wasm"@ =~= wasm_name());
                "wasm"
            },
        }
    }

    pub fn from_name(name: &str) -> (r: Option<Target>)
        ensures
            r == (if name@ == typescript_name() {
                Some(Target::TypeScript)
            } else if name@ == wasm_name() {
                Some(Target::Wasm)
            } else {
                None
            }),
    {
        let cs = chars_of(name);
        let ts = ['t', 'y', 'p', 'e', 's', 'c', 'r', 'i', 'p', 't'];
        let wasm = ['w', 'a', 's', 'm'];
        assert(ts@ =~= typescript_name());
        assert(wasm@ =~= wasm_name());
        if crate::text::chars_eq(cs.as_slice(), &ts) {
            Some(Target::TypeScript)
        } else if crate::text::chars_eq(cs.as_slice(), &wasm) {
            Some(Target::Wasm)
        } else {
            None
        }
    }

    pub fn bin_extension(&self) -> (r: &'static str)
        ensures
            r@ == self.spec_bin_extension(),
    {
        match self {
            Target::TypeScript => {
                proof {
                    reveal_strlit("ts");
                }
                assert("ts"@ =~= ts_extension());
                "ts"
            },
            Target::Wasm => {
                proof {
                    reveal_strlit("wasm");
                }
                assert("wasm"@ =~= wasm_name());
                "wasm"
            },
        }
    }

    /// The directory that holds this target's artifacts and intermediate
    /// files. Which symbols are kept depends on the target, so `.biwameta`
    /// and `.biwamir` depend on it too; each target gets its own directory
    /// so switching targets does not spoil the other's cache.
    pub fn build_subdir(&self) -> (r: &'static str)
        ensures
            r@ == self.spec_name(),
    {
        self.name()
    }

    /// Whether a library package has an artifact for this target.
    ///
    /// wasm goes through monomorphization, a whole-program step rooted at
    /// the playable package's `scene main`, so libraries produce nothing.
    pub fn library_produces_binary(&self) -> (r: bool)
        ensures
            r == (*self == Target::TypeScript),
    {
        match self {
            Target::TypeScript => true,
            Target::Wasm => false,
        }
    }

    /// Whether the dependencies' artifacts have to be gathered next to this
    /// package's output. TypeScript imports `./<package>.ts`; wasm merges
    /// everything into one module.
    pub fn collects_dependency_binaries(&self) -> (r: bool)
        ensures
            r == (*self == Target::TypeScript),
    {
        match self {
            Target::TypeScript => true,
            Target::Wasm => false,
        }
    }

    /// Whether the dependencies' **function bodies** go into this package's
    /// output; where they do, a changed dependency `.biwamir` means a
    /// rebuild.
    pub fn consumes_dependency_mir(&self) -> (r: bool)
        ensures
            r == (*self == Target::Wasm),
    {
        match self {
            Target::TypeScript => false,
            Target::Wasm => true,
        }
    }
}

/// `` `name` `` for one target.
pub open spec fn target_item(t: Target) -> Seq<char> {
    seq!['`'] + t.spec_name() + seq!['`']
}

/// The targets, each as `` `name` ``, separated by `", "`.
pub open spec fn spec_describe_targets(ts: Seq<Target>) -> Seq<char>
    decreases ts.len(),
{
    if ts.len() == 0 {
        Seq::empty()
    } else if ts.len() == 1 {
        target_item(ts[0])
    } else {
        spec_describe_targets(ts.drop_last()) + seq![',', ' '] + target_item(ts.last())
    }
}

/// Lists the choices in a form fit for people.
pub fn describe_targets(targets: &[Target]) -> (r: String)
    ensures
        r@ == spec_describe_targets(targets@),
{
    let mut out = String::new();
    let mut i: usize = 0;
    assert(targets@.take(0) =~= Seq::<Target>::empty());
    while i < targets.len()
        invariant
            i <= targets@.len(),
            out@ == spec_describe_targets(targets@.take(i as int)),
        decreases targets@.len() - i,
    {
        let ghost before = out@;
        let ghost t = targets@.take(i + 1);
        assert(t.drop_last() =~= targets@.take(i as int));
        assert(t.last() == targets@[i as int]);
        if i > 0 {
            push_char(&mut out, ',');
            push_char(&mut out, ' ');
        }
        push_char(&mut out, '`');
        push_str(&mut out, targets[i].name());
        push_char(&mut out, '`');
        if i == 0 {
            assert(before =~= Seq::<char>::empty());
            assert(out@ =~= target_item(t[0]));
        } else {
            assert(out@ =~= before + seq![',', ' '] + target_item(t.last()));
        }
        i = i + 1;
    }
    assert(targets@.take(targets@.len() as int) =~= targets@);
    out
}

/// The targets this build of the compiler can generate, given which
/// backends it was built with: TypeScript first, then wasm.
pub fn available_targets(typescript: bool, wasm: bool) -> (r: Vec<Target>)
    ensures
        r@ == (if typescript { seq![Target::TypeScript] } else { Seq::empty() }) + (if wasm {
            seq![Target::Wasm]
        } else {
            Seq::empty()
        }),
{
    let mut targets = Vec::new();
    if typescript {
        targets.push(Target::TypeScript);
    }
    if wasm {
        targets.push(Target::Wasm);
    }
    assert(targets@ =~= (if typescript { seq![Target::TypeScript] } else { Seq::empty() }) + (
    if wasm {
        seq![Target::Wasm]
    } else {
        Seq::empty()
    }));
    targets
}

/// Every target is found again by its name.
pub proof fn lemma_name_round_trip(t: Target)
    ensures
        (if t.spec_name() == typescript_name() {
            Some(Target::TypeScript)
        } else if t.spec_name() == wasm_name() {
            Some(Target::Wasm)
        } else {
            None
        }) == Some(t),
{
    assert(typescript_name().len() != wasm_name().len());
}

} // verus!
