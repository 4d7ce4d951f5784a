//! The list of dependencies a build directory records
//! (`biwa-dependencies.json`): its model, and the ids written in it.
//!
//! Reading the file, and turning its JSON into these values, is the
//! caller's; the ids inside are read here.

use vstd::prelude::*;
use crate::module::{strings_view, ModPath, ModPathView};
use crate::package::{name_accepted, package_name_message, PackageName, PackageVersion};
use crate::regex_match::{regex_answer, regex_is_match};
use crate::text::{chars_of, string_of_chars, string_of_str};

verus! {

/// The name of the file that lists the dependencies, in the build
/// directory.
pub const BIWA_BUILD_DEPENDENCY_LIST_FILE_NAME: &'static str = "biwa-dependencies.json";

/// The pattern every segment of an id must contain a match of.
pub const ID_SEGMENT_PATTERN: &'static str = "[a-zA-Z][0-9a-zA-Z_]*|_[0-9a-zA-Z_]+";

#[derive(Debug)]
pub enum PkgDepsLoadError {
    /// The dependency list is not a file.
    DepsPathIsNotFile,
    /// The dependency list cannot be read as one; holds the reason.
    InvalidDepsFile(String),
}

/// The dependencies of a package: each package with its symbols.
#[derive(Debug)]
pub struct Deps {
    pub deps_pkgs: Vec<DepsPkg>,
}

#[derive(Debug)]
pub struct DepsPkg {
    pub name: PackageName,
    pub version: PackageVersion,
    pub symbols: Vec<DepsSymbol>,
}

#[derive(Debug)]
pub struct DepsSymbol {
    pub id: DepsPkgInternalId,
    pub body: DepsSymbolKind,
}

#[derive(Debug)]
pub enum DepsSymbolKind {
    Function(DepsFunction),
    Struct(DepsStruct),
}

#[derive(Debug)]
pub struct DepsFunction {
    pub genargs: Vec<String>,
    pub args: Vec<DepsArgDecl>,
    pub ret: DepsTy,
}

#[derive(Debug)]
pub struct DepsArgDecl {
    pub id: String,
    pub ty: DepsTy,
}

#[derive(Debug)]
pub struct DepsStruct {
    pub genargs: Vec<String>,
    pub members: Vec<DepsStructMember>,
}

#[derive(Debug)]
pub struct DepsStructMember {
    pub id: String,
    pub ty: DepsTy,
}

#[derive(Debug)]
pub enum DepsTy {
    Int,
    Float,
    Bool,
    Void,
    Defined { id: DepsSymId, genargs: Vec<DepsTy> },
}

/// The id of a symbol of another package: `pkg::mod::...::name`.
#[derive(Debug)]
pub struct DepsSymId {
    pub pkg: PackageName,
    pub modu: ModPath,
    pub id: String,
}

/// The id of a symbol inside its package: `::mod::...::name`.
#[derive(Debug)]
pub struct DepsPkgInternalId {
    pub modu: ModPath,
    pub id: String,
}

/// `s.split("::")` from position `i`, with `cur` read of the current part:
/// the parts between the `::` found left to right, none overlapping.
pub open spec fn split_from(s: Seq<char>, i: int, cur: Seq<char>) -> Seq<Seq<char>>
    decreases s.len() - i,
{
    if i >= s.len() {
        seq![cur]
    } else if i + 1 < s.len() && s[i] == ':' && s[i + 1] == ':' {
        seq![cur] + split_from(s, i + 2, Seq::empty())
    } else {
        split_from(s, i + 1, cur.push(s[i]))
    }
}

/// `s.split("::")`.
pub open spec fn split_colons(s: Seq<char>) -> Seq<Seq<char>> {
    split_from(s, 0, Seq::empty())
}

/// Splits `s` at each `::`, as `s.split("::")` does.
pub fn split_colons_exec(s: &str) -> (r: Vec<String>)
    ensures
        strings_view(r@) == split_colons(s@),
{
    let cs = chars_of(s);
    let n = cs.len();
    let mut parts: Vec<String> = Vec::new();
    let mut cur: Vec<char> = Vec::new();
    let mut i: usize = 0;
    while i < n
        invariant
            n == cs@.len(),
            cs@ == s@,
            i <= n,
            split_colons(s@) == strings_view(parts@) + split_from(s@, i as int, cur@),
        decreases n - i,
    {
        if i + 1 < n && cs[i] == ':' && cs[i + 1] == ':' {
            let part = string_of_chars(cur.as_slice());
            let ghost before = parts@;
            parts.push(part);
            assert(strings_view(parts@) =~= strings_view(before).push(cur@));
            assert(strings_view(parts@) + split_from(s@, i + 2, Seq::empty()) =~= strings_view(before) + (
            seq![cur@] + split_from(s@, i + 2, Seq::empty())));
            cur = Vec::new();
            assert(cur@ =~= Seq::<char>::empty());
            i = i + 2;
        } else {
            cur.push(cs[i]);
            i = i + 1;
        }
    }
    let part = string_of_chars(cur.as_slice());
    let ghost before = parts@;
    parts.push(part);
    assert(strings_view(parts@) =~= strings_view(before).push(cur@));
    assert(strings_view(parts@) =~= strings_view(before) + seq![cur@]);
    parts
}

/// Whether an id segment is accepted: the `regex` crate finds a match of
/// [`ID_SEGMENT_PATTERN`] in it.
pub open spec fn segment_accepted(p: Seq<char>) -> bool {
    regex_answer(ID_SEGMENT_PATTERN@, p) == Some(true)
}

pub open spec fn all_accepted(parts: Seq<Seq<char>>) -> bool {
    forall|k: int| 0 <= k < parts.len() ==> segment_accepted(#[trigger] parts[k])
}

fn segment_ok(p: &str) -> (r: bool)
    ensures
        r == segment_accepted(p@),
{
    match regex_is_match(ID_SEGMENT_PATTERN, p) {
        Some(true) => true,
        _ => false,
    }
}

fn all_ok(parts: &[String], from: usize, to: usize) -> (r: bool)
    requires
        from <= to <= parts@.len(),
    ensures
        r == all_accepted(strings_view(parts@).subrange(from as int, to as int)),
{
    let ghost pv = strings_view(parts@);
    let mut k: usize = from;
    while k < to
        invariant
            from <= k <= to,
            to <= parts@.len(),
            pv == strings_view(parts@),
            all_accepted(pv.subrange(from as int, k as int)),
        decreases to - k,
    {
        assert(pv[k as int] == parts@[k as int]@);
        if !segment_ok(parts[k].as_str()) {
            assert(pv.subrange(from as int, to as int)[k - from] == pv[k as int]);
            return false;
        }
        assert forall|m: int| 0 <= m < k + 1 - from implies segment_accepted(
            #[trigger] pv.subrange(from as int, k + 1)[m],
        ) by {
            if m < k - from {
                assert(pv.subrange(from as int, k + 1)[m] == pv.subrange(from as int, k as int)[m]);
            }
        }
        k = k + 1;
    }
    true
}

/// The message for an id of another package that is not of the expected
/// form.
pub open spec fn sym_id_form_message() -> Seq<char> {
    "ID must be `[a-z][0-9a-z_]*(::[a-zA-Z][0-9a-zA-Z_]*|_[0-9a-zA-Z_]+)+`"@
}

/// The message for an id inside a package that is not of the expected
/// form.
pub open spec fn internal_id_form_message() -> Seq<char> {
    "ID must be `(::[a-zA-Z][0-9a-zA-Z_]*|_[0-9a-zA-Z_]+)+`"@
}

/// What reading `pkg::mod::...::name` gives: the package, the module path
/// and the name, or the message of the error.
pub open spec fn spec_parse_sym_id(s: Seq<char>) -> Result<(Seq<char>, ModPathView, Seq<char>), Seq<char>> {
    let parts = split_colons(s);
    if parts.len() == 2 && segment_accepted(parts[0]) && segment_accepted(parts[1]) {
        if name_accepted(parts[0]) {
            Ok((parts[0], ModPathView::Lib, parts[1]))
        } else {
            Err(package_name_message(parts[0]))
        }
    } else if parts.len() > 2 && all_accepted(parts) {
        if name_accepted(parts[0]) {
            Ok((parts[0], ModPathView::Mod(parts.subrange(1, parts.len() - 1)), parts.last()))
        } else {
            Err(package_name_message(parts[0]))
        }
    } else {
        Err(sym_id_form_message())
    }
}

/// The strings `parts[from..to]`, cloned.
fn clone_range(parts: &[String], from: usize, to: usize) -> (r: Vec<String>)
    requires
        from <= to <= parts@.len(),
    ensures
        strings_view(r@) == strings_view(parts@).subrange(from as int, to as int),
{
    let mut out: Vec<String> = Vec::new();
    let mut k: usize = from;
    while k < to
        invariant
            from <= k <= to,
            to <= parts@.len(),
            strings_view(out@) == strings_view(parts@).subrange(from as int, k as int),
        decreases to - k,
    {
        let ghost before = out@;
        let c = parts[k].clone();
        assert(c@ == parts@[k as int]@);
        out.push(c);
        assert(strings_view(out@) =~= strings_view(before).push(parts@[k as int]@));
        assert(strings_view(out@) =~= strings_view(parts@).subrange(from as int, k + 1));
        k = k + 1;
    }
    out
}

impl DepsSymId {
    pub open spec fn spec_view(&self) -> (Seq<char>, ModPathView, Seq<char>) {
        (self.pkg@, self.modu@, self.id@)
    }

    /// Reads `pkg::name` or `pkg::mod::...::name`. Each segment must
    /// contain a match of [`ID_SEGMENT_PATTERN`], and the first must be a
    /// package name.
    pub fn parse(s: &str) -> (r: Result<DepsSymId, String>)
        ensures
            match (r, spec_parse_sym_id(s@)) {
                (Ok(id), Ok(v)) => id.spec_view() == v,
                (Err(m), Err(n)) => m@ == n,
                _ => false,
            },
    {
        let parts = split_colons_exec(s);
        let ghost pv = strings_view(parts@);
        let n = parts.len();
        if n == 2 && segment_ok(parts[0].as_str()) && segment_ok(parts[1].as_str()) {
            assert(pv[0] == parts@[0]@ && pv[1] == parts@[1]@);
            let pkg = match PackageName::parse(parts[0].as_str()) {
                Ok(p) => p,
                Err(e) => return Err(e.message()),
            };
            Ok(DepsSymId { pkg, modu: ModPath::Lib, id: parts[1].clone() })
        } else if n > 2 && all_ok(parts.as_slice(), 0, n) {
            proof {
                assert(pv.subrange(0, n as int) =~= pv);
                if n == 2 {
                    assert(false);
                }
                assert(pv[0] == parts@[0]@);
                assert(pv.last() == parts@[n - 1]@);
            }
            let pkg = match PackageName::parse(parts[0].as_str()) {
                Ok(p) => p,
                Err(e) => return Err(e.message()),
            };
            let mods = clone_range(parts.as_slice(), 1, n - 1);
            Ok(DepsSymId { pkg, modu: ModPath::Mod(mods), id: parts[n - 1].clone() })
        } else {
            proof {
                if n > 2 {
                    assert(pv.subrange(0, n as int) =~= pv);
                }
                if n == 2 {
                    assert(pv[0] == parts@[0]@ && pv[1] == parts@[1]@);
                }
            }
            Err(string_of_str("ID must be `[a-z][0-9a-z_]*(::[a-zA-Z][0-9a-zA-Z_]*|_[0-9a-zA-Z_]+)+`"))
        }
    }
}

impl std::str::FromStr for DepsSymId {
    type Err = String;

    fn from_str(s: &str) -> (r: Result<Self, Self::Err>)
        ensures
            match (r, spec_parse_sym_id(s@)) {
                (Ok(id), Ok(v)) => id.spec_view() == v,
                (Err(m), Err(n)) => m@ == n,
                _ => false,
            },
    {
        DepsSymId::parse(s)
    }
}

/// What reading `::mod::...::name` gives: the module path and the name, or
/// the message of the error.
pub open spec fn spec_parse_internal_id(s: Seq<char>) -> Result<(ModPathView, Seq<char>), Seq<char>> {
    if !(s.len() >= 2 && s[0] == ':' && s[1] == ':') {
        Err("ID must start with `::`"@)
    } else if s.len() < 3 {
        Err(internal_id_form_message())
    } else {
        let parts = split_colons(s.skip(2));
        if parts.len() == 1 && segment_accepted(parts[0]) {
            Ok((ModPathView::Lib, parts[0]))
        } else if all_accepted(parts) {
            Ok((ModPathView::Mod(parts.subrange(0, parts.len() - 1)), parts.last()))
        } else {
            Err(internal_id_form_message())
        }
    }
}

/// `split_from` always yields at least one part.
proof fn lemma_split_nonempty(s: Seq<char>, i: int, cur: Seq<char>)
    ensures
        split_from(s, i, cur).len() >= 1,
    decreases s.len() - i,
{
    if i >= s.len() {
    } else if i + 1 < s.len() && s[i] == ':' && s[i + 1] == ':' {
        lemma_split_nonempty(s, i + 2, Seq::empty());
    } else {
        lemma_split_nonempty(s, i + 1, cur.push(s[i]));
    }
}

impl DepsPkgInternalId {
    pub open spec fn spec_view(&self) -> (ModPathView, Seq<char>) {
        (self.modu@, self.id@)
    }

    /// Reads `::name` or `::mod::...::name`; each segment must contain a
    /// match of [`ID_SEGMENT_PATTERN`].
    pub fn parse(s: &str) -> (r: Result<DepsPkgInternalId, String>)
        ensures
            match (r, spec_parse_internal_id(s@)) {
                (Ok(id), Ok(v)) => id.spec_view() == v,
                (Err(m), Err(n)) => m@ == n,
                _ => false,
            },
    {
        let cs = chars_of(s);
        if !(cs.len() >= 2 && cs[0] == ':' && cs[1] == ':') {
            return Err(string_of_str("ID must start with `::`"));
        }
        if cs.len() < 3 {
            return Err(string_of_str("ID must be `(::[a-zA-Z][0-9a-zA-Z_]*|_[0-9a-zA-Z_]+)+`"));
        }
        let mut tail: Vec<char> = Vec::new();
        let mut k: usize = 2;
        while k < cs.len()
            invariant
                2 <= k <= cs@.len(),
                tail@ == cs@.subrange(2, k as int),
            decreases cs@.len() - k,
        {
            tail.push(cs[k]);
            assert(tail@ =~= cs@.subrange(2, k + 1));
            k = k + 1;
        }
        let rest = string_of_chars(tail.as_slice());
        proof {
            assert(cs@.subrange(2, cs@.len() as int) =~= s@.skip(2));
        }
        let parts = split_colons_exec(rest.as_str());
        let ghost pv = strings_view(parts@);
        proof {
            lemma_split_nonempty(s@.skip(2), 0, Seq::empty());
        }
        let n = parts.len();
        if n == 1 && segment_ok(parts[0].as_str()) {
            assert(pv[0] == parts@[0]@);
            Ok(DepsPkgInternalId { modu: ModPath::Lib, id: parts[0].clone() })
        } else if all_ok(parts.as_slice(), 0, n) {
            proof {
                assert(pv.subrange(0, n as int) =~= pv);
                assert(pv.last() == parts@[n - 1]@);
            }
            let mods = clone_range(parts.as_slice(), 0, n - 1);
            Ok(DepsPkgInternalId { modu: ModPath::Mod(mods), id: parts[n - 1].clone() })
        } else {
            proof {
                assert(pv.subrange(0, n as int) =~= pv);
                if n == 1 {
                    assert(pv[0] == parts@[0]@);
                }
            }
            Err(string_of_str("ID must be `(::[a-zA-Z][0-9a-zA-Z_]*|_[0-9a-zA-Z_]+)+`"))
        }
    }
}

impl std::str::FromStr for DepsPkgInternalId {
    type Err = String;

    fn from_str(s: &str) -> (r: Result<Self, Self::Err>)
        ensures
            match (r, spec_parse_internal_id(s@)) {
                (Ok(id), Ok(v)) => id.spec_view() == v,
                (Err(m), Err(n)) => m@ == n,
                _ => false,
            },
    {
        DepsPkgInternalId::parse(s)
    }
}

} // verus!
