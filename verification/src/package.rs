//! Packages: their names, versions, kinds, ids and manifests.

use vstd::prelude::*;
use crate::decimal::{decimal, parse_usize, push_decimal, spec_parse_usize, spec_split,
    split_chars, views_of, lemma_parse_decimal, lemma_split_push_sep, lemma_split_append_plain, lemma_decimal_digits, is_digit, all_digits};
use crate::regex_match::{regex_answer, regex_is_match};
use crate::text::{chars_of, push_char, push_str, string_of_str};

verus! {

/// Whether a package can be played (it has `main.biwa` and an entry
/// scene) or is a library (it has `lib.biwa`).
#[derive(Debug, Clone, Copy, PartialEq, Eq, Structural)]
pub enum PackageKind {
    Lib,
    /// A binary package: it becomes a playable game.
    Bin,
}

impl PackageKind {
    pub fn is_playable(&self) -> (r: bool)
        ensures
            r == (*self == PackageKind::Bin),
    {
        match self {
            PackageKind::Bin => true,
            PackageKind::Lib => false,
        }
    }
}

/// The pattern a package name must match.
pub const PACKAGE_NAME_PATTERN: &'static str = "^[a-z][0-9a-z_]*$";

/// A package name that matched [`PACKAGE_NAME_PATTERN`].
#[derive(Debug, Clone, PartialEq, Eq, Hash)]
pub struct PackageName(String);

impl View for PackageName {
    type V = Seq<char>;

    closed spec fn view(&self) -> Seq<char> {
        self.0@
    }
}

#[derive(Debug)]
pub enum PackageNameError {
    InvalidPackageName(String),
}

/// Whether the `regex` crate finds `name` to match [`PACKAGE_NAME_PATTERN`].
pub open spec fn name_accepted(name: Seq<char>) -> bool {
    regex_answer(PACKAGE_NAME_PATTERN@, name) == Some(true)
}

impl PackageName {
    /// Reads a package name.
    ///
    /// The name is accepted exactly when the `regex` crate finds it to match
    /// [`PACKAGE_NAME_PATTERN`]; the error keeps the text that was refused.
    pub fn parse(s: &str) -> (r: Result<PackageName, PackageNameError>)
        ensures
            r is Ok <==> name_accepted(s@),
            r matches Ok(n) ==> n@ == s@,
            r matches Err(PackageNameError::InvalidPackageName(t)) ==> t@ == s@,
    {
        let answer = regex_is_match(PACKAGE_NAME_PATTERN, s);
        Self::from_match(s, answer)
    }

    /// Builds the name from the answer of the pattern match on `s`:
    /// the name when the answer is a match, the error otherwise.
    pub fn from_match(s: &str, answer: Option<bool>) -> (r: Result<PackageName, PackageNameError>)
        ensures
            r is Ok <==> answer == Some(true),
            r matches Ok(n) ==> n@ == s@,
            r matches Err(PackageNameError::InvalidPackageName(t)) ==> t@ == s@,
    {
        match answer {
            Some(true) => Ok(PackageName(string_of_str(s))),
            _ => Err(PackageNameError::InvalidPackageName(string_of_str(s))),
        }
    }

    pub fn value(&self) -> (r: &str)
        ensures
            r@ == self@,
    {
        self.0.as_str()
    }
}

impl std::str::FromStr for PackageName {
    type Err = PackageNameError;

    fn from_str(s: &str) -> (r: Result<Self, Self::Err>)
        ensures
            r is Ok <==> name_accepted(s@),
            r matches Ok(n) ==> n@ == s@,
            r matches Err(PackageNameError::InvalidPackageName(t)) ==> t@ == s@,
    {
        PackageName::parse(s)
    }
}

/// The text of a refused package name's message.
pub open spec fn package_name_message(name: Seq<char>) -> Seq<char> {
    "Invalid package name: `"@ + name + "`. Package name must be `[a-z][0-9a-z_]*`"@
}

impl PackageNameError {
    /// The message of this error, as its `Display` writes it.
    pub fn message(&self) -> (r: String)
        ensures
            match self {
                PackageNameError::InvalidPackageName(n) => r@ == package_name_message(n@),
            },
    {
        match self {
            PackageNameError::InvalidPackageName(name) => {
                let mut s = String::new();
                push_str(&mut s, "Invalid package name: `");
                push_str(&mut s, name.as_str());
                push_str(&mut s, "`. Package name must be `[a-z][0-9a-z_]*`");
                assert(s@ =~= package_name_message(name@));
                s
            },
        }
    }
}

#[derive(Debug, Clone, Copy, PartialEq, Eq, PartialOrd, Ord, Hash, Structural)]
pub struct PackageVersion {
    major: usize,
    minor: usize,
    patch: usize,
}

/// The three numbers of a version.
pub open spec fn version_triple(major: usize, minor: usize, patch: usize) -> (usize, usize, usize) {
    (major, minor, patch)
}

/// `a <= b` in the lexicographic order of (major, minor, patch), the order
/// the derived `Ord` gives.
pub open spec fn version_le(a: (usize, usize, usize), b: (usize, usize, usize)) -> bool {
    a.0 < b.0 || (a.0 == b.0 && (a.1 < b.1 || (a.1 == b.1 && a.2 <= b.2)))
}

/// `s.parse::<PackageVersion>()`: exactly three `.`-separated parts, each
/// a `usize`.
pub open spec fn spec_parse_version(cs: Seq<char>) -> Option<(usize, usize, usize)> {
    let parts = spec_split(cs, '.');
    if parts.len() != 3 {
        None
    } else {
        match (spec_parse_usize(parts[0]), spec_parse_usize(parts[1]), spec_parse_usize(parts[2])) {
            (Some(a), Some(b), Some(c)) => Some((a, b, c)),
            _ => None,
        }
    }
}

/// `major.minor.patch` in decimal.
pub open spec fn version_text(v: (usize, usize, usize)) -> Seq<char> {
    decimal(v.0 as nat) + seq!['.'] + decimal(v.1 as nat) + seq!['.'] + decimal(v.2 as nat)
}

#[derive(Debug)]
pub enum PackageVersionError {
    InvalidPackageVersion(String),
}

/// The text of a refused version's message.
pub open spec fn package_version_message(version: Seq<char>) -> Seq<char> {
    "Invalid package version: `"@ + version + "`. Package version must be `[0-9].[0-9].[0-9]`"@
}

impl PackageVersionError {
    /// The message of this error, as its `Display` writes it.
    pub fn message(&self) -> (r: String)
        ensures
            match self {
                PackageVersionError::InvalidPackageVersion(v) => r@ == package_version_message(v@),
            },
    {
        match self {
            PackageVersionError::InvalidPackageVersion(v) => {
                let mut s = String::new();
                push_str(&mut s, "Invalid package version: `");
                push_str(&mut s, v.as_str());
                push_str(&mut s, "`. Package version must be `[0-9].[0-9].[0-9]`");
                assert(s@ =~= package_version_message(v@));
                s
            },
        }
    }
}

impl PackageVersion {
    pub closed spec fn triple(&self) -> (usize, usize, usize) {
        (self.major, self.minor, self.patch)
    }

    pub fn new(major: usize, minor: usize, patch: usize) -> (r: Self)
        ensures
            r.triple() == (major, minor, patch),
    {
        PackageVersion { major, minor, patch }
    }

    pub fn major(&self) -> (r: usize)
        ensures
            r == self.triple().0,
    {
        self.major
    }

    pub fn minor(&self) -> (r: usize)
        ensures
            r == self.triple().1,
    {
        self.minor
    }

    pub fn patch(&self) -> (r: usize)
        ensures
            r == self.triple().2,
    {
        self.patch
    }

    /// `self <= other` in version order.
    pub fn le(&self, other: &PackageVersion) -> (r: bool)
        ensures
            r == version_le(self.triple(), other.triple()),
    {
        self.major < other.major || (self.major == other.major && (self.minor < other.minor || (
        self.minor == other.minor && self.patch <= other.patch)))
    }

    /// Whether the version lies in `min..=max`; no `max` means no upper bound.
    pub fn in_range(&self, min: &PackageVersion, max: Option<&PackageVersion>) -> (r: bool)
        ensures
            r == (version_le(min.triple(), self.triple()) && match max {
                Some(m) => version_le(self.triple(), m.triple()),
                None => true,
            }),
    {
        min.le(self) && match max {
            Some(m) => self.le(m),
            None => true,
        }
    }

    /// Reads `major.minor.patch`.
    pub fn parse(s: &str) -> (r: Result<PackageVersion, PackageVersionError>)
        ensures
            match spec_parse_version(s@) {
                Some(t) => r matches Ok(v) && v.triple() == t,
                None => r matches Err(PackageVersionError::InvalidPackageVersion(e)) && e@ == s@,
            },
    {
        let cs = chars_of(s);
        let tokens = split_chars(cs.as_slice(), '.');
        proof {
            assert(views_of(tokens@).len() == tokens@.len());
        }
        if tokens.len() != 3 {
            return Err(PackageVersionError::InvalidPackageVersion(string_of_str(s)));
        }
        assert(views_of(tokens@)[0] == tokens@[0]@);
        assert(views_of(tokens@)[1] == tokens@[1]@);
        assert(views_of(tokens@)[2] == tokens@[2]@);
        let major = parse_usize(tokens[0].as_slice());
        let minor = parse_usize(tokens[1].as_slice());
        let patch = parse_usize(tokens[2].as_slice());
        match (major, minor, patch) {
            (Some(a), Some(b), Some(c)) => Ok(PackageVersion { major: a, minor: b, patch: c }),
            _ => Err(PackageVersionError::InvalidPackageVersion(string_of_str(s))),
        }
    }

    /// `major.minor.patch`, as its `Display` writes it.
    pub fn to_version_string(&self) -> (r: String)
        ensures
            r@ == version_text(self.triple()),
    {
        let mut s = String::new();
        push_decimal(&mut s, self.major);
        push_char(&mut s, '.');
        push_decimal(&mut s, self.minor);
        push_char(&mut s, '.');
        push_decimal(&mut s, self.patch);
        assert(s@ =~= version_text(self.triple()));
        s
    }
}

impl std::str::FromStr for PackageVersion {
    type Err = PackageVersionError;

    fn from_str(s: &str) -> (r: Result<Self, Self::Err>)
        ensures
            match spec_parse_version(s@) {
                Some(t) => r matches Ok(v) && v.triple() == t,
                None => r matches Err(PackageVersionError::InvalidPackageVersion(e)) && e@ == s@,
            },
    {
        PackageVersion::parse(s)
    }
}

proof fn lemma_decimal_has_no_dot(n: nat)
    ensures
        forall|k: int| 0 <= k < decimal(n).len() ==> decimal(n)[k] != '.',
{
    lemma_decimal_digits(n);
    assert forall|k: int| 0 <= k < decimal(n).len() implies decimal(n)[k] != '.' by {
        assert(is_digit(decimal(n)[k]));
    }
}

/// Reading back the text of a version gives the version.
pub proof fn lemma_version_text_roundtrip(v: (usize, usize, usize))
    ensures
        spec_parse_version(version_text(v)) == Some(v),
{
    let da = decimal(v.0 as nat);
    let db = decimal(v.1 as nat);
    let dc = decimal(v.2 as nat);
    lemma_decimal_has_no_dot(v.0 as nat);
    lemma_decimal_has_no_dot(v.1 as nat);
    lemma_decimal_has_no_dot(v.2 as nat);
    let e = Seq::<char>::empty();
    // [da]
    lemma_split_append_plain(e, da, '.');
    assert(e + da =~= da);
    assert(e + da == da);
    let s1 = spec_split(da, '.');
    assert(spec_split(e, '.') =~= seq![e]);
    assert(seq![e].last() + da =~= da);
    assert(s1 =~= seq![da]);
    // [da, ""]
    lemma_split_push_sep(da, '.');
    // [da, db]
    lemma_split_append_plain(da + seq!['.'], db, '.');
    let s2 = spec_split(da + seq!['.'] + db, '.');
    assert(s2 =~= seq![da, db]);
    // [da, db, ""]
    lemma_split_push_sep(da + seq!['.'] + db, '.');
    // [da, db, dc]
    lemma_split_append_plain(da + seq!['.'] + db + seq!['.'], dc, '.');
    assert(version_text(v) == da + seq!['.'] + db + seq!['.'] + dc);
    let s3 = spec_split(version_text(v), '.');
    assert(s3 =~= seq![da, db, dc]);
    lemma_parse_decimal(v.0);
    lemma_parse_decimal(v.1);
    lemma_parse_decimal(v.2);
}

/// The version order is reflexive, total, antisymmetric and transitive.
pub proof fn lemma_version_order(a: (usize, usize, usize), b: (usize, usize, usize), c: (usize, usize, usize))
    ensures
        version_le(a, a),
        version_le(a, b) || version_le(b, a),
        version_le(a, b) && version_le(b, c) ==> version_le(a, c),
        version_le(a, b) && version_le(b, a) ==> a == b,
{
}

#[derive(Debug)]
pub struct DependedPackage {
    pub name: PackageName,
    pub min_version: PackageVersion,
    pub max_version: Option<PackageVersion>,
}

#[derive(Debug)]
pub struct PackageMetadata {
    pub name: PackageName,
    pub version: PackageVersion,
    pub description: Option<String>,
    pub dependencies: Vec<DependedPackage>,
    /// The package does not depend on std.
    ///
    /// std itself cannot depend on itself, so it is true for std; such a
    /// package provides the lang items, and its build checks that all of
    /// them are present.
    pub no_std: bool,
}

#[derive(Debug)]
pub struct MetadataHolder {
    pub metadata: PackageMetadata,
    /// The text of the metadata file.
    pub src: String,
}

/// A 32-bit package id, unique across packages and sessions.
#[derive(Debug, Clone, Copy, PartialEq, Eq, Hash, Structural)]
pub struct PackageId(pub u32);

impl PackageId {
    /// The id of the package being built.
    pub open spec fn self_package() -> PackageId {
        PackageId(0)
    }

    /// The id reserved for built-in items.
    pub open spec fn builtin_reserved_package() -> PackageId {
        PackageId(1)
    }

    /// The smallest id given to other packages.
    pub open spec fn unreserved_package_min() -> u32 {
        2
    }

    #[inline]
    pub fn new(id: u32) -> (r: Self)
        ensures
            r.0 == id,
    {
        PackageId(id)
    }

    #[inline]
    pub fn is_self(&self) -> (r: bool)
        ensures
            r == (*self == Self::self_package()),
    {
        self.0 == 0
    }

    #[inline]
    pub fn value(&self) -> (r: u32)
        ensures
            r == self.0,
    {
        self.0
    }
}

} // verus!
