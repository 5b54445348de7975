//! Semantic versions: reading one from text, the patch and minor bumps, and
//! writing the result back as text.

use crate::text::{decimal, decimal_text};
use vstd::prelude::*;
use vstd::string::*;

verus! {

/// The numeric part of a semantic version.
#[derive(Clone, Copy, Debug, PartialEq, Eq, Structural)]
pub struct Version {
    pub major: u64,
    pub minor: u64,
    pub patch: u64,
}

/// Why a version could not be bumped.
#[derive(Clone, Copy, Debug, PartialEq, Eq, Structural)]
pub enum VersionError {
    /// The text is no semantic version.
    Malformed,
    /// The component to increment is already the largest that fits.
    Overflow,
}

/// The size of a release step.
#[derive(Clone, Copy, Debug, PartialEq, Eq, Structural)]
pub enum BumpKind {
    Patch,
    Minor,
}

/// `semver::Error`, the error of the parser of the `semver` crate. Nothing
/// is read from it; it is told apart from success only.
#[verifier::external_type_specification]
#[verifier::external_body]
pub struct ExSemverError(semver::Error);

/// What `semver::Version::parse` makes of `text`: the major, minor and patch
/// numbers of the version it reads, or `None` where it reports an error.
pub uninterp spec fn semver_numbers(text: Seq<char>) -> Option<(u64, u64, u64)>;

/// Three numbers in decimal with dots between them.
pub open spec fn numbers_text(major: u64, minor: u64, patch: u64) -> Seq<char> {
    decimal(major as nat) + seq!['.'] + decimal(minor as nat) + seq!['.'] + decimal(patch as nat)
}

/// Calls `semver::Version::parse` and hands back the three numbers of the
/// version read, or the parser's error. The claims are that the outcome is a
/// function of the text, named `semver_numbers`, and that three numbers
/// written in decimal without leading zeros, with dots between them, are
/// read as these numbers: the parser reads each number digit by digit and
/// accepts the text where nothing follows the third.
#[verifier::external_body]
fn semver_parse(text: &str) -> (r: Result<(u64, u64, u64), semver::Error>)
    ensures
        r is Ok <==> semver_numbers(text@) is Some,
        r matches Ok(t) ==> semver_numbers(text@) == Some(t),
        r matches Ok(t) ==> (forall|v: Version| text@ == #[trigger] v.text() ==> t == (v.major, v.minor, v.patch)),
        r is Err ==> (forall|v: Version| text@ != #[trigger] v.text()),
{
    match semver::Version::parse(text) {
        Ok(v) => Ok((v.major, v.minor, v.patch)),
        Err(e) => Err(e),
    }
}

impl Version {
    /// The version that `text` stands for, if it is a semantic version.
    pub open spec fn parsed(text: Seq<char>) -> Option<Version> {
        match semver_numbers(text) {
            Some(t) => Some(Version { major: t.0, minor: t.1, patch: t.2 }),
            None => None,
        }
    }

    /// The next patch release: the patch number goes up by one.
    pub open spec fn next_patch(self) -> Version {
        Version { major: self.major, minor: self.minor, patch: (self.patch + 1) as u64 }
    }

    /// The next minor release: the minor number goes up by one and the patch
    /// number returns to zero.
    pub open spec fn next_minor(self) -> Version {
        Version { major: self.major, minor: (self.minor + 1) as u64, patch: 0 }
    }

    /// The release that follows `self` by a step of `kind`.
    pub open spec fn next(self, kind: BumpKind) -> Version {
        match kind {
            BumpKind::Patch => self.next_patch(),
            BumpKind::Minor => self.next_minor(),
        }
    }

    /// Whether a step of `kind` can be taken without leaving `u64`.
    pub open spec fn can_bump(self, kind: BumpKind) -> bool {
        match kind {
            BumpKind::Patch => self.patch < u64::MAX,
            BumpKind::Minor => self.minor < u64::MAX,
        }
    }

    /// `major.minor.patch` in decimal.
    pub open spec fn text(self) -> Seq<char> {
        numbers_text(self.major, self.minor, self.patch)
    }

    pub fn new(major: u64, minor: u64, patch: u64) -> (v: Version)
        ensures
            v == (Version { major, minor, patch }),
    {
        Version { major, minor, patch }
    }

    /// Reads a semantic version. Pre-release and build parts are accepted and
    /// dropped. What `text` writes is read back from it.
    pub fn parse(text: &str) -> (r: Result<Version, VersionError>)
        ensures
            r == match Version::parsed(text@) {
                Some(v) => Ok::<Version, VersionError>(v),
                None => Err::<Version, VersionError>(VersionError::Malformed),
            },
            forall|v: Version| text@ == #[trigger] v.text() ==> r == Ok::<Version, VersionError>(v),
    {
        match semver_parse(text) {
            Ok(t) => {
                Ok(Version { major: t.0, minor: t.1, patch: t.2 })
            },
            Err(_) => Err(VersionError::Malformed),
        }
    }

    pub fn bump_patch(&self) -> (v: Version)
        requires
            self.patch < u64::MAX,
        ensures
            v == self.next_patch(),
            v.major == self.major && v.minor == self.minor && v.patch == self.patch + 1,
    {
        Version { major: self.major, minor: self.minor, patch: self.patch + 1 }
    }

    pub fn bump_minor(&self) -> (v: Version)
        requires
            self.minor < u64::MAX,
        ensures
            v == self.next_minor(),
            v.major == self.major && v.minor == self.minor + 1 && v.patch == 0,
    {
        Version { major: self.major, minor: self.minor + 1, patch: 0 }
    }

    /// The release that follows by a step of `kind`, or `None` where the
    /// number to increment is `u64::MAX`.
    pub fn bump(&self, kind: BumpKind) -> (r: Option<Version>)
        ensures
            r == if self.can_bump(kind) {
                Some(self.next(kind))
            } else {
                None
            },
    {
        match kind {
            BumpKind::Patch => if self.patch < u64::MAX {
                Some(self.bump_patch())
            } else {
                None
            },
            BumpKind::Minor => if self.minor < u64::MAX {
                Some(self.bump_minor())
            } else {
                None
            },
        }
    }

    /// The version as `major.minor.patch`.
    pub fn to_text(&self) -> (s: String)
        ensures
            s@ == self.text(),
    {
        proof {
            reveal_strlit(".");
        }
        let mut s = decimal_text(self.major);
        s.append(".");
        let minor = decimal_text(self.minor);
        s.append(minor.as_str());
        s.append(".");
        let patch = decimal_text(self.patch);
        s.append(patch.as_str());
        assert("."@ =~= seq!['.']);
        s
    }
}

/// What `bump_text` returns for `text` and `kind`.
pub open spec fn bumped_text(text: Seq<char>, kind: BumpKind) -> Result<Seq<char>, VersionError> {
    match Version::parsed(text) {
        None => Err(VersionError::Malformed),
        Some(v) => if v.can_bump(kind) {
            Ok(v.next(kind).text())
        } else {
            Err(VersionError::Overflow)
        },
    }
}

/// What a step of `kind` makes of the version `v`, as text.
pub open spec fn bumped(v: Version, kind: BumpKind) -> Result<Seq<char>, VersionError> {
    if v.can_bump(kind) {
        Ok(v.next(kind).text())
    } else {
        Err(VersionError::Overflow)
    }
}

/// `r` is `expected`, the text taken by its characters.
pub open spec fn is_outcome(r: Result<String, VersionError>, expected: Result<Seq<char>, VersionError>) -> bool {
    match r {
        Ok(s) => expected == Ok::<Seq<char>, VersionError>(s@),
        Err(e) => expected == Err::<Seq<char>, VersionError>(e),
    }
}

/// Reads the version in `text`, takes a step of `kind` and writes the result.
pub fn bump_text(text: &str, kind: BumpKind) -> (r: Result<String, VersionError>)
    ensures
        is_outcome(r, bumped_text(text@, kind)),
        forall|v: Version| text@ == #[trigger] v.text() ==> is_outcome(r, bumped(v, kind)),
{
    match Version::parse(text) {
        Err(e) => Err(e),
        Ok(v) => match v.bump(kind) {
            Some(next) => Ok(next.to_text()),
            None => Err(VersionError::Overflow),
        },
    }
}

/// The text of the patch release that follows the version in `text`.
pub fn bump_patch(text: &str) -> (r: Result<String, VersionError>)
    ensures
        is_outcome(r, bumped_text(text@, BumpKind::Patch)),
        forall|v: Version| text@ == #[trigger] v.text() ==> is_outcome(r, bumped(v, BumpKind::Patch)),
{
    bump_text(text, BumpKind::Patch)
}

/// The text of the minor release that follows the version in `text`.
pub fn bump_minor(text: &str) -> (r: Result<String, VersionError>)
    ensures
        is_outcome(r, bumped_text(text@, BumpKind::Minor)),
        forall|v: Version| text@ == #[trigger] v.text() ==> is_outcome(r, bumped(v, BumpKind::Minor)),
{
    bump_text(text, BumpKind::Minor)
}

} // verus!
