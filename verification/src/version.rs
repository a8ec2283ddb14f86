//! Semantic-ish versions of game modules and the bounds that dependencies put on them.

use vstd::prelude::*;

verus! {

/// A module version: major, minor and fix numbers.
#[derive(Clone, Copy, Debug, PartialEq, Eq, Structural, PartialOrd, Ord, Hash)]
pub struct Version(pub u64, pub u64, pub u64);

impl Default for Version {
    /// The version a module has when its definition names none: `0.1.0`.
    fn default() -> (v: Self)
        ensures
            v == Version(0, 1, 0),
    {
        Version(0, 1, 0)
    }
}

/// A bound on one component of a version.
#[derive(Clone, Copy, Debug, PartialEq, Eq, Structural, PartialOrd, Ord, Hash)]
pub enum VersionBound {
    Any,
    AtLeast(u64),
    Between(u64, u64),
    Exactly(u64),
    Outside(u64, u64),
}

impl Default for VersionBound {
    fn default() -> (b: Self)
        ensures
            b == VersionBound::Any,
    {
        VersionBound::Any
    }
}

impl VersionBound {
    /// Whether the component `i` meets this bound.
    pub open spec fn allows(self, i: u64) -> bool {
        match self {
            VersionBound::Any => true,
            VersionBound::AtLeast(n) => i >= n,
            VersionBound::Between(a, b) => a <= i && i <= b,
            VersionBound::Exactly(n) => i == n,
            VersionBound::Outside(a, b) => i < a && i > b,
        }
    }

    pub fn is_valid(self, i: u64) -> (r: bool)
        ensures
            r == self.allows(i),
    {
        match self {
            VersionBound::Any => true,
            VersionBound::AtLeast(n) => i >= n,
            VersionBound::Between(a, b) => a <= i && i <= b,
            VersionBound::Exactly(n) => i == n,
            VersionBound::Outside(a, b) => i < a && i > b,
        }
    }
}

/// The versions of a module that a dependent module accepts.
#[derive(Clone, Copy, Debug, PartialEq, Eq, Structural, PartialOrd, Ord, Hash)]
pub enum VersionDependency {
    Any,
    Versioned(VersionBound, VersionBound, VersionBound),
}

impl Default for VersionDependency {
    fn default() -> (d: Self)
        ensures
            d == VersionDependency::Any,
    {
        VersionDependency::Any
    }
}

impl VersionDependency {
    /// Whether `version` meets this dependency: every component meets its bound.
    pub open spec fn allows(self, version: Version) -> bool {
        match self {
            VersionDependency::Any => true,
            VersionDependency::Versioned(maj, min, fix) => {
                &&& maj.allows(version.0)
                &&& min.allows(version.1)
                &&& fix.allows(version.2)
            },
        }
    }

    pub fn is_valid(&self, version: Version) -> (r: bool)
        ensures
            r == self.allows(version),
    {
        match self {
            VersionDependency::Any => true,
            VersionDependency::Versioned(maj, min, fix) => maj.is_valid(version.0) && min.is_valid(
                version.1,
            ) && fix.is_valid(version.2),
        }
    }
}


/// A range admits exactly the components at or above its lower end and at or below
/// its upper end: below the lower end it rejects, and a one-value range is an
/// exact bound.
pub proof fn lemma_between_bounds(a: u64, b: u64, i: u64)
    ensures
        VersionBound::Between(a, b).allows(i) <==> (VersionBound::AtLeast(a).allows(i) && i <= b),
        i < a ==> !VersionBound::Between(a, b).allows(i),
        i > b ==> !VersionBound::Between(a, b).allows(i),
        a <= i && i <= b ==> VersionBound::Between(a, b).allows(i),
        VersionBound::Between(a, a).allows(i) == VersionBound::Exactly(a).allows(i),
        VersionBound::AtLeast(a).allows(i) == VersionBound::Between(a, u64::MAX).allows(i),
        VersionBound::Any.allows(i),
        VersionBound::Exactly(a).allows(i) <==> i == a,
{
}

/// A versioned dependency accepts a version exactly when each of its three bounds
/// accepts the matching component; an unversioned one accepts every version.
pub proof fn lemma_dependency_componentwise(
    major: VersionBound,
    minor: VersionBound,
    fix: VersionBound,
    v: Version,
)
    ensures
        VersionDependency::Versioned(major, minor, fix).allows(v) <==> (major.allows(v.0)
            && minor.allows(v.1) && fix.allows(v.2)),
        VersionDependency::Any.allows(v),
{
}

} // verus!
