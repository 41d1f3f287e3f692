//! What is to be resolved, and how.

use crate::requirement::Requirement;
use vstd::prelude::*;

verus! {

/// The input of a resolution.
#[derive(Debug, Clone)]
pub struct Manifest {
    /// The requirements that the resolution has to satisfy.
    pub requirements: Vec<Requirement>,
    /// Specifiers that narrow the versions of a package wherever it is
    /// needed, without ever making it needed.
    pub constraints: Vec<Requirement>,
    /// Versions to be chosen before all others where they are admissible.
    pub preferences: Vec<Requirement>,
    /// The name of the project that the requirements belong to, if any.
    pub project: Option<String>,
}

/// Which of the admissible versions of a package is tried first.
#[derive(Debug, Clone, Copy, PartialEq, Eq, Structural)]
pub enum ResolutionMode {
    /// The highest version of every package.
    Highest,
    /// The lowest version of every package.
    Lowest,
    /// The lowest version of the packages that the manifest requires, the
    /// highest of all others.
    LowestDirect,
}

/// Which pre-releases are admitted.
#[derive(Debug, Clone, Copy, PartialEq, Eq, Structural)]
pub enum PreReleaseMode {
    /// None.
    Disallow,
    /// Those of packages without any admissible final release, and only
    /// once nothing could be resolved without them.
    IfNecessary,
    /// Those of packages for which a requirement of the manifest names a
    /// pre-release in a specifier.
    Explicit,
    /// All.
    Allow,
}

/// The options of a resolution.
#[derive(Debug, Clone, Copy, PartialEq, Eq, Structural)]
pub struct ResolutionOptions {
    pub mode: ResolutionMode,
    pub prerelease: PreReleaseMode,
    /// Files uploaded after this time, in seconds since the epoch, are left out.
    pub exclude_newer: Option<i64>,
}

impl Manifest {
    /// A manifest of requirements, constraints, preferences and project name.
    pub fn new(
        requirements: Vec<Requirement>,
        constraints: Vec<Requirement>,
        preferences: Vec<Requirement>,
        project: Option<String>,
    ) -> (m: Manifest)
        ensures
            m.requirements == requirements,
            m.constraints == constraints,
            m.preferences == preferences,
            m.project == project,
    {
        Manifest { requirements, constraints, preferences, project }
    }
}

impl ResolutionOptions {
    /// Options with the given modes and cutoff.
    pub fn new(mode: ResolutionMode, prerelease: PreReleaseMode, exclude_newer: Option<i64>) -> (o:
        ResolutionOptions)
        ensures
            o == (ResolutionOptions { mode, prerelease, exclude_newer }),
    {
        ResolutionOptions { mode, prerelease, exclude_newer }
    }
}

impl Default for ResolutionMode {
    fn default() -> (m: ResolutionMode)
        ensures
            m == ResolutionMode::Highest,
    {
        ResolutionMode::Highest
    }
}

} // verus!
