//! One package of a workspace, as plain data: what its manifest declares,
//! and what is known of its files, its changelog and its release tags.

use vstd::prelude::*;

verus! {

/// The kind of a dependency.
#[derive(Clone, Copy, Debug, PartialEq, Eq, Hash, Structural)]
pub enum DepKind {
    /// Needed to build and run the package.
    Normal,
    /// Needed for tests, examples and benchmarks only.
    Development,
    /// Needed by the build script only.
    Build,
}

impl DepKind {
    /// The number that stands for the kind where kinds are stored.
    pub open spec fn spec_code(self) -> u8 {
        match self {
            DepKind::Normal => 0,
            DepKind::Development => 1,
            DepKind::Build => 2,
        }
    }

    /// The number that stands for the kind where kinds are stored.
    #[verifier::when_used_as_spec(spec_code)]
    pub fn code(self) -> (code: u8)
        ensures
            code == self.spec_code(),
    {
        match self {
            DepKind::Normal => 0,
            DepKind::Development => 1,
            DepKind::Build => 2,
        }
    }

    /// The kind that a number stands for, if it stands for one.
    pub fn from_code(code: u8) -> (kind: Option<DepKind>)
        ensures
            match kind {
                Some(k) => k.spec_code() == code,
                None => code > 2,
            },
    {
        if code == 0 {
            Some(DepKind::Normal)
        } else if code == 1 {
            Some(DepKind::Development)
        } else if code == 2 {
            Some(DepKind::Build)
        } else {
            None
        }
    }
}

/// Where a dependency comes from.
#[derive(Clone, Copy, Debug, PartialEq, Eq, Hash, Structural)]
pub enum DepSource {
    /// A directory, given by its path.
    Path,
    /// A registry of packages.
    Registry,
    /// Anything else.
    Other,
}

/// A dependency as a manifest declares it.
#[derive(Clone, Debug, PartialEq, Eq)]
pub struct Dependency {
    /// The name of the package that is depended on.
    pub name: String,
    /// The kind of the dependency.
    pub kind: DepKind,
    /// Whether the dependency is optional.
    pub optional: bool,
    /// Where the dependency comes from.
    pub source: DepSource,
}

/// A dependency of a package within its workspace: the name of the package
/// that is depended on, the code of the dependency's kind, and whether it
/// is optional.
pub type DependencyItem = (Seq<char>, u8, bool);

impl Dependency {
    /// What a set of dependencies keeps of this one.
    pub open spec fn item(self) -> DependencyItem {
        (self.name@, self.kind.spec_code(), self.optional)
    }
}

/// An entry of a changelog.
#[derive(Clone, Debug, PartialEq, Eq)]
pub enum Change {
    /// Changes that are not released yet.
    Unreleased,
    /// A release, with the version that it was given.
    Release(String),
}

/// What is read of the changelog of a package: the entries, newest first.
#[derive(Clone, Debug, PartialEq, Eq)]
pub struct Changelog {
    /// Whether the front matter marks the package as unreleasable.
    pub unreleasable: bool,
    /// The entries, newest first.
    pub changes: Vec<Change>,
}

/// What the version control tool answered when it was asked for the names
/// of the files that differ between two revisions.
#[derive(Clone, Debug, PartialEq, Eq)]
pub struct DiffOutput {
    /// The exit code, if the tool ended with one.
    pub exit_code: Option<i32>,
    /// What the tool wrote to its standard output.
    pub stdout: Vec<u8>,
}

/// A tag of the repository that marks a release of a package.
#[derive(Clone, Debug, PartialEq, Eq)]
pub struct ReleaseTag {
    /// The name of the tag.
    pub name: String,
    /// The differences between the tag and the current head, under the root
    /// of the package.
    pub diff: DiffOutput,
}

/// One package of a workspace.
#[derive(Clone, Debug, PartialEq, Eq)]
pub struct Crate {
    /// The name, as the manifest gives it.
    pub name: String,
    /// The version, as the manifest gives it.
    pub version: String,
    /// The directory that holds the manifest.
    pub root: String,
    /// The dependencies that the manifest declares, in its order.
    pub dependencies: Vec<Dependency>,
    /// Whether the root holds a readme.
    pub has_readme: bool,
    /// The changelog, if the root holds one.
    pub changelog: Option<Changelog>,
    /// The release tags of the package that the repository holds.
    pub release_tags: Vec<ReleaseTag>,
}

impl Crate {
    /// The name, as the manifest gives it.
    pub fn name(&self) -> (name: &String)
        ensures
            name@ == self.name@,
    {
        &self.name
    }

    /// The version, as the manifest gives it.
    pub fn version(&self) -> (version: &String)
        ensures
            version@ == self.version@,
    {
        &self.version
    }

    /// The changelog, if the root holds one.
    pub fn changelog(&self) -> (changelog: &Option<Changelog>)
        ensures
            *changelog == self.changelog,
    {
        &self.changelog
    }

    /// The directory that holds the manifest.
    pub fn root(&self) -> (root: &String)
        ensures
            root@ == self.root@,
    {
        &self.root
    }
}

} // verus!
