//! The criteria by which packages are selected for a release.

use vstd::prelude::*;
use crate::flags::{CrateStateFlags, FlagSet};
use crate::package::{DepKind, Dependency, DepSource};

verus! {

/// The criteria by which packages are selected for a release.
#[derive(Clone, Debug, PartialEq, Eq)]
pub struct SelectionCriteria {
    /// A regular expression: a package whose name it matches anywhere is
    /// matched. Anchor the expression to match whole names only.
    pub selection_filter: String,
    /// Version requirements that the version of every package has to meet.
    pub enforced_version_reqs: Vec<String>,
    /// Version requirements that the version of no package may meet.
    pub disallowed_version_reqs: Vec<String>,
    /// The blockers that are forgiven in a package that is a dependency
    /// only.
    pub allowed_dependency_blockers: FlagSet,
    /// The blockers that are forgiven in a package that is matched.
    pub allowed_selection_blockers: FlagSet,
    /// The kinds of dependencies that are left out.
    pub exclude_dep_kinds: Vec<DepKind>,
    /// Whether optional dependencies are left out.
    pub exclude_optional_deps: bool,
}

impl Default for SelectionCriteria {
    /// The criteria that match every name, require nothing of a version,
    /// forgive nothing and leave no dependency out.
    fn default() -> (criteria: SelectionCriteria)
        ensures
            criteria.selection_filter@ == ".*"@,
            criteria.enforced_version_reqs@.len() == 0,
            criteria.disallowed_version_reqs@.len() == 0,
            criteria.allowed_dependency_blockers@ == Set::<CrateStateFlags>::empty(),
            criteria.allowed_selection_blockers@ == Set::<CrateStateFlags>::empty(),
            criteria.exclude_dep_kinds@.len() == 0,
            !criteria.exclude_optional_deps,
    {
        SelectionCriteria {
            selection_filter: ".*".to_owned(),
            enforced_version_reqs: Vec::new(),
            disallowed_version_reqs: Vec::new(),
            allowed_dependency_blockers: FlagSet::empty(),
            allowed_selection_blockers: FlagSet::empty(),
            exclude_dep_kinds: Vec::new(),
            exclude_optional_deps: false,
        }
    }
}

impl SelectionCriteria {
    /// The dependency counts: it comes from a path, and neither its being
    /// optional nor its kind leaves it out.
    pub open spec fn admits(&self, dependency: Dependency) -> bool {
        dependency.source == DepSource::Path && !(dependency.optional
            && self.exclude_optional_deps) && !self.exclude_dep_kinds@.contains(dependency.kind)
    }

    /// Whether the kind is one of those that are left out.
    pub fn excludes_kind(&self, kind: DepKind) -> (b: bool)
        ensures
            b == self.exclude_dep_kinds@.contains(kind),
    {
        let mut i: usize = 0;
        while i < self.exclude_dep_kinds.len()
            invariant
                i <= self.exclude_dep_kinds.len(),
                forall|j: int| 0 <= j < i ==> self.exclude_dep_kinds@[j] != kind,
            decreases self.exclude_dep_kinds.len() - i,
        {
            if self.exclude_dep_kinds[i].code() == kind.code() {
                return true;
            }
            i += 1;
        }
        false
    }

    /// Whether the dependency counts.
    pub fn admits_dependency(&self, dependency: &Dependency) -> (b: bool)
        ensures
            b == self.admits(*dependency),
    {
        if !matches!(dependency.source, DepSource::Path) {
            return false;
        }
        if dependency.optional && self.exclude_optional_deps {
            return false;
        }
        !self.excludes_kind(dependency.kind)
    }
}

} // verus!
