//! The state of one package: its flags, the decisions derived from them, and
//! the blockers that are forgiven.

use vstd::prelude::*;
use crate::flags::{blocking_states, CrateStateFlags, FlagSet, MetaCrateStateFlags, MetaFlagSet};

verus! {

/// What a `CrateState` holds, as mathematical sets.
pub struct StateView {
    /// The state flags.
    pub flags: Set<CrateStateFlags>,
    /// The meta flags as they are stored.
    pub meta_flags: Set<MetaCrateStateFlags>,
    /// The blockers that are forgiven when the package is a dependency only.
    pub allowed_dependency_blockers: Set<CrateStateFlags>,
    /// The blockers that are forgiven when the package is matched.
    pub allowed_selection_blockers: Set<CrateStateFlags>,
}

impl StateView {
    /// The name of the package matches the selection filter.
    pub open spec fn is_matched(self) -> bool {
        self.flags.contains(CrateStateFlags::Matched)
    }

    /// A matched package depends on the package.
    pub open spec fn is_dependency(self) -> bool {
        self.flags.contains(CrateStateFlags::IsWorkspaceDependency)
    }

    /// The blocking flags that are set.
    pub open spec fn blocked_by(self) -> Set<CrateStateFlags> {
        blocking_states().intersect(self.flags)
    }

    /// The blockers that are forgiven in the role that the package has: those
    /// of a selection if it is matched, else those of a dependency if it is
    /// one, else none.
    pub open spec fn forgiven(self) -> Set<CrateStateFlags> {
        if self.is_matched() {
            self.allowed_selection_blockers
        } else if self.is_dependency() {
            self.allowed_dependency_blockers
        } else {
            Set::empty()
        }
    }

    /// The blocking flags that are set and not forgiven.
    pub open spec fn disallowed_blockers(self) -> Set<CrateStateFlags> {
        self.blocked_by().difference(self.forgiven())
    }

    /// Some blocking flag is set.
    pub open spec fn blocked(self) -> bool {
        self.blocked_by() != Set::<CrateStateFlags>::empty()
    }

    /// No blocking flag is left once the forgiven ones are taken away.
    pub open spec fn allowed(self) -> bool {
        self.disallowed_blockers() == Set::<CrateStateFlags>::empty()
    }

    /// There is something to release: no earlier release, or changes since.
    pub open spec fn changed(self) -> bool {
        !self.flags.contains(CrateStateFlags::HasPreviousRelease) || self.flags.contains(
            CrateStateFlags::ChangedSincePreviousRelease,
        )
    }

    /// The package is matched or a dependency of a matched one.
    pub open spec fn selected(self) -> bool {
        self.is_matched() || self.is_dependency()
    }

    /// The package takes part in the release.
    pub open spec fn release_selection(self) -> bool {
        !self.blocked() && (self.changed() || self.selected())
    }

    /// Whether a meta flag follows from the state flags.
    pub open spec fn derives(self, meta: MetaCrateStateFlags) -> bool {
        match meta {
            MetaCrateStateFlags::Allowed => self.allowed(),
            MetaCrateStateFlags::Blocked => self.blocked(),
            MetaCrateStateFlags::Changed => self.changed(),
            MetaCrateStateFlags::Selected => self.selected(),
        }
    }

    /// The meta flags that follow from the state flags.
    pub open spec fn derived_meta_flags(self) -> Set<MetaCrateStateFlags> {
        Set::new(|meta: MetaCrateStateFlags| self.derives(meta))
    }

    /// The stored meta flags are those that follow from the state flags.
    pub open spec fn meta_is_current(self) -> bool {
        self.meta_flags == self.derived_meta_flags()
    }

    /// The state with the given flags and forgiven blockers, and the meta
    /// flags that follow from them.
    pub open spec fn of(
        flags: Set<CrateStateFlags>,
        allowed_dependency_blockers: Set<CrateStateFlags>,
        allowed_selection_blockers: Set<CrateStateFlags>,
    ) -> StateView {
        let bare = StateView {
            flags,
            meta_flags: Set::empty(),
            allowed_dependency_blockers,
            allowed_selection_blockers,
        };
        StateView {
            flags,
            meta_flags: bare.derived_meta_flags(),
            allowed_dependency_blockers,
            allowed_selection_blockers,
        }
    }

    /// The state with one more flag, and the meta flags that follow.
    pub open spec fn with_flag(self, flag: CrateStateFlags) -> StateView {
        StateView::of(
            self.flags.insert(flag),
            self.allowed_dependency_blockers,
            self.allowed_selection_blockers,
        )
    }
}

/// The state of one package with regard to a release.
#[derive(Clone, Copy, Debug, PartialEq, Eq, Hash)]
pub struct CrateState {
    flags: FlagSet,
    meta_flags: MetaFlagSet,
    allowed_dependency_blockers: FlagSet,
    allowed_selection_blockers: FlagSet,
}

impl View for CrateState {
    type V = StateView;

    closed spec fn view(&self) -> StateView {
        StateView {
            flags: self.flags@,
            meta_flags: self.meta_flags@,
            allowed_dependency_blockers: self.allowed_dependency_blockers@,
            allowed_selection_blockers: self.allowed_selection_blockers@,
        }
    }
}

impl Default for CrateState {
    /// The state without flags and without forgiven blockers.
    fn default() -> (state: CrateState)
        ensures
            state@ == StateView::of(Set::empty(), Set::empty(), Set::empty()),
    {
        CrateState::new(FlagSet::empty(), FlagSet::empty(), FlagSet::empty())
    }
}

impl CrateState {
    /// The set of the flags that block a release.
    pub fn blocking_states() -> (set: FlagSet)
        ensures
            set@ == blocking_states(),
    {
        FlagSet::blocking()
    }

    /// The state with the given flags and forgiven blockers.
    pub fn new(
        flags: FlagSet,
        allowed_dependency_blockers: FlagSet,
        allowed_selection_blockers: FlagSet,
    ) -> (state: CrateState)
        ensures
            state@ == StateView::of(flags@, allowed_dependency_blockers@, allowed_selection_blockers@),
    {
        let mut new = CrateState {
            flags,
            meta_flags: MetaFlagSet::empty(),
            allowed_dependency_blockers,
            allowed_selection_blockers,
        };
        new.update_meta_flags();
        new
    }

    /// Adds the flags of `other`; its forgiven blockers are not taken over.
    pub fn merge(&mut self, other: CrateState)
        ensures
            final(self)@ == StateView::of(
                old(self)@.flags.union(other@.flags),
                old(self)@.allowed_dependency_blockers,
                old(self)@.allowed_selection_blockers,
            ),
    {
        self.flags.extend(other.flags);
        self.update_meta_flags();
    }

    /// Adds one flag.
    pub fn insert(&mut self, flag: CrateStateFlags)
        ensures
            final(self)@ == old(self)@.with_flag(flag),
    {
        self.flags.insert(flag);
        self.update_meta_flags();
    }

    /// The state flags.
    pub fn flags(&self) -> (flags: FlagSet)
        ensures
            flags@ == self@.flags,
    {
        self.flags
    }

    /// The meta flags, as they were derived when the state last changed.
    pub fn meta_flags(&self) -> (meta_flags: MetaFlagSet)
        ensures
            meta_flags@ == self@.meta_flags,
    {
        self.meta_flags
    }

    /// Whether the name of the package matches the selection filter.
    pub fn is_matched(&self) -> (b: bool)
        ensures
            b == self@.is_matched(),
    {
        self.flags.contains(CrateStateFlags::Matched)
    }

    /// Whether a matched package depends on the package.
    pub fn is_dependency(&self) -> (b: bool)
        ensures
            b == self@.is_dependency(),
    {
        self.flags.contains(CrateStateFlags::IsWorkspaceDependency)
    }

    /// Derives the meta flags anew from the state flags.
    pub fn update_meta_flags(&mut self)
        ensures
            final(self)@ == StateView::of(
                old(self)@.flags,
                old(self)@.allowed_dependency_blockers,
                old(self)@.allowed_selection_blockers,
            ),
    {
        if self.changed() {
            self.meta_flags.insert(MetaCrateStateFlags::Changed);
        } else {
            self.meta_flags.remove(MetaCrateStateFlags::Changed);
        }

        if !self.blocked_by().is_empty() {
            self.meta_flags.insert(MetaCrateStateFlags::Blocked);
        } else {
            self.meta_flags.remove(MetaCrateStateFlags::Blocked);
        }

        if self.disallowed_blockers().is_empty() {
            self.meta_flags.insert(MetaCrateStateFlags::Allowed);
        } else {
            self.meta_flags.remove(MetaCrateStateFlags::Allowed);
        }

        if self.selected() {
            self.meta_flags.insert(MetaCrateStateFlags::Selected);
        } else {
            self.meta_flags.remove(MetaCrateStateFlags::Selected);
        }
        proof {
            let expected = StateView::of(
                old(self)@.flags,
                old(self)@.allowed_dependency_blockers,
                old(self)@.allowed_selection_blockers,
            );
            assert(self@.blocked_by() == expected.blocked_by());
            assert(self@.disallowed_blockers() == expected.disallowed_blockers());
            assert forall|meta: MetaCrateStateFlags|
                self@.meta_flags.contains(meta) == expected.meta_flags.contains(meta) by {
                match meta {
                    MetaCrateStateFlags::Allowed => {},
                    MetaCrateStateFlags::Blocked => {},
                    MetaCrateStateFlags::Changed => {},
                    MetaCrateStateFlags::Selected => {},
                }
            }
            assert(self@.meta_flags =~= expected.meta_flags);
        }
    }

    /// The blocking flags that are set.
    pub fn blocked_by(&self) -> (set: FlagSet)
        ensures
            set@ == self@.blocked_by(),
    {
        CrateState::blocking_states().intersection(self.flags)
    }

    /// The blocking flags that are set and not forgiven in the role that the
    /// package has.
    pub fn disallowed_blockers(&self) -> (set: FlagSet)
        ensures
            set@ == self@.disallowed_blockers(),
    {
        let mut blocking_flags = self.blocked_by();

        if self.is_matched() {
            blocking_flags.remove(self.allowed_selection_blockers);
        } else if self.is_dependency() {
            blocking_flags.remove(self.allowed_dependency_blockers);
        } else {
            proof {
                assert(blocking_flags@ =~= blocking_flags@.difference(Set::empty()));
            }
        }

        blocking_flags
    }

    /// Whether some blocking flag is set.
    pub fn blocked(&self) -> (b: bool)
        ensures
            b == self@.blocked(),
    {
        !self.blocked_by().is_empty()
    }

    /// Whether no blocking flag is left once the forgiven ones are taken
    /// away.
    pub fn allowed(&self) -> (b: bool)
        ensures
            b == self@.allowed(),
    {
        self.disallowed_blockers().is_empty()
    }

    /// Whether there is something to release.
    pub fn changed(&self) -> (b: bool)
        ensures
            b == self@.changed(),
    {
        !self.flags.contains(CrateStateFlags::HasPreviousRelease) || self.flags.contains(
            CrateStateFlags::ChangedSincePreviousRelease,
        )
    }

    /// Whether the package is matched or a dependency of a matched one.
    pub fn selected(&self) -> (b: bool)
        ensures
            b == self@.selected(),
    {
        self.is_matched() || self.is_dependency()
    }

    /// Whether the package takes part in the release.
    pub fn release_selection(&self) -> (b: bool)
        ensures
            b == self@.release_selection(),
    {
        !self.blocked() && (self.changed() || self.selected())
    }
}

} // verus!
