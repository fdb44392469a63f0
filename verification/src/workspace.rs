//! The workspace: its members, the criteria of the selection, and what is
//! derived from them and kept once it has been worked out.

use vstd::prelude::*;
use vstd::pervasive::unreached;
use vstd::string::StringExecFns;
use linked_hash_map::LinkedHashMap;
use linked_hash_set::LinkedHashSet;
use crate::collections::{
    dependency_items, dependency_set_to_vec, has_key, item_view, state_entries, state_map_get,
    state_map_to_vec,
};
use crate::criteria::SelectionCriteria;
use crate::dependencies::{dependency_walk, find_member, lemma_member_from, walk_dependencies};
use crate::error::{ErrorView, SelectionError};
use crate::order::{
    acyclic, adjacency_is_right, dependency_order, depends_on, lemma_dependency_order,
    names_valid, order_is_right, order_members, workspace_dependencies,
};
use crate::package::{Changelog, Crate, DepKind, Dependency, DependencyItem, DepSource};
use crate::reach::{lemma_dependency_walk, lemma_reached_is_declared, reaches, reaches_within};
use crate::report::{named_states, report_text};
use crate::state::{CrateState, StateView};
use crate::states::{
    compute_states, dependencies_held, entries_view, lemma_entries_view_keys,
    lemma_states_from_keys, member_states, state_of,
};

verus! {

/// The place of the first member from `from` on whose name is empty or
/// that of an earlier member.
pub open spec fn first_invalid_name(members: Seq<Crate>, from: int) -> Option<usize>
    decreases members.len() - from,
{
    if from < 0 || from >= members.len() {
        None
    } else if members[from].name@.len() == 0 || exists|earlier: int|
        0 <= earlier < from && (#[trigger] members[earlier]).name@ == members[from].name@ {
        Some(from as usize)
    } else {
        first_invalid_name(members, from + 1)
    }
}

/// The place of the first member from `from` on that lies on a cycle.
pub open spec fn first_on_cycle(members: Seq<Crate>, criteria: SelectionCriteria, from: int)
    -> Option<usize>
    decreases members.len() - from,
{
    if from < 0 || from >= members.len() {
        None
    } else if dependency_walk(members, criteria, from as usize) is Err {
        Some(from as usize)
    } else {
        first_on_cycle(members, criteria, from + 1)
    }
}

/// The error that says that the member lies on a cycle: it names the
/// member and the one that declares the dependency on it.
pub open spec fn cycle_error(members: Seq<Crate>, criteria: SelectionCriteria, member: usize)
    -> ErrorView {
    ErrorView::DependencyCycle {
        from: members[member as int].name@,
        to: members[dependency_walk(members, criteria, member)->Err_0 as int].name@,
    }
}

/// The dependencies of a member within the workspace, or the error that
/// says that it lies on a cycle.
pub open spec fn member_dependencies(
    members: Seq<Crate>,
    criteria: SelectionCriteria,
    member: usize,
) -> Result<Seq<DependencyItem>, ErrorView> {
    match dependency_walk(members, criteria, member) {
        Ok(found) => Ok(found),
        Err(_) => Err(cycle_error(members, criteria, member)),
    }
}

/// The members in the order of their dependencies, or the error that says
/// that a member lies on a cycle: the first such member, in the order of
/// the workspace.
pub open spec fn sorted_members(members: Seq<Crate>, criteria: SelectionCriteria) -> Result<
    Seq<usize>,
    ErrorView,
> {
    match first_on_cycle(members, criteria, 0) {
        Some(member) => Err(cycle_error(members, criteria, member)),
        None => Ok(dependency_order(members, criteria)),
    }
}

/// The states of the workspace, or the error that ends their working out:
/// a cycle first, then what keeps the flags of a member from being had.
pub open spec fn workspace_states(members: Seq<Crate>, criteria: SelectionCriteria) -> Result<
    Seq<(Seq<char>, StateView)>,
    ErrorView,
> {
    match sorted_members(members, criteria) {
        Err(error) => Err(error),
        Ok(_) => member_states(members, criteria),
    }
}

/// Where `first_on_cycle` finds nothing from the first member on, no
/// member lies on a cycle.
pub proof fn lemma_first_on_cycle(members: Seq<Crate>, criteria: SelectionCriteria, from: int)
    requires
        0 <= from,
        members.len() <= usize::MAX,
    ensures
        match first_on_cycle(members, criteria, from) {
            Some(at) => from <= at < members.len() && dependency_walk(members, criteria, at) is Err
                && forall|i: usize|
                from <= i < at ==> #[trigger] dependency_walk(members, criteria, i) is Ok,
            None => forall|i: usize|
                from <= i < members.len() ==> #[trigger] dependency_walk(members, criteria, i) is Ok,
        },
    decreases members.len() - from,
{
    if from < members.len() && dependency_walk(members, criteria, from as usize) is Ok {
        lemma_first_on_cycle(members, criteria, from + 1);
    }
}

/// A workspace of packages, with the criteria by which packages are
/// selected for a release.
pub struct ReleaseWorkspace {
    root_path: String,
    criteria: SelectionCriteria,
    changelog: Option<Changelog>,
    members: Vec<Crate>,
    dependencies: Vec<Option<LinkedHashSet<(String, u8, bool)>>>,
    dependents: Vec<Option<Vec<usize>>>,
    members_sorted: Option<Vec<usize>>,
    members_states: Option<LinkedHashMap<String, CrateState>>,
}

/// What is kept of the dependencies of a member is right.
pub open spec fn kept_dependencies_right(
    members: Seq<Crate>,
    criteria: SelectionCriteria,
    member: int,
    kept: Option<LinkedHashSet<(String, u8, bool)>>,
) -> bool {
    match kept {
        Some(set) => dependency_walk(members, criteria, member as usize) == Ok::<
            Seq<DependencyItem>,
            usize,
        >(dependency_items(set)),
        None => true,
    }
}

/// The members that depend on the member, in the order of their
/// dependencies: those among the first `count` of the order.
pub open spec fn dependents_among(
    members: Seq<Crate>,
    criteria: SelectionCriteria,
    member: int,
    order: Seq<usize>,
    count: int,
) -> Seq<usize>
    decreases count,
{
    if count <= 0 || count > order.len() {
        Seq::empty()
    } else if depends_on(members, criteria, order[count - 1] as int, member) {
        dependents_among(members, criteria, member, order, count - 1).push(order[count - 1])
    } else {
        dependents_among(members, criteria, member, order, count - 1)
    }
}

/// The members that depend on the member, directly or through others, in
/// the order of their dependencies.
pub open spec fn dependents_of(members: Seq<Crate>, criteria: SelectionCriteria, member: int)
    -> Seq<usize> {
    dependents_among(
        members,
        criteria,
        member,
        dependency_order(members, criteria),
        dependency_order(members, criteria).len() as int,
    )
}

/// What is kept of the dependents of a member is right.
pub open spec fn kept_dependents_right(
    members: Seq<Crate>,
    criteria: SelectionCriteria,
    member: int,
    kept: Option<Vec<usize>>,
) -> bool {
    match kept {
        Some(dependents) => sorted_members(members, criteria) is Ok && dependents@
            == dependents_of(members, criteria, member),
        None => true,
    }
}

/// The members among the first `count` of the order that the release
/// needs and that are blocked without being forgiven, each with its state.
pub open spec fn blocked_required(
    members: Seq<Crate>,
    entries: Seq<(Seq<char>, StateView)>,
    order: Seq<usize>,
    count: int,
) -> Seq<(Seq<char>, StateView)>
    decreases count,
{
    if count <= 0 || count > order.len() {
        Seq::empty()
    } else {
        let rest = blocked_required(members, entries, order, count - 1);
        let name = members[order[count - 1] as int].name@;
        let state = state_of(entries, name);
        if state.selected() && !state.allowed() {
            rest.push((name, state))
        } else {
            rest
        }
    }
}

/// The members among the first `count` of the order that take part in the
/// release.
pub open spec fn released(
    members: Seq<Crate>,
    entries: Seq<(Seq<char>, StateView)>,
    order: Seq<usize>,
    count: int,
) -> Seq<usize>
    decreases count,
{
    if count <= 0 || count > order.len() {
        Seq::empty()
    } else {
        let rest = released(members, entries, order, count - 1);
        let name = members[order[count - 1] as int].name@;
        if state_of(entries, name).release_selection() {
            rest.push(order[count - 1])
        } else {
            rest
        }
    }
}

/// What the error says when packages that the release needs are blocked:
/// a sentence, and the report on those packages with what blocks them.
pub open spec fn blocked_message(blocked: Seq<(Seq<char>, StateView)>) -> Seq<char> {
    "the following crates are blocked but required for the release: \n"@ + report_text(
        blocked,
        "DISALLOWED BLOCKING CRATES"@,
        true,
        false,
        false,
    )
}

/// The members that take part in the release, in the order of their
/// dependencies: those that are not blocked and are changed or selected.
/// `Err` where the states cannot be had, and where a member that is
/// selected is blocked without being forgiven.
pub open spec fn release_selection_of(members: Seq<Crate>, criteria: SelectionCriteria) -> Result<
    Seq<usize>,
    ErrorView,
> {
    match workspace_states(members, criteria) {
        Err(error) => Err(error),
        Ok(entries) => {
            let order = dependency_order(members, criteria);
            let blocked = blocked_required(members, entries, order, order.len() as int);
            if blocked.len() > 0 {
                Err(ErrorView::BlockedReleaseRequired { report: blocked_message(blocked) })
            } else {
                Ok(released(members, entries, order, order.len() as int))
            }
        },
    }
}

/// One of the first `count` dependencies has the name.
pub open spec fn named_before(found: Seq<DependencyItem>, count: int, name: Seq<char>) -> bool {
    exists|j: int| 0 <= j < count && (#[trigger] found[j]).0 == name
}

impl ReleaseWorkspace {
    /// The workspace is sound: the names of its members are valid, and
    /// what it keeps of what is derived is what would be worked out anew.
    /// Every workspace that this library hands out is sound.
    pub closed spec fn wf(&self) -> bool {
        &&& names_valid(self.members@)
        &&& self.members@.len() <= usize::MAX
        &&& self.dependencies@.len() == self.members@.len()
        &&& self.dependents@.len() == self.members@.len()
        &&& forall|i: int|
            0 <= i < self.members@.len() ==> kept_dependencies_right(
                self.members@,
                self.criteria,
                i,
                #[trigger] self.dependencies@[i],
            )
        &&& forall|i: int|
            0 <= i < self.members@.len() ==> kept_dependents_right(
                self.members@,
                self.criteria,
                i,
                #[trigger] self.dependents@[i],
            )
        &&& match self.members_sorted {
            Some(order) => sorted_members(self.members@, self.criteria) == Ok::<
                Seq<usize>,
                ErrorView,
            >(order@) && forall|i: int|
                0 <= i < self.members@.len() ==> (#[trigger] self.dependencies@[i]) is Some,
            None => true,
        }
        &&& match self.members_states {
            Some(map) => workspace_states(self.members@, self.criteria) == Ok::<
                Seq<(Seq<char>, StateView)>,
                ErrorView,
            >(entries_view(state_entries(map))),
            None => true,
        }
    }

    /// The members, in the order of the workspace.
    pub closed spec fn members_view(&self) -> Seq<Crate> {
        self.members@
    }

    /// The criteria of the selection.
    pub closed spec fn criteria_view(&self) -> SelectionCriteria {
        self.criteria
    }

    /// The root directory.
    pub closed spec fn root_view(&self) -> Seq<char> {
        self.root_path@
    }

    /// The changelog of the workspace as a whole.
    pub closed spec fn changelog_view(&self) -> Option<Changelog> {
        self.changelog
    }

    /// Nothing that is derived is kept: all is worked out anew when it is
    /// asked for.
    pub closed spec fn is_fresh(&self) -> bool {
        &&& self.members_sorted is None
        &&& self.members_states is None
        &&& forall|i: int| 0 <= i < self.dependencies@.len() ==> self.dependencies@[i] is None
        &&& forall|i: int| 0 <= i < self.dependents@.len() ==> self.dependents@[i] is None
    }

    /// The two workspaces were made of the same root, members, changelog
    /// and criteria.
    pub open spec fn same_inputs(&self, other: &ReleaseWorkspace) -> bool {
        &&& self.members_view() == other.members_view()
        &&& self.criteria_view() == other.criteria_view()
        &&& self.root_view() == other.root_view()
        &&& self.changelog_view() == other.changelog_view()
    }

    /// Makes a workspace of the packages found below a root directory,
    /// with criteria that select every package and block none.
    pub fn try_new(root_path: String, members: Vec<Crate>, changelog: Option<Changelog>) -> (r:
        Result<ReleaseWorkspace, SelectionError>)
        ensures
            match r {
                Ok(workspace) => workspace.wf() && first_invalid_name(members@, 0) is None && names_valid(members@)
                    && workspace.members_view() == members@ && workspace.root_view()
                    == root_path@ && workspace.changelog_view() == changelog
                    && workspace.criteria_view().selection_filter@ == ".*"@
                    && workspace.criteria_view().enforced_version_reqs@.len() == 0
                    && workspace.criteria_view().disallowed_version_reqs@.len() == 0
                    && workspace.criteria_view().allowed_dependency_blockers@ == Set::<
                    crate::flags::CrateStateFlags,
                >::empty() && workspace.criteria_view().allowed_selection_blockers@ == Set::<
                    crate::flags::CrateStateFlags,
                >::empty() && workspace.criteria_view().exclude_dep_kinds@.len() == 0
                    && !workspace.criteria_view().exclude_optional_deps && workspace.is_fresh(),
                Err(error) => first_invalid_name(members@, 0) matches Some(member) && error@
                    == (ErrorView::WorkspaceLoad { member }),
            },
    {
        ReleaseWorkspace::try_new_with_criteria(
            root_path,
            members,
            changelog,
            SelectionCriteria::default(),
        )
    }

    /// Makes a workspace of the packages found below a root directory,
    /// with the given criteria. The names of the packages have to be
    /// valid: none empty, none taken twice.
    pub fn try_new_with_criteria(
        root_path: String,
        members: Vec<Crate>,
        changelog: Option<Changelog>,
        criteria: SelectionCriteria,
    ) -> (r: Result<ReleaseWorkspace, SelectionError>)
        ensures
            match r {
                Ok(workspace) => workspace.wf() && first_invalid_name(members@, 0) is None && names_valid(members@)
                    && workspace.members_view() == members@ && workspace.root_view()
                    == root_path@ && workspace.changelog_view() == changelog
                    && workspace.criteria_view() == criteria && workspace.is_fresh(),
                Err(error) => first_invalid_name(members@, 0) matches Some(member) && error@
                    == (ErrorView::WorkspaceLoad { member }),
            },
    {
        let mut i: usize = 0;
        while i < members.len()
            invariant
                i <= members.len(),
                first_invalid_name(members@, 0) == first_invalid_name(members@, i as int),
                names_valid(members@.take(i as int)),
            decreases members.len() - i,
        {
            if members[i].name.as_str().unicode_len() == 0 {
                return Err(SelectionError::WorkspaceLoad { member: i });
            }
            let mut earlier: usize = 0;
            while earlier < i
                invariant
                    earlier <= i < members.len(),
                    first_invalid_name(members@, 0) == first_invalid_name(members@, i as int),
                    forall|k: int|
                        0 <= k < earlier ==> (#[trigger] members@[k]).name@
                            != members@[i as int].name@,
                decreases i - earlier,
            {
                if members[earlier].name == members[i].name {
                    assert(members@[earlier as int].name@ == members@[i as int].name@);
                    return Err(SelectionError::WorkspaceLoad { member: i });
                }
                earlier += 1;
            }
            proof {
                let shorter = members@.take(i as int);
                let longer = members@.take(i + 1);
                assert forall|a: int, b: int| 0 <= a < b < longer.len() implies (
                #[trigger] longer[a]).name@ != (#[trigger] longer[b]).name@ by {
                    if b < i {
                        assert(shorter[a].name@ != shorter[b].name@);
                    }
                }
                assert forall|a: int| 0 <= a < longer.len() implies (#[trigger] longer[a]).name@.len()
                    > 0 by {
                    if a < i {
                        assert(shorter[a].name@.len() > 0);
                    }
                }
            }
            i += 1;
        }
        assert(members@.take(members.len() as int) =~= members@);
        let count = members.len();
        let mut dependencies: Vec<Option<LinkedHashSet<(String, u8, bool)>>> = Vec::new();
        let mut dependents: Vec<Option<Vec<usize>>> = Vec::new();
        let mut k: usize = 0;
        while k < count
            invariant
                k <= count,
                dependencies@.len() == k,
                dependents@.len() == k,
                forall|j: int| 0 <= j < k ==> dependencies@[j] is None,
                forall|j: int| 0 <= j < k ==> dependents@[j] is None,
            decreases count - k,
        {
            dependencies.push(None);
            dependents.push(None);
            k += 1;
        }
        Ok(
            ReleaseWorkspace {
                root_path,
                criteria,
                changelog,
                members,
                dependencies,
                dependents,
                members_sorted: None,
                members_states: None,
            },
        )
    }

    /// Drops all that was derived and kept, so that it is worked out anew
    /// when it is next asked for. The members and the criteria stay.
    pub fn reset_state(&mut self)
        requires
            old(self).wf(),
        ensures
            final(self).wf(),
            final(self).same_inputs(old(self)),
            final(self).is_fresh(),
    {
        let count = self.members.len();
        let mut dependencies: Vec<Option<LinkedHashSet<(String, u8, bool)>>> = Vec::new();
        let mut dependents: Vec<Option<Vec<usize>>> = Vec::new();
        let mut k: usize = 0;
        while k < count
            invariant
                k <= count,
                dependencies@.len() == k,
                dependents@.len() == k,
                forall|j: int| 0 <= j < k ==> dependencies@[j] is None,
                forall|j: int| 0 <= j < k ==> dependents@[j] is None,
            decreases count - k,
        {
            dependencies.push(None);
            dependents.push(None);
            k += 1;
        }
        self.members_sorted = None;
        self.members_states = None;
        self.dependencies = dependencies;
        self.dependents = dependents;
    }

    /// The members, in the order of the workspace.
    pub fn members_unsorted(&self) -> (members: &Vec<Crate>)
        requires
            self.wf(),
        ensures
            members@ == self.members_view(),
            names_valid(members@),
    {
        &self.members
    }

    /// The root directory.
    pub fn root(&self) -> (root: &String)
        ensures
            root@ == self.root_view(),
    {
        &self.root_path
    }

    /// The changelog of the workspace as a whole, if there is one.
    pub fn changelog(&self) -> (changelog: &Option<Changelog>)
        ensures
            *changelog == self.changelog_view(),
    {
        &self.changelog
    }

    /// The criteria of the selection.
    pub fn criteria(&self) -> (criteria: &SelectionCriteria)
        ensures
            *criteria == self.criteria_view(),
    {
        &self.criteria
    }

    /// Works out the dependencies of the member within the workspace,
    /// unless they are kept already, and keeps them.
    fn load_dependencies(&mut self, member: usize) -> (r: Result<(), SelectionError>)
        requires
            old(self).wf(),
            member < old(self).members@.len(),
        ensures
            final(self).wf(),
            final(self).same_inputs(old(self)),
            final(self).members_sorted == old(self).members_sorted,
            final(self).members_states == old(self).members_states,
            final(self).dependents == old(self).dependents,
            final(self).dependencies@.len() == old(self).dependencies@.len(),
            forall|i: int|
                0 <= i < old(self).dependencies@.len() && i != member ==> final(self).dependencies@[i]
                    == old(self).dependencies@[i],
            match r {
                Ok(()) => final(self).dependencies@[member as int] is Some,
                Err(error) => member_dependencies(
                    old(self).members@,
                    old(self).criteria,
                    member,
                ) == Err::<Seq<DependencyItem>, ErrorView>(error@) && final(self).dependencies
                    == old(self).dependencies,
            },
    {
        if self.dependencies[member].is_some() {
            return Ok(());
        }
        match walk_dependencies(&self.members, &self.criteria, member) {
            Err(error) => Err(error),
            Ok(set) => {
                self.dependencies.set(member, Some(set));
                Ok(())
            },
        }
    }

    /// The dependencies of the member within the workspace, direct and
    /// through other members, in the order in which the walk from the member
    /// finds them. They are worked out once and kept.
    pub fn dependencies_in_workspace(&mut self, member: usize) -> (r: Result<
        Vec<Dependency>,
        SelectionError,
    >)
        requires
            old(self).wf(),
            member < old(self).members_view().len(),
        ensures
            final(self).wf(),
            final(self).same_inputs(old(self)),
            match r {
                Ok(dependencies) => match member_dependencies(
                    old(self).members_view(),
                    old(self).criteria_view(),
                    member,
                ) {
                    Ok(found) => dependencies@.len() == found.len() && forall|i: int|
                        0 <= i < found.len() ==> (#[trigger] dependencies@[i]).item() == found[i]
                            && dependencies@[i].source == DepSource::Path,
                    Err(_) => false,
                },
                Err(error) => member_dependencies(
                    old(self).members_view(),
                    old(self).criteria_view(),
                    member,
                ) == Err::<Seq<DependencyItem>, ErrorView>(error@),
            },
    {
        match self.load_dependencies(member) {
            Err(error) => {
                return Err(error);
            },
            Ok(()) => {},
        }
        proof {
            lemma_dependency_walk(self.members@, self.criteria, member);
        }
        let items = match &self.dependencies[member] {
            Some(set) => dependency_set_to_vec(set),
            None => unreached(),
        };
        let ghost found = workspace_dependencies(self.members@, self.criteria, member as int);
        proof {
            assert forall|j: int| 0 <= j < found.len() implies reaches(
                self.members@,
                self.criteria,
                member as int,
                #[trigger] found[j],
            ) by {
                assert(found.contains(found[j]));
            }
        }
        let mut dependencies: Vec<Dependency> = Vec::new();
        let mut i: usize = 0;
        while i < items.len()
            invariant
                i <= items.len(),
                items@.len() == found.len(),
                forall|j: int| 0 <= j < items@.len() ==> item_view(#[trigger] items@[j]) == found[j],
                forall|j: int|
                    0 <= j < found.len() ==> reaches(
                        self.members@,
                        self.criteria,
                        member as int,
                        #[trigger] found[j],
                    ),
                dependencies@.len() == i,
                forall|j: int|
                    0 <= j < i ==> (#[trigger] dependencies@[j]).item() == found[j]
                        && dependencies@[j].source == DepSource::Path,
            decreases items.len() - i,
        {
            proof {
                assert(item_view(items@[i as int]) == found[i as int]);
                assert(reaches(self.members@, self.criteria, member as int, found[i as int]));
                let steps = choose|steps: nat|
                    reaches_within(
                        self.members@,
                        self.criteria,
                        member as int,
                        found[i as int],
                        steps,
                    );
                lemma_reached_is_declared(
                    self.members@,
                    self.criteria,
                    member as int,
                    found[i as int],
                    steps,
                );
            }
            let kind = match DepKind::from_code(items[i].1) {
                Some(kind) => kind,
                None => unreached(),
            };
            dependencies.push(
                Dependency {
                    name: items[i].0.clone(),
                    kind,
                    optional: items[i].2,
                    source: DepSource::Path,
                },
            );
            i += 1;
        }
        Ok(dependencies)
    }

    /// The places of the members that the member depends on.
    fn member_dependencies_of(&self, member: usize) -> (needs: Vec<usize>)
        requires
            self.wf(),
            member < self.members@.len(),
            self.dependencies@[member as int] is Some,
        ensures
            forall|other: int|
                0 <= other < self.members@.len() ==> (needs@.contains(other as usize)
                    <==> #[trigger] depends_on(self.members@, self.criteria, member as int, other)),
            forall|k: int| 0 <= k < needs@.len() ==> (#[trigger] needs@[k]) < self.members@.len(),
    {
        let items = match &self.dependencies[member] {
            Some(set) => dependency_set_to_vec(set),
            None => unreached(),
        };
        let ghost found = workspace_dependencies(self.members@, self.criteria, member as int);
        let mut needs: Vec<usize> = Vec::new();
        let mut i: usize = 0;
        while i < items.len()
            invariant
                i <= items.len(),
                items@.len() == found.len(),
                names_valid(self.members@),
                self.members@.len() <= usize::MAX,
                forall|j: int| 0 <= j < items@.len() ==> item_view(#[trigger] items@[j]) == found[j],
                forall|k: int| 0 <= k < needs@.len() ==> (#[trigger] needs@[k]) < self.members@.len(),
                forall|other: usize|
                    other < self.members@.len() ==> (#[trigger] needs@.contains(other)
                        <==> named_before(found, i as int, self.members@[other as int].name@)),
            decreases items.len() - i,
        {
            let ghost before = needs@;
            assert(item_view(items@[i as int]) == found[i as int]);
            let target = find_member(&self.members, &items[i].0);
            proof {
                lemma_member_from(self.members@, found[i as int].0, 0);
            }
            match target {
                None => {},
                Some(at) => {
                    needs.push(at);
                    assert(needs@[before.len() as int] == at);
                },
            }
            proof {
                assert forall|other: usize| other < self.members@.len() implies (
                #[trigger] needs@.contains(other) <==> named_before(
                    found,
                    i + 1,
                    self.members@[other as int].name@,
                )) by {
                    let name = self.members@[other as int].name@;
                    if needs@.contains(other) {
                        let k = choose|k: int| 0 <= k < needs@.len() && needs@[k] == other;
                        if k < before.len() {
                            assert(before[k] == other);
                            assert(before.contains(other));
                            let j = choose|j: int| 0 <= j < i && (#[trigger] found[j]).0 == name;
                            assert(0 <= j < i + 1 && found[j].0 == name);
                        } else {
                            assert(found[i as int].0 == name);
                        }
                    }
                    if named_before(found, i + 1, name) {
                        let j = choose|j: int| 0 <= j < i + 1 && (#[trigger] found[j]).0 == name;
                        if j < i {
                            assert(named_before(found, i as int, name));
                            assert(before.contains(other));
                            let k = choose|k: int| 0 <= k < before.len() && before[k] == other;
                            assert(needs@[k] == other);
                        } else {
                            assert(target == Some(other));
                            assert(needs@[before.len() as int] == other);
                        }
                    }
                }
            }
            i += 1;
        }
        proof {
            assert forall|other: int| 0 <= other < self.members@.len() implies (needs@.contains(
                other as usize,
            ) <==> #[trigger] depends_on(self.members@, self.criteria, member as int, other)) by {
                let name = self.members@[other].name@;
                if needs@.contains(other as usize) {
                    assert(named_before(found, i as int, name));
                    let j = choose|j: int| 0 <= j < i && (#[trigger] found[j]).0 == name;
                    assert(found.contains(found[j]));
                }
                if depends_on(self.members@, self.criteria, member as int, other) {
                    let item = choose|item: DependencyItem| #[trigger]
                        found.contains(item) && item.0 == name;
                    let j = choose|j: int| 0 <= j < found.len() && found[j] == item;
                    assert(found[j].0 == name);
                    assert(named_before(found, i as int, name));
                }
            }
        }
        needs
    }

    /// Works out the order of the members, unless it is kept already, and
    /// keeps it.
    fn load_members_sorted(&mut self) -> (r: Result<(), SelectionError>)
        requires
            old(self).wf(),
        ensures
            final(self).wf(),
            final(self).same_inputs(old(self)),
            final(self).members_states == old(self).members_states,
            match r {
                Ok(()) => final(self).members_sorted is Some,
                Err(error) => sorted_members(old(self).members@, old(self).criteria) == Err::<
                    Seq<usize>,
                    ErrorView,
                >(error@),
            },
    {
        if self.members_sorted.is_some() {
            return Ok(());
        }
        let count = self.members.len();
        let mut member: usize = 0;
        while member < count
            invariant
                member <= count,
                self.wf(),
                count == self.members@.len(),
                self.same_inputs(old(self)),
                self.members@ == old(self).members@,
                self.criteria == old(self).criteria,
                self.members_states == old(self).members_states,
                self.dependencies@.len() == count,
                forall|i: int| 0 <= i < member ==> (#[trigger] self.dependencies@[i]) is Some,
                first_on_cycle(self.members@, self.criteria, 0) == first_on_cycle(
                    self.members@,
                    self.criteria,
                    member as int,
                ),
            decreases count - member,
        {
            match self.load_dependencies(member) {
                Err(error) => {
                    return Err(error);
                },
                Ok(()) => {
                    proof {
                                    assert(kept_dependencies_right(
                            self.members@,
                            self.criteria,
                            member as int,
                            self.dependencies@[member as int],
                        ));
                    }
                },
            }
            member += 1;
        }
        proof {
            lemma_first_on_cycle(self.members@, self.criteria, 0);
        }
        let mut adjacency: Vec<Vec<usize>> = Vec::new();
        let mut member: usize = 0;
        while member < count
            invariant
                member <= count,
                self.wf(),
                count == self.members@.len(),
                self.dependencies@.len() == count,
                forall|i: int| 0 <= i < count ==> (#[trigger] self.dependencies@[i]) is Some,
                adjacency@.len() == member,
                forall|first: int, second: int|
                    0 <= first < member && 0 <= second < count ==> (adjacency@[first]@.contains(
                        second as usize,
                    ) <==> #[trigger] depends_on(self.members@, self.criteria, first, second)),
                forall|first: int, k: int|
                    0 <= first < member && 0 <= k < adjacency@[first]@.len() ==> (
                    #[trigger] adjacency@[first]@[k]) < count,
            decreases count - member,
        {
            let needs = self.member_dependencies_of(member);
            adjacency.push(needs);
            member += 1;
        }
        proof {
            assert(acyclic(self.members@, self.criteria));
            assert(adjacency_is_right(self.members@, self.criteria, adjacency@));
        }
        let order = order_members(Ghost(self.members@), Ghost(self.criteria), &adjacency);
        self.members_sorted = Some(order);
        Ok(())
    }

    /// The places of the members, in the order of their dependencies:
    /// every member stands behind the members that it depends on. The order
    /// is worked out once and kept.
    pub fn members(&mut self) -> (r: Result<Vec<usize>, SelectionError>)
        requires
            old(self).wf(),
        ensures
            final(self).wf(),
            final(self).same_inputs(old(self)),
            match r {
                Ok(order) => sorted_members(
                    old(self).members_view(),
                    old(self).criteria_view(),
                ) == Ok::<Seq<usize>, ErrorView>(order@) && order_is_right(
                    old(self).members_view(),
                    old(self).criteria_view(),
                    order@,
                ),
                Err(error) => sorted_members(
                    old(self).members_view(),
                    old(self).criteria_view(),
                ) == Err::<Seq<usize>, ErrorView>(error@),
            },
    {
        match self.load_members_sorted() {
            Err(error) => {
                return Err(error);
            },
            Ok(()) => {},
        }
        proof {
            lemma_first_on_cycle(self.members@, self.criteria, 0);
            assert(acyclic(self.members@, self.criteria));
            lemma_dependency_order(self.members@, self.criteria);
        }
        match &self.members_sorted {
            Some(order) => Ok(copy_places(order)),
            None => unreached(),
        }
    }

    /// Works out the states of the workspace, unless they are kept
    /// already, and keeps them.
    fn load_members_states(&mut self) -> (r: Result<(), SelectionError>)
        requires
            old(self).wf(),
        ensures
            final(self).wf(),
            final(self).same_inputs(old(self)),
            match r {
                Ok(()) => final(self).members_states is Some && final(self).members_sorted is Some,
                Err(error) => workspace_states(old(self).members@, old(self).criteria) == Err::<
                    Seq<(Seq<char>, StateView)>,
                    ErrorView,
                >(error@),
            },
    {
        match self.load_members_sorted() {
            Err(error) => {
                return Err(error);
            },
            Ok(()) => {},
        }
        if self.members_states.is_some() {
            return Ok(());
        }
        proof {
            lemma_first_on_cycle(self.members@, self.criteria, 0);
            assert(acyclic(self.members@, self.criteria));
            lemma_dependency_order(self.members@, self.criteria);
            assert forall|i: int| 0 <= i < self.members@.len() implies dependencies_held(
                self.members@,
                self.criteria,
                i,
                #[trigger] self.dependencies@[i],
            ) by {
                assert(kept_dependencies_right(
                    self.members@,
                    self.criteria,
                    i,
                    self.dependencies@[i],
                ));
            }
        }
        let computed = match &self.members_sorted {
            Some(order) => compute_states(&self.members, &self.criteria, order, &self.dependencies),
            None => unreached(),
        };
        match computed {
            Err(error) => Err(error),
            Ok(map) => {
                self.members_states = Some(map);
                Ok(())
            },
        }
    }

    /// The states of the workspace, each under the name of its package:
    /// one for every member, and one for every dependency of a matched
    /// member. They are worked out once and kept.
    pub fn members_states(&mut self) -> (r: Result<Vec<(String, CrateState)>, SelectionError>)
        requires
            old(self).wf(),
        ensures
            final(self).wf(),
            final(self).same_inputs(old(self)),
            match r {
                Ok(states) => workspace_states(
                    old(self).members_view(),
                    old(self).criteria_view(),
                ) == Ok::<Seq<(Seq<char>, StateView)>, ErrorView>(named_states(states@)),
                Err(error) => workspace_states(
                    old(self).members_view(),
                    old(self).criteria_view(),
                ) == Err::<Seq<(Seq<char>, StateView)>, ErrorView>(error@),
            },
    {
        match self.load_members_states() {
            Err(error) => {
                return Err(error);
            },
            Ok(()) => {},
        }
        match &self.members_states {
            Some(map) => {
                let states = state_map_to_vec(map);
                assert(named_states(states@) =~= entries_view(state_entries(*map)));
                Ok(states)
            },
            None => unreached(),
        }
    }

    /// The state of the member.
    pub fn state(&mut self, member: usize) -> (r: Result<CrateState, SelectionError>)
        requires
            old(self).wf(),
            member < old(self).members_view().len(),
        ensures
            final(self).wf(),
            final(self).same_inputs(old(self)),
            match r {
                Ok(state) => match workspace_states(
                    old(self).members_view(),
                    old(self).criteria_view(),
                ) {
                    Ok(entries) => has_key(
                        entries,
                        old(self).members_view()[member as int].name@,
                    ) && state@ == state_of(entries, old(self).members_view()[member as int].name@),
                    Err(_) => false,
                },
                Err(error) => workspace_states(
                    old(self).members_view(),
                    old(self).criteria_view(),
                ) == Err::<Seq<(Seq<char>, StateView)>, ErrorView>(error@),
            },
    {
        match self.load_members_states() {
            Err(error) => {
                return Err(error);
            },
            Ok(()) => {},
        }
        match &self.members_states {
            Some(map) => Ok(self.state_in(map, member)),
            None => unreached(),
        }
    }

    /// The state that the map keeps under the name of the member.
    fn state_in(&self, map: &LinkedHashMap<String, CrateState>, member: usize) -> (state:
        CrateState)
        requires
            self.wf(),
            member < self.members@.len(),
            workspace_states(self.members@, self.criteria) == Ok::<
                Seq<(Seq<char>, StateView)>,
                ErrorView,
            >(entries_view(state_entries(*map))),
        ensures
            has_key(entries_view(state_entries(*map)), self.members@[member as int].name@),
            state@ == state_of(
                entries_view(state_entries(*map)),
                self.members@[member as int].name@,
            ),
    {
        proof {
            let order = dependency_order(self.members@, self.criteria);
            lemma_first_on_cycle(self.members@, self.criteria, 0);
            assert(acyclic(self.members@, self.criteria));
            lemma_dependency_order(self.members@, self.criteria);
            lemma_states_from_keys(self.members@, self.criteria, order, 0, Seq::empty());
            assert(order.contains(member));
            let p = choose|p: int| 0 <= p < order.len() && order[p] == member;
            assert(has_key(
                entries_view(state_entries(*map)),
                self.members@[order[p] as int].name@,
            ));
            lemma_entries_view_keys(state_entries(*map), self.members@[member as int].name@);
        }
        match state_map_get(map, self.members[member].name.as_str()) {
            Some(state) => state,
            None => unreached(),
        }
    }

    /// The places of the members that take part in the release, in the
    /// order of their dependencies. A member takes part where it is not
    /// blocked and is changed or selected. Where a member that is selected
    /// is blocked without being forgiven, there is no release: the error
    /// holds a report on all such members.
    pub fn release_selection(&mut self) -> (r: Result<Vec<usize>, SelectionError>)
        requires
            old(self).wf(),
        ensures
            final(self).wf(),
            final(self).same_inputs(old(self)),
            match r {
                Ok(selection) => release_selection_of(
                    old(self).members_view(),
                    old(self).criteria_view(),
                ) == Ok::<Seq<usize>, ErrorView>(selection@),
                Err(error) => release_selection_of(
                    old(self).members_view(),
                    old(self).criteria_view(),
                ) == Err::<Seq<usize>, ErrorView>(error@),
            },
    {
        match self.load_members_states() {
            Err(error) => {
                return Err(error);
            },
            Ok(()) => {},
        }
        proof {
            lemma_first_on_cycle(self.members@, self.criteria, 0);
            assert(acyclic(self.members@, self.criteria));
            lemma_dependency_order(self.members@, self.criteria);
        }
        let map = match &self.members_states {
            Some(map) => map,
            None => unreached(),
        };
        let order = match &self.members_sorted {
            Some(order) => order,
            None => unreached(),
        };
        let ghost entries = entries_view(state_entries(*map));
        let mut blocked: Vec<(String, CrateState)> = Vec::new();
        let mut selection: Vec<usize> = Vec::new();
        let mut at: usize = 0;
        assert(named_states(blocked@) =~= blocked_required(self.members@, entries, order@, 0));
        while at < order.len()
            invariant
                at <= order.len(),
                self.wf(),
                order@ == dependency_order(self.members@, self.criteria),
                forall|p: int| 0 <= p < order@.len() ==> (#[trigger] order@[p]) < self.members@.len(),
                entries == entries_view(state_entries(*map)),
                workspace_states(self.members@, self.criteria) == Ok::<
                    Seq<(Seq<char>, StateView)>,
                    ErrorView,
                >(entries),
                named_states(blocked@) == blocked_required(
                    self.members@,
                    entries,
                    order@,
                    at as int,
                ),
                selection@ == released(self.members@, entries, order@, at as int),
            decreases order.len() - at,
        {
            let member = order[at];
            let state = self.state_in(map, member);
            let ghost before = named_states(blocked@);
            if state.selected() && !state.allowed() {
                blocked.push((self.members[member].name.clone(), state));
                assert(named_states(blocked@) =~= before.push(
                    (self.members@[member as int].name@, state@),
                ));
            } else {
                assert(named_states(blocked@) =~= before);
            }
            if state.release_selection() {
                selection.push(member);
            }
            at += 1;
        }
        if blocked.len() > 0 {
            let mut report = String::from_str(
                "the following crates are blocked but required for the release: \n",
            );
            let listing = CrateState::format_crates_states(
                &blocked,
                "DISALLOWED BLOCKING CRATES",
                true,
                false,
                false,
            );
            report.append(listing.as_str());
            return Err(SelectionError::BlockedReleaseRequired { report });
        }
        Ok(selection)
    }

    /// Whether the first member depends on the second.
    fn member_depends_on(&self, first: usize, second: usize) -> (b: bool)
        requires
            self.wf(),
            first < self.members@.len(),
            second < self.members@.len(),
            self.dependencies@[first as int] is Some,
        ensures
            b == depends_on(self.members@, self.criteria, first as int, second as int),
    {
        let needs = self.member_dependencies_of(first);
        let mut k: usize = 0;
        while k < needs.len()
            invariant
                k <= needs.len(),
                second < self.members@.len(),
                forall|other: int|
                    0 <= other < self.members@.len() ==> (needs@.contains(other as usize)
                        <==> #[trigger] depends_on(
                        self.members@,
                        self.criteria,
                        first as int,
                        other,
                    )),
                forall|j: int| 0 <= j < k ==> needs@[j] != second,
            decreases needs.len() - k,
        {
            if needs[k] == second {
                assert(needs@.contains(second));
                return true;
            }
            k += 1;
        }
        false
    }

    /// The places of the members that depend on the member, directly or
    /// through others, in the order of their dependencies. They are worked
    /// out once and kept.
    pub fn dependents_in_workspace(&mut self, member: usize) -> (r: Result<
        Vec<usize>,
        SelectionError,
    >)
        requires
            old(self).wf(),
            member < old(self).members_view().len(),
        ensures
            final(self).wf(),
            final(self).same_inputs(old(self)),
            match r {
                Ok(dependents) => sorted_members(
                    old(self).members_view(),
                    old(self).criteria_view(),
                ) is Ok && dependents@ == dependents_of(
                    old(self).members_view(),
                    old(self).criteria_view(),
                    member as int,
                ),
                Err(error) => sorted_members(
                    old(self).members_view(),
                    old(self).criteria_view(),
                ) == Err::<Seq<usize>, ErrorView>(error@),
            },
    {
        match self.load_members_sorted() {
            Err(error) => {
                return Err(error);
            },
            Ok(()) => {},
        }
        proof {
            assert(kept_dependents_right(
                self.members@,
                self.criteria,
                member as int,
                self.dependents@[member as int],
            ));
        }
        if let Some(kept) = &self.dependents[member] {
            return Ok(copy_places(kept));
        }
        proof {
            lemma_first_on_cycle(self.members@, self.criteria, 0);
            assert(acyclic(self.members@, self.criteria));
            lemma_dependency_order(self.members@, self.criteria);
        }
        let mut dependents: Vec<usize> = Vec::new();
        {
            let order = match &self.members_sorted {
                Some(order) => order,
                None => unreached(),
            };
            let mut at: usize = 0;
            while at < order.len()
                invariant
                    at <= order.len(),
                    self.wf(),
                    member < self.members@.len(),
                    order@ == dependency_order(self.members@, self.criteria),
                    forall|p: int|
                        0 <= p < order@.len() ==> (#[trigger] order@[p]) < self.members@.len(),
                    forall|i: int|
                        0 <= i < self.members@.len() ==> (#[trigger] self.dependencies@[i]) is Some,
                    self.dependencies@.len() == self.members@.len(),
                    dependents@ == dependents_among(
                        self.members@,
                        self.criteria,
                        member as int,
                        order@,
                        at as int,
                    ),
                decreases order.len() - at,
            {
                let other = order[at];
                if self.member_depends_on(other, member) {
                    dependents.push(other);
                }
                at += 1;
            }
        }
        let copy = copy_places(&dependents);
        self.dependents.set(member, Some(dependents));
        Ok(copy)
    }
}

/// A copy of the places.
pub fn copy_places(places: &Vec<usize>) -> (copy: Vec<usize>)
    ensures
        copy@ == places@,
{
    let mut copy: Vec<usize> = Vec::new();
    let mut i: usize = 0;
    while i < places.len()
        invariant
            i <= places.len(),
            copy@ == places@.take(i as int),
        decreases places.len() - i,
    {
        copy.push(places[i]);
        assert(copy@ =~= places@.take(i + 1));
        i += 1;
    }
    assert(places@.take(places.len() as int) =~= places@);
    copy
}

} // verus!
