//! Laws that hold of the library, stated over the views of its types.

use vstd::prelude::*;
use crate::collections::has_key;
use crate::criteria::SelectionCriteria;
use crate::dependencies::{dependency_walk, lemma_member_from};
use crate::flags::{blocking_states, CrateStateFlags, MetaCrateStateFlags};
use crate::matching::regex_is_match;
use crate::order::{
    acyclic, dependency_order, depends_on, lemma_dependency_order, lemma_name_resolves,
    names_valid, order_is_right, workspace_dependencies,
};
use crate::package::{Crate, DependencyItem};
use crate::reach::{lemma_dependency_walk, on_cycle, reaches, resolves};
use crate::state::StateView;
use crate::states::{
    lemma_done_dependency, lemma_done_member, lemma_matched_flag, lemma_no_entries_reasons,
    lemma_reasons_of, lemma_states_from_flags, lemma_states_from_reasons, marked_by_some,
    member_flags, member_is_done, owned_by_some, state_of,
};
use crate::workspace::{
    dependents_of, lemma_first_on_cycle, member_dependencies, release_selection_of,
    sorted_members, workspace_states, ReleaseWorkspace,
};

verus! {

/// A state that was built from flags and forgiven blockers stores the meta
/// flags that follow from them.
pub proof fn law_built_state_is_current(
    flags: Set<CrateStateFlags>,
    allowed_dependency_blockers: Set<CrateStateFlags>,
    allowed_selection_blockers: Set<CrateStateFlags>,
)
    ensures
        StateView::of(
            flags,
            allowed_dependency_blockers,
            allowed_selection_blockers,
        ).meta_is_current(),
{
    let state = StateView::of(flags, allowed_dependency_blockers, allowed_selection_blockers);
    assert(state.meta_flags =~= state.derived_meta_flags());
}

/// A package is selected exactly when it is matched or a dependency of a
/// matched package, and the stored meta flag says the same.
pub proof fn law_selected(state: StateView)
    requires
        state.meta_is_current(),
    ensures
        state.selected() <==> state.flags.contains(CrateStateFlags::Matched)
            || state.flags.contains(CrateStateFlags::IsWorkspaceDependency),
        state.meta_flags.contains(MetaCrateStateFlags::Selected) <==> state.selected(),
{
    assert(state.derives(MetaCrateStateFlags::Selected) == state.selected());
}

/// A package is blocked exactly when one of its flags is a blocking flag,
/// and the stored meta flag says the same.
pub proof fn law_blocked(state: StateView)
    requires
        state.meta_is_current(),
    ensures
        state.blocked() <==> state.flags.intersect(blocking_states()) != Set::<
            CrateStateFlags,
        >::empty(),
        state.blocked() <==> exists|flag: CrateStateFlags|
            state.flags.contains(flag) && flag.is_blocking(),
        state.meta_flags.contains(MetaCrateStateFlags::Blocked) <==> state.blocked(),
{
    assert(state.derives(MetaCrateStateFlags::Blocked) == state.blocked());
    assert(state.flags.intersect(blocking_states()) =~= state.blocked_by());
    if state.blocked() {
        if forall|flag: CrateStateFlags| !(state.flags.contains(flag) && flag.is_blocking()) {
            assert(state.blocked_by() =~= Set::<CrateStateFlags>::empty());
        }
    } else {
        assert forall|flag: CrateStateFlags| !(state.flags.contains(flag) && flag.is_blocking()) by {
            assert(!state.blocked_by().contains(flag));
        }
    }
}

/// A package is allowed exactly when every blocking flag that is set is
/// forgiven in the role that the package has. So an allowed package is not
/// blocked, or all that blocks it is forgiven; and where no role applies,
/// allowed means not blocked.
pub proof fn law_allowed(state: StateView)
    requires
        state.meta_is_current(),
    ensures
        state.allowed() <==> forall|flag: CrateStateFlags|
            state.flags.contains(flag) && flag.is_blocking() ==> state.forgiven().contains(flag),
        state.allowed() ==> !state.blocked() || forall|flag: CrateStateFlags|
            state.blocked_by().contains(flag) ==> state.forgiven().contains(flag),
        !state.selected() ==> (state.allowed() <==> !state.blocked()),
        state.meta_flags.contains(MetaCrateStateFlags::Allowed) <==> state.allowed(),
{
    assert(state.derives(MetaCrateStateFlags::Allowed) == state.allowed());
    if state.allowed() {
        assert forall|flag: CrateStateFlags|
            state.flags.contains(flag) && flag.is_blocking() implies state.forgiven().contains(
            flag,
        ) by {
            assert(!state.disallowed_blockers().contains(flag));
        }
    } else {
        if forall|flag: CrateStateFlags|
            state.flags.contains(flag) && flag.is_blocking() ==> state.forgiven().contains(flag) {
            assert(state.disallowed_blockers() =~= Set::<CrateStateFlags>::empty());
        }
    }
    if !state.selected() {
        assert(state.disallowed_blockers() =~= state.blocked_by());
    }
}

/// A package takes part in the release exactly when it is not blocked and
/// is changed or selected: a change alone is enough.
pub proof fn law_release_selection(state: StateView)
    ensures
        state.release_selection() <==> !state.blocked() && (state.changed() || state.selected()),
        state.changed() && !state.blocked() ==> state.release_selection(),
{
}

/// A member depends on another exactly when it reaches a dependency that
/// names the other, by the dependencies that the criteria admit.
pub proof fn law_depends_on_is_reaching(
    members: Seq<Crate>,
    criteria: SelectionCriteria,
    first: int,
    second: int,
)
    requires
        names_valid(members),
        members.len() <= usize::MAX,
        0 <= first < members.len(),
        0 <= second < members.len(),
        dependency_walk(members, criteria, first as usize) is Ok,
    ensures
        depends_on(members, criteria, first, second) <==> exists|item: DependencyItem| #[trigger]
            reaches(members, criteria, first, item) && resolves(members, item, second as usize),
{
    let found = workspace_dependencies(members, criteria, first);
    lemma_dependency_walk(members, criteria, first as usize);
    lemma_name_resolves(members, second);
    if depends_on(members, criteria, first, second) {
        let item = choose|item: DependencyItem| #[trigger]
            found.contains(item) && item.0 == members[second].name@;
        assert(reaches(members, criteria, first, item) && resolves(
            members,
            item,
            second as usize,
        ));
    }
    if exists|item: DependencyItem| #[trigger]
        reaches(members, criteria, first, item) && resolves(members, item, second as usize) {
        let item = choose|item: DependencyItem| #[trigger]
            reaches(members, criteria, first, item) && resolves(members, item, second as usize);
        lemma_member_from(members, item.0, 0);
        assert(found.contains(item) && item.0 == members[second].name@);
    }
}

/// In the order of the members, no member stands before one that it
/// depends on: of two members, the one that stands first reaches no
/// dependency on the other. The order holds every member once.
pub proof fn law_dependencies_come_first(
    members: Seq<Crate>,
    criteria: SelectionCriteria,
    earlier: int,
    later: int,
)
    requires
        names_valid(members),
        members.len() <= usize::MAX,
        sorted_members(members, criteria) is Ok,
        0 <= earlier < later < members.len(),
    ensures
        order_is_right(members, criteria, sorted_members(members, criteria)->Ok_0),
        !depends_on(
            members,
            criteria,
            sorted_members(members, criteria)->Ok_0[earlier] as int,
            sorted_members(members, criteria)->Ok_0[later] as int,
        ),
        forall|item: DependencyItem| #[trigger]
            reaches(
                members,
                criteria,
                sorted_members(members, criteria)->Ok_0[earlier] as int,
                item,
            ) ==> !resolves(members, item, sorted_members(members, criteria)->Ok_0[later]),
{
    let order = dependency_order(members, criteria);
    lemma_first_on_cycle(members, criteria, 0);
    assert(acyclic(members, criteria));
    lemma_dependency_order(members, criteria);
    let first = order[earlier];
    let second = order[later];
    assert(!depends_on(members, criteria, first as int, second as int));
    law_depends_on_is_reaching(members, criteria, first as int, second as int);
}

/// A workspace has an order of its members exactly when no member lies on
/// a cycle of dependencies.
pub proof fn law_order_or_cycle(members: Seq<Crate>, criteria: SelectionCriteria)
    requires
        members.len() <= usize::MAX,
    ensures
        sorted_members(members, criteria) is Ok <==> forall|member: usize|
            member < members.len() ==> !#[trigger] on_cycle(members, criteria, member),
{
    lemma_first_on_cycle(members, criteria, 0);
    assert forall|member: usize| member < members.len() implies (#[trigger] on_cycle(
        members,
        criteria,
        member,
    ) <==> dependency_walk(members, criteria, member) is Err) by {
        lemma_dependency_walk(members, criteria, member);
    }
    if sorted_members(members, criteria) is Err {
        let member = crate::workspace::first_on_cycle(members, criteria, 0)->Some_0;
        assert(on_cycle(members, criteria, member));
    }
}

/// Where the states of a workspace can be had, every member has a state,
/// and the state has the flags of the member; and every member that a
/// matched member depends on, directly or through others, is marked as a
/// dependency within the workspace, and so is selected.
pub proof fn law_dependencies_are_marked(
    members: Seq<Crate>,
    criteria: SelectionCriteria,
    matched: int,
    dependency: int,
)
    requires
        names_valid(members),
        members.len() <= usize::MAX,
        workspace_states(members, criteria) is Ok,
        0 <= matched < members.len(),
        0 <= dependency < members.len(),
        regex_is_match(criteria.selection_filter@, members[matched].name@) == Some(true),
        depends_on(members, criteria, matched, dependency),
    ensures
        has_key(workspace_states(members, criteria)->Ok_0, members[matched].name@),
        state_of(workspace_states(members, criteria)->Ok_0, members[matched].name@).flags.contains(
            CrateStateFlags::Matched,
        ),
        has_key(workspace_states(members, criteria)->Ok_0, members[dependency].name@),
        state_of(
            workspace_states(members, criteria)->Ok_0,
            members[dependency].name@,
        ).flags.contains(CrateStateFlags::IsWorkspaceDependency),
        state_of(workspace_states(members, criteria)->Ok_0, members[dependency].name@).selected(),
{
    let entries = workspace_states(members, criteria)->Ok_0;
    law_every_member_has_a_state(members, criteria, matched);
    lemma_matched_flag(members[matched], criteria);
    let item = choose|item: DependencyItem| #[trigger]
        workspace_dependencies(members, criteria, matched).contains(item) && item.0
            == members[dependency].name@;
    law_member_is_done(members, criteria, matched);
    lemma_done_dependency(members, criteria, entries, matched, item);
}

/// Where the states of a workspace can be had, every member is done: its
/// state has its flags, and its dependencies are marked if it is matched.
pub proof fn law_member_is_done(members: Seq<Crate>, criteria: SelectionCriteria, member: int)
    requires
        names_valid(members),
        members.len() <= usize::MAX,
        workspace_states(members, criteria) is Ok,
        0 <= member < members.len(),
    ensures
        member_is_done(members, criteria, workspace_states(members, criteria)->Ok_0, member),
{
    let entries = workspace_states(members, criteria)->Ok_0;
    let order = dependency_order(members, criteria);
    lemma_first_on_cycle(members, criteria, 0);
    assert(acyclic(members, criteria));
    lemma_dependency_order(members, criteria);
    lemma_states_from_flags(members, criteria, order, 0, Seq::empty());
    assert(order.contains(member as usize));
    let p = choose|p: int| 0 <= p < order.len() && order[p] == member as usize;
    assert(member_is_done(members, criteria, entries, order[p] as int));
}

/// Where the states of a workspace can be had, every member has a state,
/// and the state has the flags that the member has of its own.
pub proof fn law_every_member_has_a_state(
    members: Seq<Crate>,
    criteria: SelectionCriteria,
    member: int,
)
    requires
        names_valid(members),
        members.len() <= usize::MAX,
        workspace_states(members, criteria) is Ok,
        0 <= member < members.len(),
    ensures
        has_key(workspace_states(members, criteria)->Ok_0, members[member].name@),
        member_flags(members[member], criteria) is Ok,
        member_flags(members[member], criteria)->Ok_0.subset_of(
            state_of(workspace_states(members, criteria)->Ok_0, members[member].name@).flags,
        ),
{
    law_member_is_done(members, criteria, member);
    lemma_done_member(members, criteria, workspace_states(members, criteria)->Ok_0, member);
}

/// The flags that the state of a member has: those that the member has
/// of its own, and the mark of a dependency where a member whose name the
/// filter matches depends on it, directly or through others.
pub open spec fn flags_of_member(members: Seq<Crate>, criteria: SelectionCriteria, member: int)
    -> Set<CrateStateFlags> {
    if marked_by_some(members, criteria, members[member].name@) {
        member_flags(members[member], criteria)->Ok_0.insert(
            CrateStateFlags::IsWorkspaceDependency,
        )
    } else {
        member_flags(members[member], criteria)->Ok_0
    }
}

/// Where the states of a workspace can be had, the state of every member
/// is built of the flags of the member and the forgiven blockers of the
/// criteria: it has the flags that the member has of its own, the mark of
/// a dependency exactly when a matched member depends on it, and no other
/// flag; and its meta flags are those that follow.
pub proof fn law_member_state(members: Seq<Crate>, criteria: SelectionCriteria, member: int)
    requires
        names_valid(members),
        members.len() <= usize::MAX,
        workspace_states(members, criteria) is Ok,
        0 <= member < members.len(),
    ensures
        has_key(workspace_states(members, criteria)->Ok_0, members[member].name@),
        state_of(workspace_states(members, criteria)->Ok_0, members[member].name@) == StateView::of(
            flags_of_member(members, criteria, member),
            criteria.allowed_dependency_blockers@,
            criteria.allowed_selection_blockers@,
        ),
        state_of(
            workspace_states(members, criteria)->Ok_0,
            members[member].name@,
        ).meta_is_current(),
        state_of(workspace_states(members, criteria)->Ok_0, members[member].name@).flags.contains(
            CrateStateFlags::IsWorkspaceDependency,
        ) <==> marked_by_some(members, criteria, members[member].name@),
{
    let entries = workspace_states(members, criteria)->Ok_0;
    let order = dependency_order(members, criteria);
    let name = members[member].name@;
    let own = member_flags(members[member], criteria)->Ok_0;
    let state = state_of(entries, name);
    law_member_is_done(members, criteria, member);
    lemma_done_member(members, criteria, entries, member);
    lemma_first_on_cycle(members, criteria, 0);
    assert(acyclic(members, criteria));
    lemma_dependency_order(members, criteria);
    lemma_no_entries_reasons(members, criteria);
    lemma_states_from_reasons(members, criteria, order, 0, Seq::empty());
    lemma_reasons_of(members, criteria, entries, name);
    assert(!own.contains(CrateStateFlags::IsWorkspaceDependency));
    assert forall|flag: CrateStateFlags| #[trigger] state.flags.contains(flag) implies flags_of_member(
        members,
        criteria,
        member,
    ).contains(flag) by {
        if owned_by_some(members, criteria, name, flag) {
            let other = choose|other: int|
                0 <= other < members.len() && (#[trigger] members[other]).name@ == name
                    && member_flags(members[other], criteria) is Ok && member_flags(
                    members[other],
                    criteria,
                )->Ok_0.contains(flag);
            assert(members[other].name@ == members[member].name@);
            assert(other == member);
        }
    }
    if marked_by_some(members, criteria, name) {
        let matched = choose|matched: int|
            0 <= matched < members.len() && #[trigger] crate::order::depends_on_name(
                members,
                criteria,
                matched,
                name,
            ) && regex_is_match(criteria.selection_filter@, members[matched].name@) == Some(true);
        assert(depends_on(members, criteria, matched, member));
        law_dependencies_are_marked(members, criteria, matched, member);
    }
    assert(state.flags =~= flags_of_member(members, criteria, member));
    law_built_state_is_current(
        state.flags,
        criteria.allowed_dependency_blockers@,
        criteria.allowed_selection_blockers@,
    );
}

/// All that is derived of a workspace follows from its members and its
/// criteria alone. So what is asked of a workspace twice is answered twice
/// alike; and a workspace whose state was reset answers as one that was
/// made anew of the same members and criteria.
pub proof fn law_derived_from_inputs(first: &ReleaseWorkspace, second: &ReleaseWorkspace)
    requires
        first.same_inputs(second),
    ensures
        sorted_members(first.members_view(), first.criteria_view()) == sorted_members(
            second.members_view(),
            second.criteria_view(),
        ),
        workspace_states(first.members_view(), first.criteria_view()) == workspace_states(
            second.members_view(),
            second.criteria_view(),
        ),
        release_selection_of(first.members_view(), first.criteria_view()) == release_selection_of(
            second.members_view(),
            second.criteria_view(),
        ),
        forall|member: usize|
            member_dependencies(first.members_view(), first.criteria_view(), member)
                == member_dependencies(second.members_view(), second.criteria_view(), member),
        forall|member: int|
            dependents_of(first.members_view(), first.criteria_view(), member) == dependents_of(
                second.members_view(),
                second.criteria_view(),
                member,
            ),
{
}

} // verus!
