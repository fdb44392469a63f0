//! The states of the members of a workspace: the flags of each member, and
//! the flag that a matched member hands on to its dependencies.

use vstd::prelude::*;
use vstd::string::StringExecFns;
use linked_hash_map::LinkedHashMap;
use linked_hash_set::LinkedHashSet;
use crate::changes::{changed_files, changed_paths};
use crate::collections::{
    dependency_items, dependency_set_to_vec, has_key, item_view, key_index, lemma_key_index,
    state_entries, state_map_entry, state_map_new,
};
use crate::criteria::SelectionCriteria;
use crate::error::{ErrorView, SelectionError};
use crate::flags::{CrateStateFlags, FlagSet};
use crate::matching::{filter_matches, regex_is_match, requirement_matches, semver_matches};
use crate::order::{dependency_order, depends_on_name, workspace_dependencies};
use crate::package::{Change, Crate, DependencyItem, ReleaseTag};
use crate::state::{CrateState, StateView};

verus! {

/// Whether the version fails one of the requirements from `from` on;
/// `None` where the version, or a requirement up to the first that it
/// fails, cannot be read.
pub open spec fn violates_enforced(requirements: Seq<String>, version: Seq<char>, from: int)
    -> Option<bool>
    decreases requirements.len() - from,
{
    if from < 0 || from >= requirements.len() {
        Some(false)
    } else {
        match semver_matches(requirements[from]@, version) {
            None => None,
            Some(false) => Some(true),
            Some(true) => violates_enforced(requirements, version, from + 1),
        }
    }
}

/// Whether the version meets one of the requirements from `from` on;
/// `None` where the version, or a requirement up to the first that it
/// meets, cannot be read.
pub open spec fn meets_disallowed(requirements: Seq<String>, version: Seq<char>, from: int)
    -> Option<bool>
    decreases requirements.len() - from,
{
    if from < 0 || from >= requirements.len() {
        Some(false)
    } else {
        match semver_matches(requirements[from]@, version) {
            None => None,
            Some(true) => Some(true),
            Some(false) => meets_disallowed(requirements, version, from + 1),
        }
    }
}

/// The version of the first release among the entries from `from` on.
pub open spec fn previous_release(changes: Seq<Change>, from: int) -> Option<Seq<char>>
    decreases changes.len() - from,
{
    if from < 0 || from >= changes.len() {
        None
    } else {
        match changes[from] {
            Change::Release(version) => Some(version@),
            Change::Unreleased => previous_release(changes, from + 1),
        }
    }
}

/// The name of the tag that marks the release of a version of a package.
pub open spec fn release_tag_name(name: Seq<char>, version: Seq<char>) -> Seq<char> {
    name + "-v"@ + version
}

/// The place of the first tag from `from` on that has the name.
pub open spec fn tag_named(tags: Seq<ReleaseTag>, name: Seq<char>, from: int) -> Option<int>
    decreases tags.len() - from,
{
    if from < 0 || from >= tags.len() {
        None
    } else if tags[from].name@ == name {
        Some(from)
    } else {
        tag_named(tags, name, from + 1)
    }
}

/// Whether the package has a previous release, and whether it changed
/// since: it has one where its changelog holds a release and the repository
/// holds the tag of that release; it changed where files of it differ
/// between that tag and the current head. `Err` with the exit code where
/// the version control tool failed to tell.
pub open spec fn release_history(member: Crate) -> Result<(bool, bool), Option<i32>> {
    match member.changelog {
        None => Ok((false, false)),
        Some(changelog) => match previous_release(changelog.changes@, 0) {
            None => Ok((false, false)),
            Some(version) => match tag_named(
                member.release_tags@,
                release_tag_name(member.name@, version),
                0,
            ) {
                None => Ok((false, false)),
                Some(at) => match changed_paths(member.root@, member.release_tags@[at].diff) {
                    Err(code) => Err(code),
                    Ok(paths) => Ok((true, paths.len() > 0)),
                },
            },
        },
    }
}

/// The flags that a package has of its own: all but the one that a matched
/// package hands on to its dependencies. `Err` where the filter, a version
/// requirement or the version control tool failed, in this order.
pub open spec fn member_flags(member: Crate, criteria: SelectionCriteria) -> Result<
    Set<CrateStateFlags>,
    ErrorView,
> {
    match regex_is_match(criteria.selection_filter@, member.name@) {
        None => Err(ErrorView::SelectionFilter),
        Some(matched) => match violates_enforced(
            criteria.enforced_version_reqs@,
            member.version@,
            0,
        ) {
            None => Err(ErrorView::VersionRequirement),
            Some(enforced) => match meets_disallowed(
                criteria.disallowed_version_reqs@,
                member.version@,
                0,
            ) {
                None => Err(ErrorView::VersionRequirement),
                Some(disallowed) => match release_history(member) {
                    Err(code) => Err(ErrorView::VersionControl { exit_code: code }),
                    Ok((previous, changed)) => Ok(
                        Set::new(
                            |flag: CrateStateFlags|
                                match flag {
                                    CrateStateFlags::Matched => matched,
                                    CrateStateFlags::IsWorkspaceDependency => false,
                                    CrateStateFlags::HasPreviousRelease => previous,
                                    CrateStateFlags::ChangedSincePreviousRelease => changed,
                                    CrateStateFlags::MissingChangelog => member.changelog is None,
                                    CrateStateFlags::MissingReadme => !member.has_readme,
                                    CrateStateFlags::UnreleasableViaChangelogFrontmatter
                                        => member.changelog matches Some(changelog)
                                        && changelog.unreleasable,
                                    CrateStateFlags::EnforcedVersionReqViolated => enforced,
                                    CrateStateFlags::DisallowedVersionReqViolated => disallowed,
                                },
                        ),
                    ),
                },
            },
        },
    }
}

/// Whether the version fails a requirement that is enforced.
pub fn check_enforced(requirements: &Vec<String>, version: &str) -> (r: Result<
    bool,
    SelectionError,
>)
    ensures
        match r {
            Ok(violated) => violates_enforced(requirements@, version@, 0) == Some(violated),
            Err(error) => violates_enforced(requirements@, version@, 0) is None && error@
                == ErrorView::VersionRequirement,
        },
{
    let mut i: usize = 0;
    while i < requirements.len()
        invariant
            i <= requirements.len(),
            violates_enforced(requirements@, version@, 0) == violates_enforced(
                requirements@,
                version@,
                i as int,
            ),
        decreases requirements.len() - i,
    {
        match requirement_matches(requirements[i].as_str(), version) {
            Err(_) => {
                return Err(SelectionError::VersionRequirement);
            },
            Ok(false) => {
                return Ok(true);
            },
            Ok(true) => {},
        }
        i += 1;
    }
    Ok(false)
}

/// Whether the version meets a requirement that is disallowed.
pub fn check_disallowed(requirements: &Vec<String>, version: &str) -> (r: Result<
    bool,
    SelectionError,
>)
    ensures
        match r {
            Ok(violated) => meets_disallowed(requirements@, version@, 0) == Some(violated),
            Err(error) => meets_disallowed(requirements@, version@, 0) is None && error@
                == ErrorView::VersionRequirement,
        },
{
    let mut i: usize = 0;
    while i < requirements.len()
        invariant
            i <= requirements.len(),
            meets_disallowed(requirements@, version@, 0) == meets_disallowed(
                requirements@,
                version@,
                i as int,
            ),
        decreases requirements.len() - i,
    {
        match requirement_matches(requirements[i].as_str(), version) {
            Err(_) => {
                return Err(SelectionError::VersionRequirement);
            },
            Ok(true) => {
                return Ok(true);
            },
            Ok(false) => {},
        }
        i += 1;
    }
    Ok(false)
}

/// The name of the tag that marks the release of a version of a package:
/// the name of the package, `-v`, and the version.
pub fn release_tag(name: &str, version: &str) -> (tag: String)
    ensures
        tag@ == release_tag_name(name@, version@),
{
    let mut tag = String::from_str(name);
    tag.append("-v");
    tag.append(version);
    tag
}

/// The name of the tag that marks the previous release of the package, if
/// its changelog holds a release.
pub fn previous_release_tag(member: &Crate) -> (tag: Option<String>)
    ensures
        match tag {
            Some(tag) => member.changelog matches Some(changelog) && previous_release(
                changelog.changes@,
                0,
            ) matches Some(version) && tag@ == release_tag_name(member.name@, version),
            None => member.changelog matches Some(changelog) ==> previous_release(
                changelog.changes@,
                0,
            ) is None,
        },
{
    match &member.changelog {
        None => None,
        Some(changelog) => {
            let mut i: usize = 0;
            while i < changelog.changes.len()
                invariant
                    i <= changelog.changes.len(),
                    member.changelog == Some(*changelog),
                    previous_release(changelog.changes@, 0) == previous_release(
                        changelog.changes@,
                        i as int,
                    ),
                decreases changelog.changes.len() - i,
            {
                match &changelog.changes[i] {
                    Change::Release(version) => {
                        assert(previous_release(changelog.changes@, i as int) == Some(version@));
                        return Some(release_tag(member.name.as_str(), version.as_str()));
                    },
                    Change::Unreleased => {},
                }
                i += 1;
            }
            None
        },
    }
}

/// Finds the release tag that has the name.
pub fn find_tag(tags: &Vec<ReleaseTag>, name: &String) -> (found: Option<usize>)
    ensures
        match found {
            Some(at) => tag_named(tags@, name@, 0) == Some(at as int) && at < tags@.len(),
            None => tag_named(tags@, name@, 0) is None,
        },
{
    let mut i: usize = 0;
    while i < tags.len()
        invariant
            i <= tags.len(),
            tag_named(tags@, name@, 0) == tag_named(tags@, name@, i as int),
        decreases tags.len() - i,
    {
        if tags[i].name == *name {
            return Some(i);
        }
        i += 1;
    }
    None
}

/// Works out the flags that a package has of its own.
pub fn compute_member_flags(member: &Crate, criteria: &SelectionCriteria) -> (r: Result<
    FlagSet,
    SelectionError,
>)
    ensures
        match r {
            Ok(flags) => member_flags(*member, *criteria) == Ok::<Set<CrateStateFlags>, ErrorView>(
                flags@,
            ),
            Err(error) => member_flags(*member, *criteria) == Err::<
                Set<CrateStateFlags>,
                ErrorView,
            >(error@),
        },
{
    let mut flags = FlagSet::empty();

    let matched = match filter_matches(criteria.selection_filter.as_str(), member.name.as_str()) {
        Ok(matched) => matched,
        Err(_) => {
            return Err(SelectionError::SelectionFilter);
        },
    };
    if matched {
        flags.insert(CrateStateFlags::Matched);
    }

    let enforced = match check_enforced(&criteria.enforced_version_reqs, member.version.as_str()) {
        Ok(violated) => violated,
        Err(error) => {
            return Err(error);
        },
    };
    if enforced {
        flags.insert(CrateStateFlags::EnforcedVersionReqViolated);
    }

    let disallowed = match check_disallowed(
        &criteria.disallowed_version_reqs,
        member.version.as_str(),
    ) {
        Ok(violated) => violated,
        Err(error) => {
            return Err(error);
        },
    };
    if disallowed {
        flags.insert(CrateStateFlags::DisallowedVersionReqViolated);
    }

    if !member.has_readme {
        flags.insert(CrateStateFlags::MissingReadme);
    }

    let mut previous = false;
    let mut changed = false;
    match &member.changelog {
        None => {
            flags.insert(CrateStateFlags::MissingChangelog);
        },
        Some(changelog) => {
            if changelog.unreleasable {
                flags.insert(CrateStateFlags::UnreleasableViaChangelogFrontmatter);
            }
            if let Some(tag_name) = previous_release_tag(member) {
                if let Some(at) = find_tag(&member.release_tags, &tag_name) {
                    flags.insert(CrateStateFlags::HasPreviousRelease);
                    previous = true;
                    match changed_files(member.root.as_str(), &member.release_tags[at].diff) {
                        Err(error) => {
                            return Err(error);
                        },
                        Ok(paths) => {
                            if paths.len() > 0 {
                                flags.insert(CrateStateFlags::ChangedSincePreviousRelease);
                                changed = true;
                            }
                        },
                    }
                }
            }
        },
    }
    proof {
        assert(release_history(*member) == Ok::<(bool, bool), Option<i32>>((previous, changed)));
        let expected = member_flags(*member, *criteria)->Ok_0;
        assert forall|flag: CrateStateFlags| flags@.contains(flag) == expected.contains(flag) by {
            match flag {
                CrateStateFlags::Matched => {},
                CrateStateFlags::IsWorkspaceDependency => {},
                CrateStateFlags::HasPreviousRelease => {},
                CrateStateFlags::ChangedSincePreviousRelease => {},
                CrateStateFlags::MissingChangelog => {},
                CrateStateFlags::MissingReadme => {},
                CrateStateFlags::UnreleasableViaChangelogFrontmatter => {},
                CrateStateFlags::EnforcedVersionReqViolated => {},
                CrateStateFlags::DisallowedVersionReqViolated => {},
            }
        }
        assert(flags@ =~= expected);
    }
    Ok(flags)
}

/// The entries of a map of states, with views in place of the states.
pub open spec fn entries_view(entries: Seq<(Seq<char>, CrateState)>) -> Seq<
    (Seq<char>, StateView),
> {
    Seq::new(entries.len(), |i: int| (entries[i].0, entries[i].1@))
}

/// The state in which every package begins: no flag, and the forgiven
/// blockers of the criteria.
pub open spec fn initial_state(criteria: SelectionCriteria) -> StateView {
    StateView::of(
        Set::empty(),
        criteria.allowed_dependency_blockers@,
        criteria.allowed_selection_blockers@,
    )
}

/// The state with more flags, and the meta flags that follow.
pub open spec fn with_flags(state: StateView, flags: Set<CrateStateFlags>) -> StateView {
    StateView::of(
        state.flags.union(flags),
        state.allowed_dependency_blockers,
        state.allowed_selection_blockers,
    )
}

/// The entries after the flags were added to the state under the name; a
/// name that has no entry yet gets one at the end, which begins with the
/// initial state.
pub open spec fn merged(
    entries: Seq<(Seq<char>, StateView)>,
    name: Seq<char>,
    flags: Set<CrateStateFlags>,
    initial: StateView,
) -> Seq<(Seq<char>, StateView)> {
    if has_key(entries, name) {
        let at = key_index(entries, name);
        entries.update(at, (name, with_flags(entries[at].1, flags)))
    } else {
        entries.push((name, with_flags(initial, flags)))
    }
}

/// The entries after each of the dependencies from `from` on was marked as
/// a dependency within the workspace.
pub open spec fn marked_all(
    entries: Seq<(Seq<char>, StateView)>,
    items: Seq<DependencyItem>,
    from: int,
    initial: StateView,
) -> Seq<(Seq<char>, StateView)>
    decreases items.len() - from,
{
    if from < 0 || from >= items.len() {
        entries
    } else {
        marked_all(
            merged(entries, items[from].0, set![CrateStateFlags::IsWorkspaceDependency], initial),
            items,
            from + 1,
            initial,
        )
    }
}

/// The entries after a member was visited: its own flags are added to its
/// state, and, if it is matched, each of its dependencies within the
/// workspace is marked as one. `Err` where its own flags cannot be had.
pub open spec fn visited(
    members: Seq<Crate>,
    criteria: SelectionCriteria,
    entries: Seq<(Seq<char>, StateView)>,
    member: int,
) -> Result<Seq<(Seq<char>, StateView)>, ErrorView> {
    match member_flags(members[member], criteria) {
        Err(error) => Err(error),
        Ok(own) => {
            let with_own = merged(entries, members[member].name@, own, initial_state(criteria));
            if own.contains(CrateStateFlags::Matched) {
                Ok(
                    marked_all(
                        with_own,
                        workspace_dependencies(members, criteria, member),
                        0,
                        initial_state(criteria),
                    ),
                )
            } else {
                Ok(with_own)
            }
        },
    }
}

/// The entries after the members from place `from` of the order on were
/// visited, one after the other; `Err` with the first error.
pub open spec fn states_from(
    members: Seq<Crate>,
    criteria: SelectionCriteria,
    order: Seq<usize>,
    from: int,
    entries: Seq<(Seq<char>, StateView)>,
) -> Result<Seq<(Seq<char>, StateView)>, ErrorView>
    decreases order.len() - from,
{
    if from < 0 || from >= order.len() {
        Ok(entries)
    } else {
        match visited(members, criteria, entries, order[from] as int) {
            Err(error) => Err(error),
            Ok(next) => states_from(members, criteria, order, from + 1, next),
        }
    }
}

/// The states of the workspace: an entry for every member, and for every
/// dependency of a matched member, in the order in which the visit of the
/// members, in the order of their dependencies, comes to them.
pub open spec fn member_states(members: Seq<Crate>, criteria: SelectionCriteria) -> Result<
    Seq<(Seq<char>, StateView)>,
    ErrorView,
> {
    states_from(members, criteria, dependency_order(members, criteria), 0, Seq::empty())
}

/// Adds the flags to the state that the map keeps under the name; a name
/// that has no entry yet gets one, which begins with `initial`.
pub(crate) fn merge_flags(
    map: &mut LinkedHashMap<String, CrateState>,
    name: &String,
    flags: FlagSet,
    initial: CrateState,
)
    ensures
        entries_view(state_entries(*final(map))) == merged(
            entries_view(state_entries(*old(map))),
            name@,
            flags@,
            initial@,
        ),
{
    let ghost before = state_entries(*map);
    let ghost before_view = entries_view(before);
    proof {
        lemma_entries_view_keys(before, name@);
    }
    let state = state_map_entry(map, name.clone(), initial);
    state.merge(CrateState::new(flags, FlagSet::empty(), FlagSet::empty()));
    proof {
        let after = state_entries(*map);
        assert(entries_view(after) =~= merged(before_view, name@, flags@, initial@));
    }
}

/// The dependencies of the member within the workspace are held.
pub open spec fn dependencies_held(
    members: Seq<Crate>,
    criteria: SelectionCriteria,
    member: int,
    held: Option<LinkedHashSet<(String, u8, bool)>>,
) -> bool {
    match held {
        Some(set) => dependency_items(set) == workspace_dependencies(members, criteria, member),
        None => false,
    }
}

/// Works out the states of the workspace from the order of its members and
/// the dependencies of each.
pub(crate) fn compute_states(
    members: &Vec<Crate>,
    criteria: &SelectionCriteria,
    order: &Vec<usize>,
    dependencies: &Vec<Option<LinkedHashSet<(String, u8, bool)>>>,
) -> (r: Result<LinkedHashMap<String, CrateState>, SelectionError>)
    requires
        order@ == dependency_order(members@, *criteria),
        forall|p: int| 0 <= p < order@.len() ==> (#[trigger] order@[p]) < members@.len(),
        dependencies@.len() == members@.len(),
        forall|i: int|
            0 <= i < members@.len() ==> dependencies_held(
                members@,
                *criteria,
                i,
                #[trigger] dependencies@[i],
            ),
    ensures
        match r {
            Ok(map) => member_states(members@, *criteria) == Ok::<
                Seq<(Seq<char>, StateView)>,
                ErrorView,
            >(entries_view(state_entries(map))),
            Err(error) => member_states(members@, *criteria) == Err::<
                Seq<(Seq<char>, StateView)>,
                ErrorView,
            >(error@),
        },
{
    let mut map = state_map_new();
    let initial = CrateState::new(
        FlagSet::empty(),
        criteria.allowed_dependency_blockers,
        criteria.allowed_selection_blockers,
    );
    let mut dependency_flag = FlagSet::empty();
    dependency_flag.insert(CrateStateFlags::IsWorkspaceDependency);
    assert(entries_view(state_entries(map)) =~= Seq::<(Seq<char>, StateView)>::empty());

    let mut at: usize = 0;
    while at < order.len()
        invariant
            at <= order.len(),
            order@ == dependency_order(members@, *criteria),
            forall|p: int| 0 <= p < order@.len() ==> (#[trigger] order@[p]) < members@.len(),
            dependencies@.len() == members@.len(),
            forall|i: int|
                0 <= i < members@.len() ==> dependencies_held(
                    members@,
                    *criteria,
                    i,
                    #[trigger] dependencies@[i],
                ),
            initial@ == initial_state(*criteria),
            dependency_flag@ == set![CrateStateFlags::IsWorkspaceDependency],
            member_states(members@, *criteria) == states_from(
                members@,
                *criteria,
                order@,
                at as int,
                entries_view(state_entries(map)),
            ),
        decreases order.len() - at,
    {
        let member = order[at];
        let ghost before = entries_view(state_entries(map));
        let own = match compute_member_flags(&members[member], criteria) {
            Ok(own) => own,
            Err(error) => {
                return Err(error);
            },
        };
        merge_flags(&mut map, &members[member].name, own, initial);
        if own.contains(CrateStateFlags::Matched) {
            let ghost with_own = entries_view(state_entries(map));
            let items = match &dependencies[member] {
                Some(set) => dependency_set_to_vec(set),
                None => Vec::new(),
            };
            let ghost found = workspace_dependencies(members@, *criteria, member as int);
            let mut k: usize = 0;
            while k < items.len()
                invariant
                    k <= items.len(),
                    items@.len() == found.len(),
                    forall|j: int|
                        0 <= j < items@.len() ==> item_view(#[trigger] items@[j]) == found[j],
                    initial@ == initial_state(*criteria),
                    dependency_flag@ == set![CrateStateFlags::IsWorkspaceDependency],
                    marked_all(with_own, found, 0, initial_state(*criteria)) == marked_all(
                        entries_view(state_entries(map)),
                        found,
                        k as int,
                        initial_state(*criteria),
                    ),
                decreases items.len() - k,
            {
                assert(item_view(items@[k as int]) == found[k as int]);
                merge_flags(&mut map, &items[k].0, dependency_flag, initial);
                k += 1;
            }
        }
        assert(visited(members@, *criteria, before, member as int) == Ok::<
            Seq<(Seq<char>, StateView)>,
            ErrorView,
        >(entries_view(state_entries(map))));
        at += 1;
    }
    Ok(map)
}

/// The state that the entries keep under the name.
pub open spec fn state_of(entries: Seq<(Seq<char>, StateView)>, name: Seq<char>) -> StateView {
    entries[key_index(entries, name)].1
}

/// Adding flags under a name keeps every key, and the name is a key
/// afterwards.
pub proof fn lemma_merged_keys(
    entries: Seq<(Seq<char>, StateView)>,
    name: Seq<char>,
    flags: Set<CrateStateFlags>,
    initial: StateView,
)
    ensures
        has_key(merged(entries, name, flags, initial), name),
        forall|other: Seq<char>| #[trigger]
            has_key(entries, other) ==> has_key(merged(entries, name, flags, initial), other),
{
    let after = merged(entries, name, flags, initial);
    if has_key(entries, name) {
        lemma_key_index(entries, name);
        let at = key_index(entries, name);
        assert(after[at].0 == name);
        assert forall|other: Seq<char>| #[trigger] has_key(entries, other) implies has_key(
            after,
            other,
        ) by {
            let i = choose|i: int| 0 <= i < entries.len() && (#[trigger] entries[i]).0 == other;
            assert(after[i].0 == other);
        }
    } else {
        assert(after[entries.len() as int].0 == name);
        assert forall|other: Seq<char>| #[trigger] has_key(entries, other) implies has_key(
            after,
            other,
        ) by {
            let i = choose|i: int| 0 <= i < entries.len() && (#[trigger] entries[i]).0 == other;
            assert(after[i].0 == other);
        }
    }
}

/// Marking dependencies keeps every key.
pub proof fn lemma_marked_all_keys(
    entries: Seq<(Seq<char>, StateView)>,
    items: Seq<DependencyItem>,
    from: int,
    initial: StateView,
)
    ensures
        forall|other: Seq<char>| #[trigger]
            has_key(entries, other) ==> has_key(marked_all(entries, items, from, initial), other),
    decreases items.len() - from,
{
    if 0 <= from < items.len() {
        let next = merged(
            entries,
            items[from].0,
            set![CrateStateFlags::IsWorkspaceDependency],
            initial,
        );
        lemma_merged_keys(
            entries,
            items[from].0,
            set![CrateStateFlags::IsWorkspaceDependency],
            initial,
        );
        lemma_marked_all_keys(next, items, from + 1, initial);
    }
}

/// The visit of a member keeps every key, and the name of the member is a
/// key afterwards.
pub proof fn lemma_visited_keys(
    members: Seq<Crate>,
    criteria: SelectionCriteria,
    entries: Seq<(Seq<char>, StateView)>,
    member: int,
)
    ensures
        match visited(members, criteria, entries, member) {
            Ok(next) => has_key(next, members[member].name@) && forall|other: Seq<char>| #[trigger]
                has_key(entries, other) ==> has_key(next, other),
            Err(_) => true,
        },
{
    match member_flags(members[member], criteria) {
        Err(_) => {},
        Ok(own) => {
            let with_own = merged(entries, members[member].name@, own, initial_state(criteria));
            lemma_merged_keys(entries, members[member].name@, own, initial_state(criteria));
            lemma_marked_all_keys(
                with_own,
                workspace_dependencies(members, criteria, member),
                0,
                initial_state(criteria),
            );
        },
    }
}

/// The visit of the members from a place of the order on keeps every key,
/// and the names of those members are keys afterwards.
pub proof fn lemma_states_from_keys(
    members: Seq<Crate>,
    criteria: SelectionCriteria,
    order: Seq<usize>,
    from: int,
    entries: Seq<(Seq<char>, StateView)>,
)
    requires
        0 <= from,
    ensures
        match states_from(members, criteria, order, from, entries) {
            Ok(last) => (forall|other: Seq<char>| #[trigger]
                has_key(entries, other) ==> has_key(last, other)) && (forall|p: int|
                from <= p < order.len() ==> has_key(last, members[#[trigger] order[p] as int].name@)),
            Err(_) => true,
        },
    decreases order.len() - from,
{
    if from < order.len() {
        lemma_visited_keys(members, criteria, entries, order[from] as int);
        match visited(members, criteria, entries, order[from] as int) {
            Err(_) => {},
            Ok(next) => {
                lemma_states_from_keys(members, criteria, order, from + 1, next);
            },
        }
    }
}

/// The entries and their views have the same keys at the same places.
pub proof fn lemma_entries_view_keys(entries: Seq<(Seq<char>, CrateState)>, name: Seq<char>)
    ensures
        has_key(entries_view(entries), name) == has_key(entries, name),
        has_key(entries, name) ==> key_index(entries_view(entries), name) == key_index(
            entries,
            name,
        ) && 0 <= key_index(entries, name) < entries.len() && state_of(
            entries_view(entries),
            name,
        ) == entries[key_index(entries, name)].1@,
{
    let views = entries_view(entries);
    if has_key(entries, name) {
        lemma_key_index(entries, name);
        let at = key_index(entries, name);
        assert(views[at].0 == name);
        lemma_key_index(views, name);
        let at_view = key_index(views, name);
        assert(entries[at_view].0 == name);
        assert(at == at_view);
    } else if has_key(views, name) {
        lemma_key_index(views, name);
        assert(entries[key_index(views, name)].0 == name);
    }
}

/// The later entries keep the keys of the earlier ones, and every state
/// keeps its flags.
#[verifier::opaque]
pub open spec fn keeps(
    earlier: Seq<(Seq<char>, StateView)>,
    later: Seq<(Seq<char>, StateView)>,
) -> bool {
    forall|name: Seq<char>| #[trigger]
        has_key(earlier, name) ==> has_key(later, name) && state_of(earlier, name).flags.subset_of(
            state_of(later, name).flags,
        )
}

/// Adding flags under a name keeps what was there, and the state under the
/// name has the flags afterwards.
pub proof fn lemma_merged_flags(
    entries: Seq<(Seq<char>, StateView)>,
    name: Seq<char>,
    flags: Set<CrateStateFlags>,
    initial: StateView,
)
    ensures
        keeps(entries, merged(entries, name, flags, initial)),
        has_key(merged(entries, name, flags, initial), name),
        flags.subset_of(state_of(merged(entries, name, flags, initial), name).flags),
{
    reveal(keeps);
    let after = merged(entries, name, flags, initial);
    lemma_merged_keys(entries, name, flags, initial);
    lemma_key_index(after, name);
    if has_key(entries, name) {
        lemma_key_index(entries, name);
        let at = key_index(entries, name);
        assert(after[at].0 == name);
        assert forall|j: int| 0 <= j < after.len() implies (#[trigger] after[j]).0
            == entries[j].0 by {}
        assert(key_index(after, name) == at);
        assert forall|other: Seq<char>| #[trigger] has_key(entries, other) implies has_key(
            after,
            other,
        ) && state_of(entries, other).flags.subset_of(state_of(after, other).flags) by {
            lemma_key_index(entries, other);
            lemma_key_index(after, other);
            let i = key_index(entries, other);
            let j = key_index(after, other);
            assert(after[i].0 == other);
            assert(entries[j].0 == other);
            assert(i == j);
        }
    } else {
        assert forall|j: int| 0 <= j < entries.len() implies (#[trigger] after[j])
            == entries[j] by {}
        assert(key_index(after, name) == entries.len()) by {
            let at = key_index(after, name);
            if at < entries.len() {
                assert(entries[at].0 == name);
            }
        }
        assert forall|other: Seq<char>| #[trigger] has_key(entries, other) implies has_key(
            after,
            other,
        ) && state_of(entries, other).flags.subset_of(state_of(after, other).flags) by {
            lemma_key_index(entries, other);
            lemma_key_index(after, other);
            let i = key_index(entries, other);
            let j = key_index(after, other);
            assert(after[i].0 == other);
            if j < entries.len() {
                assert(entries[j].0 == other);
            }
            assert(i == j);
        }
    }
}

/// Keeping goes on: what the second entries keep of the first, the third
/// keep too, where they keep what the second hold.
pub proof fn lemma_keeps_transitive(
    first: Seq<(Seq<char>, StateView)>,
    second: Seq<(Seq<char>, StateView)>,
    third: Seq<(Seq<char>, StateView)>,
)
    requires
        keeps(first, second),
        keeps(second, third),
    ensures
        keeps(first, third),
{
    reveal(keeps);
    assert forall|name: Seq<char>| #[trigger] has_key(first, name) implies has_key(third, name)
        && state_of(first, name).flags.subset_of(state_of(third, name).flags) by {
        assert(has_key(second, name));
    }
}

/// Each of the dependencies from `from` on is marked afterwards, and what
/// was there is kept.
pub proof fn lemma_marked_all_flags(
    entries: Seq<(Seq<char>, StateView)>,
    items: Seq<DependencyItem>,
    from: int,
    initial: StateView,
)
    requires
        0 <= from,
    ensures
        keeps(entries, marked_all(entries, items, from, initial)),
        forall|k: int|
            from <= k < items.len() ==> has_key(
                marked_all(entries, items, from, initial),
                (#[trigger] items[k]).0,
            ) && state_of(marked_all(entries, items, from, initial), items[k].0).flags.contains(
                CrateStateFlags::IsWorkspaceDependency,
            ),
    decreases items.len() - from,
{
    if from < items.len() {
        let flag = set![CrateStateFlags::IsWorkspaceDependency];
        let next = merged(entries, items[from].0, flag, initial);
        let last = marked_all(entries, items, from, initial);
        lemma_merged_flags(entries, items[from].0, flag, initial);
        lemma_marked_all_flags(next, items, from + 1, initial);
        lemma_keeps_transitive(entries, next, last);
        assert(flag.contains(CrateStateFlags::IsWorkspaceDependency));
        assert(has_key(next, items[from].0));
        assert forall|k: int| from <= k < items.len() implies has_key(
            last,
            (#[trigger] items[k]).0,
        ) && state_of(last, items[k].0).flags.contains(
            CrateStateFlags::IsWorkspaceDependency,
        ) by {
            if k == from {
                reveal(keeps);
                assert(has_key(next, items[from].0));
            }
        }
    } else {
        lemma_keeps_itself(entries);
    }
}

/// What holds of the state of the member at a place of the order once the
/// states are worked out: it has the flags of the member, and, if the
/// member is matched, each of its dependencies within the workspace is
/// marked as one.
#[verifier::opaque]
pub open spec fn member_is_done(
    members: Seq<Crate>,
    criteria: SelectionCriteria,
    entries: Seq<(Seq<char>, StateView)>,
    member: int,
) -> bool {
    &&& member_flags(members[member], criteria) is Ok
    &&& has_key(entries, members[member].name@)
    &&& member_flags(members[member], criteria)->Ok_0.subset_of(
        state_of(entries, members[member].name@).flags,
    )
    &&& member_flags(members[member], criteria)->Ok_0.contains(CrateStateFlags::Matched)
        ==> forall|item: DependencyItem| #[trigger]
        workspace_dependencies(members, criteria, member).contains(item) ==> has_key(
            entries,
            item.0,
        ) && state_of(entries, item.0).flags.contains(CrateStateFlags::IsWorkspaceDependency)
}

/// All entries keep themselves.
pub proof fn lemma_keeps_itself(entries: Seq<(Seq<char>, StateView)>)
    ensures
        keeps(entries, entries),
{
    reveal(keeps);
}

/// The visit of a member keeps what was there, and the member is done
/// afterwards.
pub proof fn lemma_visited_flags(
    members: Seq<Crate>,
    criteria: SelectionCriteria,
    entries: Seq<(Seq<char>, StateView)>,
    member: int,
)
    ensures
        match visited(members, criteria, entries, member) {
            Ok(next) => keeps(entries, next) && member_is_done(members, criteria, next, member),
            Err(_) => true,
        },
{
    reveal(member_is_done);
    match member_flags(members[member], criteria) {
        Err(_) => {},
        Ok(own) => {
            let name = members[member].name@;
            let initial = initial_state(criteria);
            let with_own = merged(entries, name, own, initial);
            lemma_merged_flags(entries, name, own, initial);
            if own.contains(CrateStateFlags::Matched) {
                let found = workspace_dependencies(members, criteria, member);
                let next = marked_all(with_own, found, 0, initial);
                lemma_marked_all_flags(with_own, found, 0, initial);
                lemma_keeps_transitive(entries, with_own, next);
                assert(has_key(with_own, name));
                assert(has_key(next, name) && own.subset_of(state_of(next, name).flags)) by {
                    reveal(keeps);
                }
                assert forall|item: DependencyItem| #[trigger] found.contains(item) implies has_key(
                    next,
                    item.0,
                ) && state_of(next, item.0).flags.contains(
                    CrateStateFlags::IsWorkspaceDependency,
                ) by {
                    let k = choose|k: int| 0 <= k < found.len() && found[k] == item;
                    assert(has_key(next, found[k].0));
                }
            }
        },
    }
}

/// What being done says of the member itself.
pub proof fn lemma_done_member(
    members: Seq<Crate>,
    criteria: SelectionCriteria,
    entries: Seq<(Seq<char>, StateView)>,
    member: int,
)
    requires
        member_is_done(members, criteria, entries, member),
    ensures
        member_flags(members[member], criteria) is Ok,
        has_key(entries, members[member].name@),
        member_flags(members[member], criteria)->Ok_0.subset_of(
            state_of(entries, members[member].name@).flags,
        ),
{
    reveal(member_is_done);
}

/// What being done says of a dependency of a matched member.
pub proof fn lemma_done_dependency(
    members: Seq<Crate>,
    criteria: SelectionCriteria,
    entries: Seq<(Seq<char>, StateView)>,
    member: int,
    item: DependencyItem,
)
    requires
        member_is_done(members, criteria, entries, member),
        member_flags(members[member], criteria)->Ok_0.contains(CrateStateFlags::Matched),
        workspace_dependencies(members, criteria, member).contains(item),
    ensures
        has_key(entries, item.0),
        state_of(entries, item.0).flags.contains(CrateStateFlags::IsWorkspaceDependency),
{
    reveal(member_is_done);
}

/// A member whose name the filter matches has the flag that says so.
pub proof fn lemma_matched_flag(member: Crate, criteria: SelectionCriteria)
    requires
        member_flags(member, criteria) is Ok,
    ensures
        member_flags(member, criteria)->Ok_0.contains(CrateStateFlags::Matched) <==> regex_is_match(
            criteria.selection_filter@,
            member.name@,
        ) == Some(true),
{
}

/// What is done of a member stays done in entries that keep the earlier
/// ones.
pub proof fn lemma_done_is_kept(
    members: Seq<Crate>,
    criteria: SelectionCriteria,
    earlier: Seq<(Seq<char>, StateView)>,
    later: Seq<(Seq<char>, StateView)>,
    member: int,
)
    requires
        member_is_done(members, criteria, earlier, member),
        keeps(earlier, later),
    ensures
        member_is_done(members, criteria, later, member),
{
    reveal(member_is_done);
    reveal(keeps);
    let name = members[member].name@;
    assert(has_key(earlier, name));
    if member_flags(members[member], criteria)->Ok_0.contains(CrateStateFlags::Matched) {
        assert forall|item: DependencyItem| #[trigger]
            workspace_dependencies(members, criteria, member).contains(item) implies has_key(
            later,
            item.0,
        ) && state_of(later, item.0).flags.contains(CrateStateFlags::IsWorkspaceDependency) by {
            assert(has_key(earlier, item.0));
        }
    }
}

/// The visit of the members from a place of the order on keeps what was
/// there, and every member from that place on is done afterwards.
pub proof fn lemma_states_from_flags(
    members: Seq<Crate>,
    criteria: SelectionCriteria,
    order: Seq<usize>,
    from: int,
    entries: Seq<(Seq<char>, StateView)>,
)
    requires
        0 <= from,
    ensures
        match states_from(members, criteria, order, from, entries) {
            Ok(last) => keeps(entries, last) && forall|p: int|
                from <= p < order.len() ==> member_is_done(
                    members,
                    criteria,
                    last,
                    #[trigger] order[p] as int,
                ),
            Err(_) => true,
        },
    decreases order.len() - from,
{
    if from < order.len() {
        lemma_visited_flags(members, criteria, entries, order[from] as int);
        match visited(members, criteria, entries, order[from] as int) {
            Err(_) => {},
            Ok(next) => {
                lemma_states_from_flags(members, criteria, order, from + 1, next);
                match states_from(members, criteria, order, from + 1, next) {
                    Err(_) => {},
                    Ok(last) => {
                        lemma_keeps_transitive(entries, next, last);
                        lemma_done_is_kept(members, criteria, next, last, order[from] as int);
                    },
                }
            },
        }
    } else {
        lemma_keeps_itself(entries);
    }
}

/// Some member whose name the filter matches depends on the package of
/// this name, directly or through others.
pub open spec fn marked_by_some(members: Seq<Crate>, criteria: SelectionCriteria, name: Seq<char>)
    -> bool {
    exists|member: int|
        0 <= member < members.len() && #[trigger] depends_on_name(members, criteria, member, name)
            && regex_is_match(criteria.selection_filter@, members[member].name@) == Some(true)
}

/// Some member of this name has the flag of its own.
pub open spec fn owned_by_some(
    members: Seq<Crate>,
    criteria: SelectionCriteria,
    name: Seq<char>,
    flag: CrateStateFlags,
) -> bool {
    exists|member: int|
        0 <= member < members.len() && (#[trigger] members[member]).name@ == name && member_flags(
            members[member],
            criteria,
        ) is Ok && member_flags(members[member], criteria)->Ok_0.contains(flag)
}

/// There is a reason for the flag in the state under the name: a member
/// of this name has it of its own, or it is the mark of a dependency and a
/// matched member depends on the package.
pub open spec fn flag_has_reason(
    members: Seq<Crate>,
    criteria: SelectionCriteria,
    name: Seq<char>,
    flag: CrateStateFlags,
) -> bool {
    owned_by_some(members, criteria, name, flag) || (flag == CrateStateFlags::IsWorkspaceDependency
        && marked_by_some(members, criteria, name))
}

/// There is a reason for every flag in the entries, and every state is
/// built of its flags and the forgiven blockers of the criteria.
#[verifier::opaque]
pub open spec fn all_have_reasons(
    members: Seq<Crate>,
    criteria: SelectionCriteria,
    entries: Seq<(Seq<char>, StateView)>,
) -> bool {
    &&& forall|i: int, flag: CrateStateFlags|
        0 <= i < entries.len() && #[trigger] entries[i].1.flags.contains(flag) ==> flag_has_reason(
            members,
            criteria,
            entries[i].0,
            flag,
        )
    &&& forall|i: int|
        0 <= i < entries.len() ==> (#[trigger] entries[i]).1 == StateView::of(
            entries[i].1.flags,
            criteria.allowed_dependency_blockers@,
            criteria.allowed_selection_blockers@,
        )
}

/// Adding flags for which there is a reason keeps that there is a reason
/// for every flag.
pub proof fn lemma_merged_reasons(
    members: Seq<Crate>,
    criteria: SelectionCriteria,
    entries: Seq<(Seq<char>, StateView)>,
    name: Seq<char>,
    flags: Set<CrateStateFlags>,
)
    requires
        all_have_reasons(members, criteria, entries),
        forall|flag: CrateStateFlags| #[trigger]
            flags.contains(flag) ==> flag_has_reason(members, criteria, name, flag),
    ensures
        all_have_reasons(
            members,
            criteria,
            merged(entries, name, flags, initial_state(criteria)),
        ),
{
    reveal(all_have_reasons);
    let initial = initial_state(criteria);
    let after = merged(entries, name, flags, initial);
    if has_key(entries, name) {
        lemma_key_index(entries, name);
        let at = key_index(entries, name);
        assert(entries[at].1 == StateView::of(
            entries[at].1.flags,
            criteria.allowed_dependency_blockers@,
            criteria.allowed_selection_blockers@,
        ));
        assert forall|i: int, flag: CrateStateFlags|
            0 <= i < after.len() && #[trigger] after[i].1.flags.contains(
                flag,
            ) implies flag_has_reason(members, criteria, after[i].0, flag) by {
            if i == at {
                if !flags.contains(flag) {
                    assert(entries[at].1.flags.contains(flag));
                }
            } else {
                assert(entries[i].1.flags.contains(flag));
            }
        }
        assert forall|i: int| 0 <= i < after.len() implies (#[trigger] after[i]).1 == StateView::of(
            after[i].1.flags,
            criteria.allowed_dependency_blockers@,
            criteria.allowed_selection_blockers@,
        ) by {
            if i != at {
                assert(after[i] == entries[i]);
            }
        }
    } else {
        assert(initial.flags.union(flags) =~= flags);
        assert forall|i: int, flag: CrateStateFlags|
            0 <= i < after.len() && #[trigger] after[i].1.flags.contains(
                flag,
            ) implies flag_has_reason(members, criteria, after[i].0, flag) by {
            if i < entries.len() {
                assert(entries[i].1.flags.contains(flag));
            }
        }
        assert forall|i: int| 0 <= i < after.len() implies (#[trigger] after[i]).1 == StateView::of(
            after[i].1.flags,
            criteria.allowed_dependency_blockers@,
            criteria.allowed_selection_blockers@,
        ) by {
            if i < entries.len() {
                assert(after[i] == entries[i]);
            }
        }
    }
}

/// Marking dependencies of a matched member keeps that there is a reason
/// for every flag.
pub proof fn lemma_marked_all_reasons(
    members: Seq<Crate>,
    criteria: SelectionCriteria,
    entries: Seq<(Seq<char>, StateView)>,
    items: Seq<DependencyItem>,
    from: int,
)
    requires
        0 <= from,
        all_have_reasons(members, criteria, entries),
        forall|k: int|
            from <= k < items.len() ==> marked_by_some(members, criteria, (#[trigger] items[k]).0),
    ensures
        all_have_reasons(
            members,
            criteria,
            marked_all(entries, items, from, initial_state(criteria)),
        ),
    decreases items.len() - from,
{
    if from < items.len() {
        let flag = set![CrateStateFlags::IsWorkspaceDependency];
        assert(marked_by_some(members, criteria, items[from].0));
        lemma_merged_reasons(members, criteria, entries, items[from].0, flag);
        lemma_marked_all_reasons(
            members,
            criteria,
            merged(entries, items[from].0, flag, initial_state(criteria)),
            items,
            from + 1,
        );
    }
}

/// The visit of a member keeps that there is a reason for every flag.
pub proof fn lemma_visited_reasons(
    members: Seq<Crate>,
    criteria: SelectionCriteria,
    entries: Seq<(Seq<char>, StateView)>,
    member: int,
)
    requires
        0 <= member < members.len(),
        all_have_reasons(members, criteria, entries),
    ensures
        match visited(members, criteria, entries, member) {
            Ok(next) => all_have_reasons(members, criteria, next),
            Err(_) => true,
        },
{
    match member_flags(members[member], criteria) {
        Err(_) => {},
        Ok(own) => {
            let name = members[member].name@;
            assert forall|flag: CrateStateFlags| #[trigger] own.contains(flag) implies flag_has_reason(
                members,
                criteria,
                name,
                flag,
            ) by {
                assert(members[member].name@ == name);
                assert(owned_by_some(members, criteria, name, flag));
            }
            lemma_merged_reasons(members, criteria, entries, name, own);
            if own.contains(CrateStateFlags::Matched) {
                let found = workspace_dependencies(members, criteria, member);
                lemma_matched_flag(members[member], criteria);
                assert forall|k: int| 0 <= k < found.len() implies marked_by_some(
                    members,
                    criteria,
                    (#[trigger] found[k]).0,
                ) by {
                    assert(found.contains(found[k]));
                    assert(depends_on_name(members, criteria, member, found[k].0));
                }
                lemma_marked_all_reasons(
                    members,
                    criteria,
                    merged(entries, name, own, initial_state(criteria)),
                    found,
                    0,
                );
            }
        },
    }
}

/// The visit of the members from a place of the order on keeps that there
/// is a reason for every flag.
pub proof fn lemma_states_from_reasons(
    members: Seq<Crate>,
    criteria: SelectionCriteria,
    order: Seq<usize>,
    from: int,
    entries: Seq<(Seq<char>, StateView)>,
)
    requires
        0 <= from,
        forall|p: int| 0 <= p < order.len() ==> (#[trigger] order[p]) < members.len(),
        all_have_reasons(members, criteria, entries),
    ensures
        match states_from(members, criteria, order, from, entries) {
            Ok(last) => all_have_reasons(members, criteria, last),
            Err(_) => true,
        },
    decreases order.len() - from,
{
    if from < order.len() {
        lemma_visited_reasons(members, criteria, entries, order[from] as int);
        match visited(members, criteria, entries, order[from] as int) {
            Err(_) => {},
            Ok(next) => {
                lemma_states_from_reasons(members, criteria, order, from + 1, next);
            },
        }
    }
}

/// What it says of the state under a name that there is a reason for
/// every flag.
pub proof fn lemma_reasons_of(
    members: Seq<Crate>,
    criteria: SelectionCriteria,
    entries: Seq<(Seq<char>, StateView)>,
    name: Seq<char>,
)
    requires
        all_have_reasons(members, criteria, entries),
        has_key(entries, name),
    ensures
        forall|flag: CrateStateFlags| #[trigger]
            state_of(entries, name).flags.contains(flag) ==> flag_has_reason(
                members,
                criteria,
                name,
                flag,
            ),
        state_of(entries, name) == StateView::of(
            state_of(entries, name).flags,
            criteria.allowed_dependency_blockers@,
            criteria.allowed_selection_blockers@,
        ),
{
    reveal(all_have_reasons);
    lemma_key_index(entries, name);
    let at = key_index(entries, name);
    assert forall|flag: CrateStateFlags| #[trigger]
        state_of(entries, name).flags.contains(flag) implies flag_has_reason(
        members,
        criteria,
        name,
        flag,
    ) by {
        assert(entries[at].1.flags.contains(flag));
    }
}

/// There is a reason for every flag where there is no entry.
pub proof fn lemma_no_entries_reasons(members: Seq<Crate>, criteria: SelectionCriteria)
    ensures
        all_have_reasons(members, criteria, Seq::empty()),
{
    reveal(all_have_reasons);
}

} // verus!
