use crate_selection::criteria::SelectionCriteria;
use crate_selection::error::SelectionError;
use crate_selection::flags::{CrateStateFlags, FlagSet};
use crate_selection::package::{
    Change, Changelog, Crate, DepKind, DepSource, Dependency, DiffOutput, ReleaseTag,
};
use crate_selection::state::CrateState;
use crate_selection::states::{
    check_disallowed, check_enforced, compute_member_flags, find_tag, previous_release_tag,
};
use crate_selection::workspace::ReleaseWorkspace;

use CrateStateFlags::{
    ChangedSincePreviousRelease, DisallowedVersionReqViolated, EnforcedVersionReqViolated,
    HasPreviousRelease, IsWorkspaceDependency, Matched, MissingChangelog, MissingReadme,
    UnreleasableViaChangelogFrontmatter,
};

fn member(name: &str, version: &str, dependencies: &[&str]) -> Crate {
    Crate {
        name: name.to_string(),
        version: version.to_string(),
        root: format!("/ws/{}", name),
        dependencies: dependencies
            .iter()
            .map(|d| Dependency {
                name: d.to_string(),
                kind: DepKind::Normal,
                optional: false,
                source: DepSource::Path,
            })
            .collect(),
        has_readme: true,
        changelog: Some(Changelog { unreleasable: false, changes: vec![] }),
        release_tags: vec![],
    }
}

fn released(mut member: Crate, versions: &[&str]) -> Crate {
    let mut changes = vec![Change::Unreleased];
    changes.extend(versions.iter().map(|v| Change::Release(v.to_string())));
    member.changelog = Some(Changelog { unreleasable: false, changes });
    member
}

fn tagged(mut member: Crate, tag: &str, exit_code: Option<i32>, stdout: &[u8]) -> Crate {
    member.release_tags.push(ReleaseTag {
        name: tag.to_string(),
        diff: DiffOutput { exit_code, stdout: stdout.to_vec() },
    });
    member
}

fn filter(pattern: &str) -> SelectionCriteria {
    SelectionCriteria { selection_filter: pattern.to_string(), ..SelectionCriteria::default() }
}

fn workspace_of(members: Vec<Crate>, criteria: SelectionCriteria) -> ReleaseWorkspace {
    ReleaseWorkspace::try_new_with_criteria("/ws".to_string(), members, None, criteria).unwrap()
}

fn flags(member: &Crate, criteria: &SelectionCriteria) -> Vec<CrateStateFlags> {
    compute_member_flags(member, criteria).unwrap().to_vec()
}

fn states(workspace: &mut ReleaseWorkspace) -> Vec<(String, Vec<CrateStateFlags>)> {
    workspace
        .members_states()
        .unwrap()
        .into_iter()
        .map(|(name, state)| (name, state.flags().to_vec()))
        .collect()
}

#[test]
fn the_filter_matches_anywhere_in_a_name() {
    let banana = member("banana", "0.1.0", &[]);
    assert_eq!(flags(&banana, &filter("nan")), vec![Matched]);
    assert_eq!(flags(&banana, &filter("^nan")), vec![]);
    assert_eq!(flags(&banana, &filter("^banana$")), vec![Matched]);
    assert_eq!(flags(&banana, &filter("^(?!b).*$")), vec![]);
    assert_eq!(flags(&member("apple", "0.1.0", &[]), &filter("^(?!b).*$")), vec![Matched]);
    assert_eq!(flags(&banana, &SelectionCriteria::default()), vec![Matched]);
    assert_eq!(flags(&banana, &filter("")), vec![Matched]);
}

#[test]
fn a_filter_that_is_no_expression_is_an_error() {
    let a = member("a", "0.1.0", &[]);
    assert_eq!(compute_member_flags(&a, &filter("(")), Err(SelectionError::SelectionFilter));
    let mut ws = workspace_of(vec![a], filter("(unclosed"));
    assert_eq!(ws.members(), Ok(vec![0]));
    assert_eq!(ws.members_states(), Err(SelectionError::SelectionFilter));
    assert_eq!(ws.release_selection(), Err(SelectionError::SelectionFilter));
    assert_eq!(ws.state(0), Err(SelectionError::SelectionFilter));
}

#[test]
fn enforced_requirements() {
    let reqs = |texts: &[&str]| texts.iter().map(|t| t.to_string()).collect::<Vec<_>>();
    assert_eq!(check_enforced(&reqs(&[]), "0.9.0"), Ok(false));
    assert_eq!(check_enforced(&reqs(&[">=1.0"]), "0.9.0"), Ok(true));
    assert_eq!(check_enforced(&reqs(&[">=1.0"]), "1.0.0"), Ok(false));
    assert_eq!(check_enforced(&reqs(&[">=0.1", "<0.5"]), "0.9.0"), Ok(true));
    assert_eq!(check_enforced(&reqs(&[">=0.1", "<1"]), "0.9.0"), Ok(false));
    assert_eq!(check_enforced(&reqs(&["^0.9", "~0.9.0", "=0.9.0", "*"]), "0.9.0"), Ok(false));
    // a version with a pre-release meets a requirement only where the
    // requirement names a pre-release of the same version
    assert_eq!(check_enforced(&reqs(&[">=0.9"]), "1.0.0-alpha.1"), Ok(true));
    assert_eq!(check_enforced(&reqs(&[">=1.0.0-alpha.0"]), "1.0.0-alpha.1"), Ok(false));
    // the first requirement that is failed ends the reading
    assert_eq!(check_enforced(&reqs(&[">=1.0", "no requirement"]), "0.9.0"), Ok(true));
    assert_eq!(
        check_enforced(&reqs(&[">=0.1", "no requirement"]), "0.9.0"),
        Err(SelectionError::VersionRequirement)
    );
    assert_eq!(
        check_enforced(&reqs(&["no requirement", ">=1.0"]), "0.9.0"),
        Err(SelectionError::VersionRequirement)
    );
    assert_eq!(check_enforced(&reqs(&[">=1.0"]), "0.9"), Err(SelectionError::VersionRequirement));
    assert_eq!(check_enforced(&reqs(&[]), "no version"), Ok(false));
}

#[test]
fn disallowed_requirements() {
    let reqs = |texts: &[&str]| texts.iter().map(|t| t.to_string()).collect::<Vec<_>>();
    assert_eq!(check_disallowed(&reqs(&[]), "0.9.0"), Ok(false));
    assert_eq!(check_disallowed(&reqs(&[">=1.0"]), "0.9.0"), Ok(false));
    assert_eq!(check_disallowed(&reqs(&[">=0.1"]), "0.9.0"), Ok(true));
    assert_eq!(check_disallowed(&reqs(&[">=1.0", "=0.9.0"]), "0.9.0"), Ok(true));
    assert_eq!(check_disallowed(&reqs(&["=0.9.0", "no requirement"]), "0.9.0"), Ok(true));
    assert_eq!(
        check_disallowed(&reqs(&[">=1.0", "no requirement"]), "0.9.0"),
        Err(SelectionError::VersionRequirement)
    );
    assert_eq!(check_disallowed(&reqs(&["*"]), "x"), Err(SelectionError::VersionRequirement));
}

#[test]
fn version_requirements_set_flags() {
    let a = member("a", "0.9.0", &[]);
    let criteria = SelectionCriteria {
        enforced_version_reqs: vec![">=1.0".to_string()],
        disallowed_version_reqs: vec!["<0.5".to_string(), "=0.9.0".to_string()],
        ..filter("^a$")
    };
    assert_eq!(
        flags(&a, &criteria),
        vec![Matched, EnforcedVersionReqViolated, DisallowedVersionReqViolated]
    );
    let criteria = SelectionCriteria {
        disallowed_version_reqs: vec![">=0.1".to_string()],
        ..filter("^b$")
    };
    assert_eq!(flags(&a, &criteria), vec![DisallowedVersionReqViolated]);
    let criteria =
        SelectionCriteria { enforced_version_reqs: vec!["?".to_string()], ..filter("^b$") };
    assert_eq!(compute_member_flags(&a, &criteria), Err(SelectionError::VersionRequirement));
    let criteria =
        SelectionCriteria { disallowed_version_reqs: vec!["?".to_string()], ..filter("^b$") };
    assert_eq!(compute_member_flags(&a, &criteria), Err(SelectionError::VersionRequirement));
    // the filter is applied before the requirements are read
    let criteria = SelectionCriteria { enforced_version_reqs: vec!["?".to_string()], ..filter("(") };
    assert_eq!(compute_member_flags(&a, &criteria), Err(SelectionError::SelectionFilter));
}

#[test]
fn readme_and_changelog() {
    let mut a = member("a", "0.1.0", &[]);
    a.has_readme = false;
    assert_eq!(flags(&a, &filter("^b$")), vec![MissingReadme]);
    a.changelog = None;
    assert_eq!(flags(&a, &filter("^b$")), vec![MissingChangelog, MissingReadme]);
    a.has_readme = true;
    a.changelog = Some(Changelog { unreleasable: true, changes: vec![] });
    assert_eq!(flags(&a, &filter("^b$")), vec![UnreleasableViaChangelogFrontmatter]);
}

#[test]
fn the_previous_release_is_the_first_release_of_the_changelog() {
    let a = released(member("a", "0.4.0", &[]), &["0.3.0", "0.2.0"]);
    assert_eq!(previous_release_tag(&a), Some("a-v0.3.0".to_string()));
    assert_eq!(previous_release_tag(&member("a", "0.4.0", &[])), None);
    assert_eq!(previous_release_tag(&released(member("a", "0.4.0", &[]), &[])), None);
    let mut without = a.clone();
    without.changelog = None;
    assert_eq!(previous_release_tag(&without), None);

    assert_eq!(flags(&a, &filter("^b$")), vec![]);
    let old_tag = tagged(a.clone(), "a-v0.2.0", Some(1), b"src/lib.rs\n");
    assert_eq!(flags(&old_tag, &filter("^b$")), vec![]);
    let unchanged = tagged(old_tag.clone(), "a-v0.3.0", Some(0), b"");
    assert_eq!(find_tag(&unchanged.release_tags, &"a-v0.3.0".to_string()), Some(1));
    assert_eq!(find_tag(&unchanged.release_tags, &"a-v0.2.0".to_string()), Some(0));
    assert_eq!(find_tag(&unchanged.release_tags, &"a-v0.1.0".to_string()), None);
    assert_eq!(flags(&unchanged, &filter("^b$")), vec![HasPreviousRelease]);
    let changed = tagged(a.clone(), "a-v0.3.0", Some(1), b"src/lib.rs\n");
    assert_eq!(
        flags(&changed, &filter("^b$")),
        vec![HasPreviousRelease, ChangedSincePreviousRelease]
    );
    let nothing_named = tagged(a.clone(), "a-v0.3.0", Some(1), b"");
    assert_eq!(flags(&nothing_named, &filter("^b$")), vec![HasPreviousRelease]);
    let failed = tagged(a.clone(), "a-v0.3.0", Some(128), b"");
    assert_eq!(
        compute_member_flags(&failed, &filter("^b$")),
        Err(SelectionError::VersionControl { exit_code: Some(128) })
    );
    let killed = tagged(a, "a-v0.3.0", None, b"");
    assert_eq!(
        compute_member_flags(&killed, &filter("^b$")),
        Err(SelectionError::VersionControl { exit_code: None })
    );
}

#[test]
fn a_failure_of_the_version_control_tool_ends_the_selection() {
    let a = tagged(released(member("a", "0.4.0", &[]), &["0.3.0"]), "a-v0.3.0", Some(2), b"");
    let mut ws = workspace_of(vec![member("b", "0.1.0", &[]), a], filter(".*"));
    let error = SelectionError::VersionControl { exit_code: Some(2) };
    assert_eq!(ws.members_states(), Err(error.clone()));
    assert_eq!(ws.release_selection(), Err(error.clone()));
    assert_eq!(ws.state(0), Err(error));
    assert_eq!(ws.members(), Ok(vec![0, 1]));
}

#[test]
fn every_member_has_a_state() {
    let mut ws = workspace_of(
        vec![member("a", "0.1.0", &["b"]), member("b", "0.1.0", &[]), member("z", "0.1.0", &[])],
        filter("^a$"),
    );
    assert_eq!(
        states(&mut ws),
        vec![
            ("b".to_string(), vec![IsWorkspaceDependency]),
            ("a".to_string(), vec![Matched]),
            ("z".to_string(), vec![]),
        ]
    );
    assert_eq!(ws.state(2).unwrap().flags().to_vec(), vec![]);
    assert!(ws.state(2).unwrap().release_selection());
    assert_eq!(ws.release_selection(), Ok(vec![1, 0, 2]));
}

#[test]
fn a_matched_member_marks_all_that_it_reaches() {
    let mut ws = workspace_of(
        vec![
            member("top", "0.1.0", &["mid", "outside"]),
            member("mid", "0.1.0", &["low"]),
            member("low", "0.1.0", &[]),
            member("other", "0.1.0", &["low"]),
        ],
        filter("^top$"),
    );
    assert_eq!(
        states(&mut ws),
        vec![
            ("low".to_string(), vec![IsWorkspaceDependency]),
            ("mid".to_string(), vec![IsWorkspaceDependency]),
            ("top".to_string(), vec![Matched]),
            ("outside".to_string(), vec![IsWorkspaceDependency]),
            ("other".to_string(), vec![]),
        ]
    );
    assert!(ws.state(1).unwrap().selected());
    assert!(ws.state(2).unwrap().selected());
    assert!(!ws.state(3).unwrap().selected());
}

#[test]
fn a_member_can_be_matched_and_a_dependency() {
    let mut ws = workspace_of(
        vec![member("a", "0.1.0", &["b"]), member("b", "0.1.0", &[])],
        filter(".*"),
    );
    assert_eq!(
        states(&mut ws),
        vec![
            ("b".to_string(), vec![Matched, IsWorkspaceDependency]),
            ("a".to_string(), vec![Matched]),
        ]
    );
}

#[test]
fn blockers_are_forgiven_by_role() {
    let members = || {
        let mut a = member("a", "0.1.0", &["b"]);
        a.changelog = None;
        let mut b = member("b", "0.1.0", &[]);
        b.has_readme = false;
        vec![a, b]
    };
    let run = |dependency: &[CrateStateFlags], selection: &[CrateStateFlags]| {
        let criteria = SelectionCriteria {
            allowed_dependency_blockers: FlagSet::from_flags(dependency),
            allowed_selection_blockers: FlagSet::from_flags(selection),
            ..filter("^a$")
        };
        workspace_of(members(), criteria).release_selection()
    };
    let report = |lines: &[(&str, &str)]| {
        let mut text = format!(
            "the following crates are blocked but required for the release: \n\n{}\nDISALLOWED BLOCKING CRATES\nShowing states: Blocking \n",
            "-".repeat(80)
        );
        for (name, flags) in lines {
            text += &format!("{}\n{:<30}{}\n{}\n", "-".repeat(80), name, flags, " ".repeat(30));
        }
        Err(SelectionError::BlockedReleaseRequired { report: text })
    };
    assert_eq!(run(&[], &[]), report(&[("b", "[MissingReadme]"), ("a", "[MissingChangelog]")]));
    assert_eq!(run(&[MissingReadme], &[]), report(&[("a", "[MissingChangelog]")]));
    assert_eq!(run(&[], &[MissingChangelog]), report(&[("b", "[MissingReadme]")]));
    // the blockers of a selection do not forgive a dependency, nor the other way round
    assert_eq!(
        run(&[MissingChangelog], &[MissingReadme]),
        report(&[("b", "[MissingReadme]"), ("a", "[MissingChangelog]")])
    );
    // forgiven packages are still blocked, and so are not released
    assert_eq!(run(&[MissingReadme], &[MissingChangelog]), Ok(vec![]));
}

#[test]
fn a_blocked_package_that_is_not_selected_does_not_stop_the_release() {
    let mut z = member("z", "0.1.0", &[]);
    z.has_readme = false;
    let mut ws = workspace_of(vec![member("a", "0.1.0", &[]), z], filter("^a$"));
    assert_eq!(ws.release_selection(), Ok(vec![0]));
    let state = ws.state(1).unwrap();
    assert!(state.blocked());
    assert!(!state.allowed());
    assert!(!state.selected());
}

#[test]
fn the_states_carry_the_forgiven_blockers_of_the_criteria() {
    let criteria = SelectionCriteria {
        allowed_dependency_blockers: FlagSet::from_flags(&[MissingReadme]),
        allowed_selection_blockers: FlagSet::from_flags(&[MissingChangelog]),
        ..filter("^a$")
    };
    let mut ws = workspace_of(vec![member("a", "0.1.0", &["b"]), member("b", "0.1.0", &[])], criteria);
    assert_eq!(
        ws.state(0),
        Ok(CrateState::new(
            FlagSet::from_flags(&[Matched]),
            FlagSet::from_flags(&[MissingReadme]),
            FlagSet::from_flags(&[MissingChangelog]),
        ))
    );
    assert_eq!(
        ws.state(1),
        Ok(CrateState::new(
            FlagSet::from_flags(&[IsWorkspaceDependency]),
            FlagSet::from_flags(&[MissingReadme]),
            FlagSet::from_flags(&[MissingChangelog]),
        ))
    );
}

#[test]
fn reset_gives_what_a_new_workspace_gives() {
    let members = || {
        vec![
            tagged(
                released(member("a", "0.4.0", &["b", "c"]), &["0.3.0"]),
                "a-v0.3.0",
                Some(1),
                b"x\n",
            ),
            member("b", "0.1.0", &["c"]),
            member("c", "0.1.0", &[]),
            member("d", "0.1.0", &["a"]),
        ]
    };
    let mut used = workspace_of(members(), filter("^a$"));
    let order = used.members();
    let all = used.members_states();
    let selection = used.release_selection();
    let dependencies = used.dependencies_in_workspace(3);
    let dependents = used.dependents_in_workspace(2);
    assert_eq!(order, Ok(vec![2, 1, 0, 3]));
    assert_eq!(selection, Ok(vec![2, 1, 0, 3]));
    assert_eq!(dependents, Ok(vec![1, 0, 3]));
    // asked again, the same is answered
    assert_eq!(used.members(), order);
    assert_eq!(used.members_states(), all);
    assert_eq!(used.release_selection(), selection);
    assert_eq!(used.dependencies_in_workspace(3), dependencies);
    assert_eq!(used.dependents_in_workspace(2), dependents);
    // and so it is after a reset, in whatever order it is asked
    used.reset_state();
    assert_eq!(used.dependents_in_workspace(2), dependents);
    assert_eq!(used.release_selection(), selection);
    used.reset_state();
    let mut fresh = workspace_of(members(), filter("^a$"));
    assert_eq!(used.members_states(), fresh.members_states());
    assert_eq!(used.members(), fresh.members());
    assert_eq!(used.dependencies_in_workspace(3), fresh.dependencies_in_workspace(3));
    assert_eq!(used.release_selection(), fresh.release_selection());
    assert_eq!(used.members_unsorted(), fresh.members_unsorted());
}
