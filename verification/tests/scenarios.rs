use crate_selection::criteria::SelectionCriteria;
use crate_selection::error::SelectionError;
use crate_selection::flags::{CrateStateFlags, FlagSet, MetaCrateStateFlags};
use crate_selection::package::{
    Change, Changelog, Crate, DepKind, DepSource, Dependency, DiffOutput, ReleaseTag,
};
use crate_selection::state::CrateState;
use crate_selection::workspace::ReleaseWorkspace;

fn path_dependency(name: &str) -> Dependency {
    Dependency {
        name: name.to_string(),
        kind: DepKind::Normal,
        optional: false,
        source: DepSource::Path,
    }
}

fn package(name: &str, version: &str, dependencies: &[&str]) -> Crate {
    Crate {
        name: name.to_string(),
        version: version.to_string(),
        root: format!("/workspace/crates/{}", name),
        dependencies: dependencies.iter().map(|d| path_dependency(d)).collect(),
        has_readme: true,
        changelog: Some(Changelog { unreleasable: false, changes: vec![Change::Unreleased] }),
        release_tags: vec![],
    }
}

fn criteria_with_filter(filter: &str) -> SelectionCriteria {
    SelectionCriteria { selection_filter: filter.to_string(), ..SelectionCriteria::default() }
}

fn workspace(members: Vec<Crate>, criteria: SelectionCriteria) -> ReleaseWorkspace {
    ReleaseWorkspace::try_new_with_criteria("/workspace".to_string(), members, None, criteria)
        .unwrap()
}

fn names(workspace: &ReleaseWorkspace, places: &[usize]) -> Vec<String> {
    places.iter().map(|&place| workspace.members_unsorted()[place].name.clone()).collect()
}

fn flags_of(workspace: &mut ReleaseWorkspace, name: &str) -> Vec<CrateStateFlags> {
    let place = workspace.members_unsorted().iter().position(|m| m.name == name).unwrap();
    workspace.state(place).unwrap().flags().to_vec()
}

#[test]
fn single_leaf_clean() {
    let mut ws = workspace(vec![package("a", "0.1.0", &[])], criteria_with_filter(".*"));
    let selection = ws.release_selection().unwrap();
    assert_eq!(names(&ws, &selection), vec!["a"]);
    assert_eq!(flags_of(&mut ws, "a"), vec![CrateStateFlags::Matched]);
    let state = ws.state(0).unwrap();
    assert!(state.changed());
    assert!(state.meta_flags().contains(MetaCrateStateFlags::Changed));
    assert!(state.selected());
    assert!(!state.blocked());
    assert!(state.allowed());
}

#[test]
fn dependency_propagation() {
    let mut ws =
        workspace(vec![package("a", "0.1.0", &["b"]), package("b", "0.1.0", &[])], criteria_with_filter("^a$"));
    let selection = ws.release_selection().unwrap();
    assert_eq!(names(&ws, &selection), vec!["b", "a"]);
    assert_eq!(flags_of(&mut ws, "a"), vec![CrateStateFlags::Matched]);
    assert_eq!(flags_of(&mut ws, "b"), vec![CrateStateFlags::IsWorkspaceDependency]);
    assert!(ws.state(0).unwrap().changed());
    assert!(ws.state(1).unwrap().changed());
}

#[test]
fn blocked_dependency_forgiven() {
    let mut b = package("b", "0.1.0", &[]);
    b.has_readme = false;
    let mut criteria = criteria_with_filter("^a$");
    criteria.allowed_dependency_blockers = FlagSet::from_flags(&[CrateStateFlags::MissingReadme]);
    let mut ws = workspace(vec![package("a", "0.1.0", &["b"]), b], criteria);
    let selection = ws.release_selection();
    // a forgiven blocker still blocks the package itself from the release
    // set, but it does not fail the release
    let selection = selection.unwrap();
    assert_eq!(names(&ws, &selection), vec!["a"]);
    let state = ws.state(1).unwrap();
    assert!(state.blocked());
    assert!(state.allowed());
}

#[test]
fn blocked_dependency_not_forgiven() {
    let mut b = package("b", "0.1.0", &[]);
    b.has_readme = false;
    let mut ws = workspace(vec![package("a", "0.1.0", &["b"]), b], criteria_with_filter("^a$"));
    match ws.release_selection() {
        Err(SelectionError::BlockedReleaseRequired { report }) => {
            assert!(report.contains("b"));
            assert!(report.contains("MissingReadme"));
            assert!(report.contains("DISALLOWED BLOCKING CRATES"));
        }
        other => panic!("unexpected result: {:?}", other),
    }
}

#[test]
fn cycle_detection() {
    let mut ws =
        workspace(vec![package("a", "0.1.0", &["b"]), package("b", "0.1.0", &["a"])], criteria_with_filter(".*"));
    assert_eq!(
        ws.members(),
        Err(SelectionError::DependencyCycle { from: "a".to_string(), to: "b".to_string() })
    );
}

#[test]
fn version_requirement_violated() {
    let mut criteria = criteria_with_filter("^a$");
    criteria.enforced_version_reqs = vec![">=1.0".to_string()];
    let mut ws = workspace(vec![package("a", "0.9.0", &[])], criteria);
    assert_eq!(
        flags_of(&mut ws, "a"),
        vec![CrateStateFlags::Matched, CrateStateFlags::EnforcedVersionReqViolated]
    );
    assert!(matches!(
        ws.release_selection(),
        Err(SelectionError::BlockedReleaseRequired { .. })
    ));
}

#[test]
fn unchanged_since_last_release() {
    let mut a = package("a", "0.2.0", &[]);
    a.changelog = Some(Changelog {
        unreleasable: false,
        changes: vec![Change::Unreleased, Change::Release("0.2.0".to_string())],
    });
    a.release_tags = vec![ReleaseTag {
        name: "a-v0.2.0".to_string(),
        diff: DiffOutput { exit_code: Some(0), stdout: vec![] },
    }];
    let mut ws = workspace(vec![a.clone()], criteria_with_filter("^nothing$"));
    assert_eq!(flags_of(&mut ws, "a"), vec![CrateStateFlags::HasPreviousRelease]);
    let state = ws.state(0).unwrap();
    assert!(!state.changed());
    assert!(!state.selected());
    assert_eq!(ws.release_selection().unwrap(), Vec::<usize>::new());

    a.release_tags[0].diff = DiffOutput { exit_code: Some(1), stdout: b"src/lib.rs\n".to_vec() };
    let mut ws = workspace(vec![a], criteria_with_filter("^nothing$"));
    assert_eq!(
        flags_of(&mut ws, "a"),
        vec![CrateStateFlags::HasPreviousRelease, CrateStateFlags::ChangedSincePreviousRelease]
    );
    let selection = ws.release_selection().unwrap();
    assert_eq!(names(&ws, &selection), vec!["a"]);
}

#[test]
fn default_state_is_derived() {
    let state = CrateState::default();
    assert!(state.changed());
    assert!(state.allowed());
    assert!(!state.blocked());
    assert!(!state.selected());
    assert_eq!(
        state.meta_flags().to_vec(),
        vec![MetaCrateStateFlags::Allowed, MetaCrateStateFlags::Changed]
    );
}
