use crate_selection::criteria::SelectionCriteria;
use crate_selection::error::SelectionError;
use crate_selection::flags::FlagSet;
use crate_selection::package::{Change, Changelog, Crate, DepKind};
use crate_selection::workspace::{copy_places, ReleaseWorkspace};

fn member(name: &str) -> Crate {
    Crate {
        name: name.to_string(),
        version: "1.2.3".to_string(),
        root: format!("/ws/{}", name),
        dependencies: vec![],
        has_readme: true,
        changelog: Some(Changelog { unreleasable: false, changes: vec![Change::Unreleased] }),
        release_tags: vec![],
    }
}

fn load(names: &[&str]) -> Result<ReleaseWorkspace, SelectionError> {
    ReleaseWorkspace::try_new("/ws".to_string(), names.iter().map(|n| member(n)).collect(), None)
}

#[test]
fn default_criteria() {
    let criteria = SelectionCriteria::default();
    assert_eq!(criteria.selection_filter, ".*");
    assert_eq!(criteria.enforced_version_reqs, Vec::<String>::new());
    assert_eq!(criteria.disallowed_version_reqs, Vec::<String>::new());
    assert_eq!(criteria.allowed_dependency_blockers, FlagSet::empty());
    assert_eq!(criteria.allowed_selection_blockers, FlagSet::empty());
    assert_eq!(criteria.exclude_dep_kinds, Vec::<DepKind>::new());
    assert!(!criteria.exclude_optional_deps);
}

#[test]
fn a_workspace_keeps_what_it_was_made_of() {
    let changelog = Some(Changelog { unreleasable: false, changes: vec![] });
    let ws = ReleaseWorkspace::try_new(
        "/ws".to_string(),
        vec![member("a"), member("b")],
        changelog.clone(),
    )
    .unwrap();
    assert_eq!(ws.root(), "/ws");
    assert_eq!(ws.changelog(), &changelog);
    assert_eq!(ws.criteria(), &SelectionCriteria::default());
    assert_eq!(ws.members_unsorted(), &vec![member("a"), member("b")]);
    let a = &ws.members_unsorted()[0];
    assert_eq!(a.name(), "a");
    assert_eq!(a.version(), "1.2.3");
    assert_eq!(a.root(), "/ws/a");
    assert_eq!(
        a.changelog(),
        &Some(Changelog { unreleasable: false, changes: vec![Change::Unreleased] })
    );

    let criteria = SelectionCriteria {
        selection_filter: "^b$".to_string(),
        exclude_optional_deps: true,
        ..SelectionCriteria::default()
    };
    let mut ws = ReleaseWorkspace::try_new_with_criteria(
        "/other".to_string(),
        vec![member("a")],
        None,
        criteria.clone(),
    )
    .unwrap();
    assert_eq!(ws.root(), "/other");
    assert_eq!(ws.changelog(), &None);
    assert_eq!(ws.criteria(), &criteria);
    ws.reset_state();
    assert_eq!(ws.criteria(), &criteria);
    assert_eq!(ws.members_unsorted(), &vec![member("a")]);
}

#[test]
fn every_package_is_selected_by_default() {
    let mut ws = load(&["a", "b"]).unwrap();
    assert_eq!(ws.release_selection(), Ok(vec![0, 1]));
    assert!(ws.state(0).unwrap().is_matched());
    assert!(ws.state(1).unwrap().is_matched());
}

#[test]
fn an_empty_workspace() {
    let mut ws = load(&[]).unwrap();
    assert_eq!(ws.members(), Ok(vec![]));
    assert_eq!(ws.members_states(), Ok(vec![]));
    assert_eq!(ws.release_selection(), Ok(vec![]));
}

#[test]
fn names_have_to_be_valid() {
    assert!(matches!(load(&[""]), Err(SelectionError::WorkspaceLoad { member: 0 })));
    assert!(matches!(load(&["a", "b", ""]), Err(SelectionError::WorkspaceLoad { member: 2 })));
    assert!(matches!(load(&["a", "a"]), Err(SelectionError::WorkspaceLoad { member: 1 })));
    assert!(matches!(
        load(&["a", "b", "c", "b", "a"]),
        Err(SelectionError::WorkspaceLoad { member: 3 })
    ));
    assert!(matches!(load(&["a", "", "a"]), Err(SelectionError::WorkspaceLoad { member: 1 })));
    assert!(load(&["a", "A", "a "]).is_ok());
}

#[test]
fn kinds_have_codes() {
    assert_eq!(DepKind::Normal.code(), 0);
    assert_eq!(DepKind::Development.code(), 1);
    assert_eq!(DepKind::Build.code(), 2);
    assert_eq!(DepKind::from_code(0), Some(DepKind::Normal));
    assert_eq!(DepKind::from_code(1), Some(DepKind::Development));
    assert_eq!(DepKind::from_code(2), Some(DepKind::Build));
    assert_eq!(DepKind::from_code(3), None);
    assert_eq!(DepKind::from_code(255), None);
}

#[test]
fn places_are_copied() {
    assert_eq!(copy_places(&vec![3, 1, 2]), vec![3, 1, 2]);
    assert_eq!(copy_places(&vec![]), Vec::<usize>::new());
}
