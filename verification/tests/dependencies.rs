use crate_selection::criteria::SelectionCriteria;
use crate_selection::dependencies::{find_member, walk_dependencies};
use crate_selection::error::SelectionError;
use crate_selection::package::{Changelog, Crate, DepKind, DepSource, Dependency};
use crate_selection::workspace::ReleaseWorkspace;

fn dependency(name: &str, kind: DepKind, optional: bool, source: DepSource) -> Dependency {
    Dependency { name: name.to_string(), kind, optional, source }
}

fn path(name: &str) -> Dependency {
    dependency(name, DepKind::Normal, false, DepSource::Path)
}

fn member(name: &str, dependencies: Vec<Dependency>) -> Crate {
    Crate {
        name: name.to_string(),
        version: "0.1.0".to_string(),
        root: format!("/ws/{}", name),
        dependencies,
        has_readme: true,
        changelog: Some(Changelog { unreleasable: false, changes: vec![] }),
        release_tags: vec![],
    }
}

fn graph(edges: &[(&str, &[&str])]) -> Vec<Crate> {
    edges
        .iter()
        .map(|(name, dependencies)| member(name, dependencies.iter().map(|d| path(d)).collect()))
        .collect()
}

fn workspace_of(members: Vec<Crate>, criteria: SelectionCriteria) -> ReleaseWorkspace {
    ReleaseWorkspace::try_new_with_criteria("/ws".to_string(), members, None, criteria).unwrap()
}

fn dependency_names(workspace: &mut ReleaseWorkspace, member: usize) -> Vec<String> {
    workspace
        .dependencies_in_workspace(member)
        .unwrap()
        .into_iter()
        .map(|dependency| dependency.name)
        .collect()
}

fn cycle(from: &str, to: &str) -> SelectionError {
    SelectionError::DependencyCycle { from: from.to_string(), to: to.to_string() }
}

#[test]
fn finds_members_by_name() {
    let members = graph(&[("a", &[]), ("b", &[]), ("c", &[])]);
    assert_eq!(find_member(&members, &"a".to_string()), Some(0));
    assert_eq!(find_member(&members, &"c".to_string()), Some(2));
    assert_eq!(find_member(&members, &"d".to_string()), None);
    assert_eq!(find_member(&vec![], &"a".to_string()), None);
}

#[test]
fn a_leaf_has_no_dependencies() {
    let mut ws = workspace_of(graph(&[("a", &[])]), SelectionCriteria::default());
    assert_eq!(ws.dependencies_in_workspace(0), Ok(vec![]));
}

#[test]
fn dependencies_are_followed_through_members() {
    let mut ws = workspace_of(
        graph(&[("a", &["b"]), ("b", &["c"]), ("c", &[]), ("d", &["a"])]),
        SelectionCriteria::default(),
    );
    assert_eq!(dependency_names(&mut ws, 0), vec!["b", "c"]);
    assert_eq!(dependency_names(&mut ws, 1), vec!["c"]);
    assert_eq!(dependency_names(&mut ws, 2), Vec::<String>::new());
    assert_eq!(dependency_names(&mut ws, 3), vec!["a", "b", "c"]);
    assert_eq!(ws.dependencies_in_workspace(0).unwrap()[0], path("b"));
}

#[test]
fn the_last_dependency_is_expanded_first() {
    let mut ws = workspace_of(
        graph(&[("a", &["b", "c"]), ("b", &["x"]), ("c", &["y"]), ("x", &[]), ("y", &[])]),
        SelectionCriteria::default(),
    );
    assert_eq!(dependency_names(&mut ws, 0), vec!["b", "c", "y", "x"]);
}

#[test]
fn a_dependency_is_found_once() {
    let mut ws = workspace_of(
        graph(&[("a", &["b", "c"]), ("b", &["d"]), ("c", &["d"]), ("d", &["e"]), ("e", &[])]),
        SelectionCriteria::default(),
    );
    assert_eq!(dependency_names(&mut ws, 0), vec!["b", "c", "d", "e"]);

    let mut ws = workspace_of(
        graph(&[("a", &["b", "c"]), ("c", &["d"]), ("b", &["e"]), ("e", &["d"]), ("d", &[])]),
        SelectionCriteria::default(),
    );
    assert_eq!(dependency_names(&mut ws, 0), vec!["b", "c", "d", "e"]);

    let mut ws = workspace_of(graph(&[("a", &["b", "b", "b"]), ("b", &[])]), SelectionCriteria::default());
    assert_eq!(dependency_names(&mut ws, 0), vec!["b"]);
}

#[test]
fn kind_and_optional_tell_dependencies_apart() {
    let members = vec![
        member(
            "a",
            vec![
                dependency("b", DepKind::Normal, false, DepSource::Path),
                dependency("b", DepKind::Development, false, DepSource::Path),
                dependency("b", DepKind::Normal, true, DepSource::Path),
                dependency("b", DepKind::Development, false, DepSource::Path),
                dependency("b", DepKind::Build, false, DepSource::Path),
            ],
        ),
        member("b", vec![]),
    ];
    let mut ws = workspace_of(members, SelectionCriteria::default());
    assert_eq!(
        ws.dependencies_in_workspace(0),
        Ok(vec![
            dependency("b", DepKind::Normal, false, DepSource::Path),
            dependency("b", DepKind::Development, false, DepSource::Path),
            dependency("b", DepKind::Normal, true, DepSource::Path),
            dependency("b", DepKind::Build, false, DepSource::Path),
        ])
    );
}

#[test]
fn only_path_dependencies_count() {
    let members = vec![
        member(
            "a",
            vec![
                dependency("b", DepKind::Normal, false, DepSource::Registry),
                dependency("c", DepKind::Normal, false, DepSource::Other),
                dependency("d", DepKind::Normal, false, DepSource::Path),
            ],
        ),
        member("b", vec![path("d")]),
        member("c", vec![]),
        member("d", vec![]),
    ];
    let mut ws = workspace_of(members, SelectionCriteria::default());
    assert_eq!(dependency_names(&mut ws, 0), vec!["d"]);
    assert_eq!(ws.members(), Ok(vec![2, 3, 0, 1]));
}

#[test]
fn optional_dependencies_can_be_left_out() {
    let members = || {
        vec![
            member(
                "a",
                vec![
                    dependency("b", DepKind::Normal, true, DepSource::Path),
                    dependency("c", DepKind::Normal, false, DepSource::Path),
                ],
            ),
            member("b", vec![path("d")]),
            member("c", vec![]),
            member("d", vec![]),
        ]
    };
    let mut ws = workspace_of(members(), SelectionCriteria::default());
    assert_eq!(dependency_names(&mut ws, 0), vec!["b", "c", "d"]);
    let criteria = SelectionCriteria { exclude_optional_deps: true, ..SelectionCriteria::default() };
    let mut ws = workspace_of(members(), criteria);
    assert_eq!(dependency_names(&mut ws, 0), vec!["c"]);
}

#[test]
fn kinds_of_dependencies_can_be_left_out() {
    let members = || {
        vec![
            member(
                "a",
                vec![
                    dependency("b", DepKind::Development, false, DepSource::Path),
                    dependency("c", DepKind::Build, false, DepSource::Path),
                    dependency("d", DepKind::Normal, false, DepSource::Path),
                ],
            ),
            member("b", vec![path("a")]),
            member("c", vec![]),
            member("d", vec![]),
        ]
    };
    let mut ws = workspace_of(members(), SelectionCriteria::default());
    assert_eq!(ws.dependencies_in_workspace(0), Err(cycle("a", "b")));
    let criteria = SelectionCriteria {
        exclude_dep_kinds: vec![DepKind::Development],
        ..SelectionCriteria::default()
    };
    assert!(!criteria.excludes_kind(DepKind::Normal));
    assert!(criteria.excludes_kind(DepKind::Development));
    let mut ws = workspace_of(members(), criteria);
    assert_eq!(dependency_names(&mut ws, 0), vec!["c", "d"]);
    assert_eq!(dependency_names(&mut ws, 1), vec!["a", "c", "d"]);
    assert_eq!(ws.members(), Ok(vec![2, 3, 0, 1]));
    let criteria = SelectionCriteria {
        exclude_dep_kinds: vec![DepKind::Build, DepKind::Development, DepKind::Normal],
        ..SelectionCriteria::default()
    };
    let mut ws = workspace_of(members(), criteria);
    assert_eq!(dependency_names(&mut ws, 0), Vec::<String>::new());
}

#[test]
fn dependencies_outside_the_workspace_are_kept_but_not_followed() {
    let mut ws = workspace_of(graph(&[("a", &["outside", "b"]), ("b", &[])]), SelectionCriteria::default());
    assert_eq!(dependency_names(&mut ws, 0), vec!["outside", "b"]);
    assert_eq!(ws.members(), Ok(vec![1, 0]));
}

#[test]
fn a_cycle_is_an_error_that_names_both_ends() {
    let mut ws = workspace_of(graph(&[("a", &["b"]), ("b", &["a"])]), SelectionCriteria::default());
    assert_eq!(ws.dependencies_in_workspace(0), Err(cycle("a", "b")));
    assert_eq!(ws.dependencies_in_workspace(1), Err(cycle("b", "a")));
    assert_eq!(ws.members(), Err(cycle("a", "b")));
    assert_eq!(ws.members_states(), Err(cycle("a", "b")));
    assert_eq!(ws.release_selection(), Err(cycle("a", "b")));
    assert_eq!(ws.dependents_in_workspace(0), Err(cycle("a", "b")));
    assert_eq!(ws.state(0), Err(cycle("a", "b")));

    let mut ws = workspace_of(graph(&[("a", &["a"])]), SelectionCriteria::default());
    assert_eq!(ws.members(), Err(cycle("a", "a")));

    let mut ws = workspace_of(
        graph(&[("a", &["b"]), ("b", &["c"]), ("c", &["a"])]),
        SelectionCriteria::default(),
    );
    assert_eq!(ws.dependencies_in_workspace(0), Err(cycle("a", "c")));
    assert_eq!(ws.dependencies_in_workspace(2), Err(cycle("c", "b")));
}

#[test]
fn a_cycle_that_a_member_only_leads_to_does_not_stop_its_walk() {
    let mut ws = workspace_of(
        graph(&[("a", &["b"]), ("b", &["c"]), ("c", &["b"])]),
        SelectionCriteria::default(),
    );
    assert_eq!(dependency_names(&mut ws, 0), vec!["b", "c"]);
    assert_eq!(ws.dependencies_in_workspace(1), Err(cycle("b", "c")));
    assert_eq!(ws.members(), Err(cycle("b", "c")));
}

#[test]
fn the_walk_agrees_with_what_the_workspace_keeps() {
    let members = graph(&[("a", &["b", "c"]), ("b", &["d"]), ("c", &["d"]), ("d", &[])]);
    let criteria = SelectionCriteria::default();
    let walked: Vec<(String, u8, bool)> =
        walk_dependencies(&members, &criteria, 0).unwrap().into_iter().collect();
    assert_eq!(
        walked,
        vec![
            ("b".to_string(), 0, false),
            ("c".to_string(), 0, false),
            ("d".to_string(), 0, false)
        ]
    );
    let mut ws = workspace_of(members, criteria);
    let first = ws.dependencies_in_workspace(0);
    let second = ws.dependencies_in_workspace(0);
    assert_eq!(first, second);
    ws.reset_state();
    assert_eq!(ws.dependencies_in_workspace(0), first);
}

#[test]
fn dependents_come_in_the_order_of_the_members() {
    let mut ws = workspace_of(
        graph(&[("a", &["b"]), ("b", &["c"]), ("c", &[]), ("d", &["c"]), ("e", &[])]),
        SelectionCriteria::default(),
    );
    assert_eq!(ws.members(), Ok(vec![2, 1, 0, 3, 4]));
    assert_eq!(ws.dependents_in_workspace(2), Ok(vec![1, 0, 3]));
    assert_eq!(ws.dependents_in_workspace(1), Ok(vec![0]));
    assert_eq!(ws.dependents_in_workspace(0), Ok(vec![]));
    assert_eq!(ws.dependents_in_workspace(4), Ok(vec![]));
    assert_eq!(ws.dependents_in_workspace(2), Ok(vec![1, 0, 3]));
}

#[test]
fn members_are_ordered_by_their_dependencies() {
    let order = |edges: &[(&str, &[&str])]| {
        workspace_of(graph(edges), SelectionCriteria::default()).members().unwrap()
    };
    assert_eq!(order(&[]), Vec::<usize>::new());
    assert_eq!(order(&[("a", &[])]), vec![0]);
    assert_eq!(order(&[("a", &[]), ("b", &[]), ("c", &[])]), vec![0, 1, 2]);
    assert_eq!(order(&[("a", &["b"]), ("b", &[])]), vec![1, 0]);
    assert_eq!(order(&[("a", &[]), ("b", &[]), ("c", &["a"])]), vec![0, 1, 2]);
    assert_eq!(order(&[("c", &["a"]), ("a", &[]), ("b", &[])]), vec![1, 0, 2]);
    assert_eq!(order(&[("a", &["b"]), ("b", &["c"]), ("c", &[])]), vec![2, 1, 0]);
    assert_eq!(order(&[("a", &["c"]), ("b", &[]), ("c", &[])]), vec![1, 2, 0]);
}

#[test]
fn no_member_stands_before_one_that_it_depends_on() {
    let edges: &[(&str, &[&str])] = &[
        ("app", &["core", "net", "ui"]),
        ("ui", &["core", "text"]),
        ("net", &["core", "codec"]),
        ("codec", &["text"]),
        ("text", &[]),
        ("core", &["text", "outside"]),
        ("tool", &["app"]),
        ("lone", &[]),
    ];
    let mut ws = workspace_of(graph(edges), SelectionCriteria::default());
    let order = ws.members().unwrap();
    let mut sorted = order.clone();
    sorted.sort();
    assert_eq!(sorted, (0..edges.len()).collect::<Vec<_>>());
    assert_eq!(order, vec![4, 3, 5, 1, 2, 0, 6, 7]);
    for (p, &first) in order.iter().enumerate() {
        let reached = dependency_names(&mut ws, first);
        for &second in &order[p + 1..] {
            assert!(!reached.contains(&edges[second].0.to_string()));
        }
    }
    ws.reset_state();
    assert_eq!(ws.members().unwrap(), order);
}
