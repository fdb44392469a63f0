use crate_selection::flags::{CrateStateFlags, FlagSet, MetaCrateStateFlags, MetaFlagSet};
use crate_selection::state::CrateState;

use CrateStateFlags::{
    ChangedSincePreviousRelease, DisallowedVersionReqViolated, EnforcedVersionReqViolated,
    HasPreviousRelease, IsWorkspaceDependency, Matched, MissingChangelog, MissingReadme,
    UnreleasableViaChangelogFrontmatter,
};

const ALL: [CrateStateFlags; 9] = [
    Matched,
    IsWorkspaceDependency,
    HasPreviousRelease,
    ChangedSincePreviousRelease,
    MissingChangelog,
    MissingReadme,
    UnreleasableViaChangelogFrontmatter,
    EnforcedVersionReqViolated,
    DisallowedVersionReqViolated,
];

const BLOCKING: [CrateStateFlags; 5] = [
    MissingChangelog,
    MissingReadme,
    UnreleasableViaChangelogFrontmatter,
    EnforcedVersionReqViolated,
    DisallowedVersionReqViolated,
];

fn state_of(flags: &[CrateStateFlags]) -> CrateState {
    CrateState::new(FlagSet::from_flags(flags), FlagSet::empty(), FlagSet::empty())
}

fn subsets() -> Vec<Vec<CrateStateFlags>> {
    (0u32..512)
        .map(|bits| ALL.iter().enumerate().filter(|(i, _)| bits & (1 << i) != 0).map(|(_, f)| *f).collect())
        .collect()
}

#[test]
fn flag_bits_follow_the_declaration() {
    let bits: Vec<u16> = ALL.iter().map(|flag| flag.bit()).collect();
    assert_eq!(bits, vec![1, 2, 4, 8, 16, 32, 64, 128, 256]);
    assert_eq!(MetaCrateStateFlags::Allowed.bit(), 1);
    assert_eq!(MetaCrateStateFlags::Blocked.bit(), 2);
    assert_eq!(MetaCrateStateFlags::Changed.bit(), 4);
    assert_eq!(MetaCrateStateFlags::Selected.bit(), 8);
}

#[test]
fn empty_set_holds_nothing() {
    let set = CrateStateFlags::empty_set();
    assert!(set.is_empty());
    assert_eq!(set.to_vec(), vec![]);
    for flag in ALL {
        assert!(!set.contains(flag));
    }
    assert_eq!(set, FlagSet::empty());
}

#[test]
fn insert_and_contains() {
    let mut set = FlagSet::empty();
    set.insert(MissingReadme);
    set.insert(Matched);
    set.insert(MissingReadme);
    assert!(!set.is_empty());
    assert!(set.contains(Matched));
    assert!(set.contains(MissingReadme));
    assert!(!set.contains(MissingChangelog));
    assert_eq!(set.to_vec(), vec![Matched, MissingReadme]);
    assert_eq!(set, FlagSet::from_flags(&[MissingReadme, Matched]));
}

#[test]
fn set_operations() {
    let a = FlagSet::from_flags(&[Matched, MissingReadme, HasPreviousRelease]);
    let b = FlagSet::from_flags(&[MissingReadme, MissingChangelog]);
    assert_eq!(a.intersection(b).to_vec(), vec![MissingReadme]);
    let mut union = a;
    union.extend(b);
    assert_eq!(union.to_vec(), vec![Matched, HasPreviousRelease, MissingChangelog, MissingReadme]);
    let mut difference = a;
    difference.remove(b);
    assert_eq!(difference.to_vec(), vec![Matched, HasPreviousRelease]);
    assert_eq!(FlagSet::blocking().to_vec(), BLOCKING.to_vec());
    assert_eq!(CrateState::blocking_states().to_vec(), BLOCKING.to_vec());
}

#[test]
fn meta_flag_set_operations() {
    let mut set = MetaFlagSet::empty();
    assert_eq!(set.to_vec(), vec![]);
    set.insert(MetaCrateStateFlags::Selected);
    set.insert(MetaCrateStateFlags::Allowed);
    assert!(set.contains(MetaCrateStateFlags::Selected));
    assert!(!set.contains(MetaCrateStateFlags::Blocked));
    assert_eq!(set.to_vec(), vec![MetaCrateStateFlags::Allowed, MetaCrateStateFlags::Selected]);
    set.remove(MetaCrateStateFlags::Selected);
    set.remove(MetaCrateStateFlags::Changed);
    assert_eq!(set.to_vec(), vec![MetaCrateStateFlags::Allowed]);
}

#[test]
fn selected_iff_matched_or_dependency() {
    for flags in subsets() {
        let state = state_of(&flags);
        let expected = flags.contains(&Matched) || flags.contains(&IsWorkspaceDependency);
        assert_eq!(state.selected(), expected);
        assert_eq!(state.meta_flags().contains(MetaCrateStateFlags::Selected), expected);
        assert_eq!(state.is_matched(), flags.contains(&Matched));
        assert_eq!(state.is_dependency(), flags.contains(&IsWorkspaceDependency));
    }
}

#[test]
fn blocked_iff_a_blocking_flag_is_set() {
    for flags in subsets() {
        let state = state_of(&flags);
        let expected = flags.iter().any(|flag| BLOCKING.contains(flag));
        assert_eq!(state.blocked(), expected);
        assert_eq!(state.meta_flags().contains(MetaCrateStateFlags::Blocked), expected);
        let blocking: Vec<_> = flags.iter().copied().filter(|flag| BLOCKING.contains(flag)).collect();
        assert_eq!(state.blocked_by().to_vec(), blocking);
    }
}

#[test]
fn allowed_iff_every_blocker_is_forgiven() {
    let dependency_mask = [MissingReadme, MissingChangelog];
    let selection_mask = [EnforcedVersionReqViolated];
    for flags in subsets() {
        let state = CrateState::new(
            FlagSet::from_flags(&flags),
            FlagSet::from_flags(&dependency_mask),
            FlagSet::from_flags(&selection_mask),
        );
        let mask: &[CrateStateFlags] = if flags.contains(&Matched) {
            &selection_mask
        } else if flags.contains(&IsWorkspaceDependency) {
            &dependency_mask
        } else {
            &[]
        };
        let left: Vec<_> = flags
            .iter()
            .copied()
            .filter(|flag| BLOCKING.contains(flag) && !mask.contains(flag))
            .collect();
        assert_eq!(state.disallowed_blockers().to_vec(), left);
        assert_eq!(state.allowed(), left.is_empty());
        assert_eq!(state.meta_flags().contains(MetaCrateStateFlags::Allowed), left.is_empty());
        if state.allowed() {
            assert!(!state.blocked() || state.blocked_by().to_vec().iter().all(|f| mask.contains(f)));
        }
    }
}

#[test]
fn changed_and_release_selection() {
    for flags in subsets() {
        let state = state_of(&flags);
        let changed =
            !flags.contains(&HasPreviousRelease) || flags.contains(&ChangedSincePreviousRelease);
        assert_eq!(state.changed(), changed);
        assert_eq!(state.meta_flags().contains(MetaCrateStateFlags::Changed), changed);
        assert_eq!(state.release_selection(), !state.blocked() && (changed || state.selected()));
    }
    assert!(state_of(&[]).release_selection());
    assert!(!state_of(&[HasPreviousRelease]).release_selection());
    assert!(state_of(&[HasPreviousRelease, ChangedSincePreviousRelease]).release_selection());
    assert!(state_of(&[HasPreviousRelease, IsWorkspaceDependency]).release_selection());
    assert!(!state_of(&[Matched, MissingReadme]).release_selection());
}

#[test]
fn insert_rederives_the_meta_flags() {
    let mut state = state_of(&[]);
    assert_eq!(
        state.meta_flags().to_vec(),
        vec![MetaCrateStateFlags::Allowed, MetaCrateStateFlags::Changed]
    );
    state.insert(MissingReadme);
    assert_eq!(
        state.meta_flags().to_vec(),
        vec![MetaCrateStateFlags::Blocked, MetaCrateStateFlags::Changed]
    );
    state.insert(HasPreviousRelease);
    assert_eq!(state.meta_flags().to_vec(), vec![MetaCrateStateFlags::Blocked]);
    state.insert(Matched);
    assert_eq!(
        state.meta_flags().to_vec(),
        vec![MetaCrateStateFlags::Blocked, MetaCrateStateFlags::Selected]
    );
    assert_eq!(state.flags().to_vec(), vec![Matched, HasPreviousRelease, MissingReadme]);
    assert_eq!(state, state_of(&[Matched, HasPreviousRelease, MissingReadme]));
}

#[test]
fn merge_adds_flags_and_keeps_the_masks() {
    let mut state = CrateState::new(
        FlagSet::from_flags(&[IsWorkspaceDependency]),
        FlagSet::from_flags(&[MissingReadme]),
        FlagSet::empty(),
    );
    let other = CrateState::new(
        FlagSet::from_flags(&[MissingReadme]),
        FlagSet::empty(),
        FlagSet::from_flags(&[MissingChangelog]),
    );
    state.merge(other);
    assert_eq!(state.flags().to_vec(), vec![IsWorkspaceDependency, MissingReadme]);
    assert!(state.blocked());
    assert!(state.allowed());
    state.update_meta_flags();
    assert_eq!(
        state.meta_flags().to_vec(),
        vec![
            MetaCrateStateFlags::Allowed,
            MetaCrateStateFlags::Blocked,
            MetaCrateStateFlags::Changed,
            MetaCrateStateFlags::Selected
        ]
    );
}

#[test]
fn flag_names() {
    let names: Vec<&str> = ALL.iter().map(|flag| flag.name()).collect();
    assert_eq!(
        names,
        vec![
            "Matched",
            "IsWorkspaceDependency",
            "HasPreviousRelease",
            "ChangedSincePreviousRelease",
            "MissingChangelog",
            "MissingReadme",
            "UnreleasableViaChangelogFrontmatter",
            "EnforcedVersionReqViolated",
            "DisallowedVersionReqViolated",
        ]
    );
    for flag in ALL {
        assert_eq!(flag.name(), format!("{:?}", flag));
    }
    for flag in [
        MetaCrateStateFlags::Allowed,
        MetaCrateStateFlags::Blocked,
        MetaCrateStateFlags::Changed,
        MetaCrateStateFlags::Selected,
    ] {
        assert_eq!(flag.name(), format!("{:?}", flag));
    }
}

#[test]
fn report_of_blocking_states() {
    let state = CrateState::new(
        FlagSet::from_flags(&[IsWorkspaceDependency, MissingReadme]),
        FlagSet::empty(),
        FlagSet::empty(),
    );
    let report = CrateState::format_crates_states(
        &vec![("b".to_string(), state)],
        "DISALLOWED BLOCKING CRATES",
        true,
        false,
        false,
    );
    let expected = format!(
        "\n{dashes}\nDISALLOWED BLOCKING CRATES\nShowing states: Blocking \n{dashes}\nb{pad}[MissingReadme]\n{indent}\n",
        dashes = "-".repeat(80),
        pad = " ".repeat(29),
        indent = " ".repeat(30),
    );
    assert_eq!(report, expected);
}

#[test]
fn report_of_all_states() {
    let first = state_of(&[Matched, MissingReadme, MissingChangelog]);
    let second = state_of(&[HasPreviousRelease]);
    let states = vec![
        ("a_rather_long_package_name_that_fills_the_column".to_string(), first),
        ("b".to_string(), second),
    ];
    let report = CrateState::format_crates_states(&states, "ALL CRATES", true, true, true);
    let expected = format!(
        "\n{dashes}\nALL CRATES\nShowing states: Blocking Flags Meta\n\
         {dashes}\na_rather_long_package_name_that_fills_the_column[MissingChangelog, MissingReadme]\n\
         {indent}[Matched, MissingChangelog, MissingReadme]\n\
         {indent}[Blocked, Changed, Selected]\n\
         {dashes}\nb{pad}[]\n\
         {indent}[HasPreviousRelease]\n\
         {indent}[Allowed]\n",
        dashes = "-".repeat(80),
        pad = " ".repeat(29),
        indent = " ".repeat(30),
    );
    assert_eq!(report, expected);
}

#[test]
fn report_that_shows_nothing() {
    let report = CrateState::format_crates_states(
        &vec![("b".to_string(), state_of(&[Matched]))],
        "TITLE",
        false,
        false,
        false,
    );
    let expected = format!("\n{dashes}\nTITLE\n{dashes}\nb{pad}\n", dashes = "-".repeat(80), pad = " ".repeat(29));
    assert_eq!(report, expected);
    let empty = CrateState::format_crates_states(&vec![], "TITLE", false, true, false);
    assert_eq!(empty, format!("\n{}\nTITLE\nShowing states: Flags \n", "-".repeat(80)));
}
