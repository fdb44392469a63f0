//! The errors that end a selection.

use vstd::prelude::*;

verus! {

/// Why a selection ended without a result.
#[derive(Clone, Debug, PartialEq, Eq)]
pub enum SelectionError {
    /// The packages do not make up a workspace: the name of the member at
    /// this place is empty, or an earlier member has it already.
    WorkspaceLoad { member: usize },
    /// A package reaches itself by path dependencies: `from` does so
    /// through `to`, which declares the dependency on `from`.
    DependencyCycle { from: String, to: String },
    /// A package that the release needs is blocked and not forgiven; the
    /// report lists each such package with what blocks it.
    BlockedReleaseRequired { report: String },
    /// The version control tool failed; the exit code, if there was one.
    VersionControl { exit_code: Option<i32> },
    /// The selection filter is no regular expression, or it could not be
    /// evaluated on a name.
    SelectionFilter,
    /// A version or a version requirement could not be read.
    VersionRequirement,
    /// The head of the repository points to no branch.
    MissingBranch,
    /// A reference of the repository that is needed has no name.
    MissingReference,
}

/// What an error says, with texts in place of strings.
pub enum ErrorView {
    /// See `SelectionError::WorkspaceLoad`.
    WorkspaceLoad { member: usize },
    /// See `SelectionError::DependencyCycle`.
    DependencyCycle { from: Seq<char>, to: Seq<char> },
    /// See `SelectionError::BlockedReleaseRequired`.
    BlockedReleaseRequired { report: Seq<char> },
    /// See `SelectionError::VersionControl`.
    VersionControl { exit_code: Option<i32> },
    /// See `SelectionError::SelectionFilter`.
    SelectionFilter,
    /// See `SelectionError::VersionRequirement`.
    VersionRequirement,
    /// See `SelectionError::MissingBranch`.
    MissingBranch,
    /// See `SelectionError::MissingReference`.
    MissingReference,
}

impl View for SelectionError {
    type V = ErrorView;

    open spec fn view(&self) -> ErrorView {
        match *self {
            SelectionError::WorkspaceLoad { member } => ErrorView::WorkspaceLoad { member },
            SelectionError::DependencyCycle { from, to } => ErrorView::DependencyCycle {
                from: from@,
                to: to@,
            },
            SelectionError::BlockedReleaseRequired { report } => ErrorView::BlockedReleaseRequired {
                report: report@,
            },
            SelectionError::VersionControl { exit_code } => ErrorView::VersionControl { exit_code },
            SelectionError::SelectionFilter => ErrorView::SelectionFilter,
            SelectionError::VersionRequirement => ErrorView::VersionRequirement,
            SelectionError::MissingBranch => ErrorView::MissingBranch,
            SelectionError::MissingReference => ErrorView::MissingReference,
        }
    }
}

} // verus!
