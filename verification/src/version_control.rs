//! What the selection decides about branches and tags of the repository,
//! from what was read of them.

use vstd::prelude::*;
use vstd::string::StringExecFns;
use crate::error::{ErrorView, SelectionError};

verus! {

/// A branch of the repository, as far as it is read.
#[derive(Clone, Debug, PartialEq, Eq)]
pub struct Branch {
    /// The name of the branch, if it has one.
    pub name: Option<String>,
    /// Whether the head of the repository points to the branch.
    pub is_head: bool,
}

/// The place of the first branch from `from` on to which the head points.
pub open spec fn head_from(branches: Seq<Branch>, from: int) -> Option<int>
    decreases branches.len() - from,
{
    if from < 0 || from >= branches.len() {
        None
    } else if branches[from].is_head {
        Some(from)
    } else {
        head_from(branches, from + 1)
    }
}

/// The branch to which the head of the repository points: the first such
/// branch, or an error where the head points to none.
pub fn git_head_branch(branches: &Vec<Branch>) -> (r: Result<usize, SelectionError>)
    ensures
        match r {
            Ok(at) => head_from(branches@, 0) == Some(at as int) && at < branches@.len(),
            Err(error) => head_from(branches@, 0) is None && error@ == ErrorView::MissingBranch,
        },
{
    let mut i: usize = 0;
    while i < branches.len()
        invariant
            i <= branches.len(),
            head_from(branches@, 0) == head_from(branches@, i as int),
        decreases branches.len() - i,
    {
        if branches[i].is_head {
            return Ok(i);
        }
        i += 1;
    }
    Err(SelectionError::MissingBranch)
}

/// The name of the branch to which the head of the repository points; an
/// error where the head points to no branch, or to one without a name.
pub fn git_head_branch_name(branches: &Vec<Branch>) -> (r: Result<String, SelectionError>)
    ensures
        match r {
            Ok(name) => head_from(branches@, 0) matches Some(at) && branches@[at].name
                matches Some(found) && name@ == found@,
            Err(error) => match head_from(branches@, 0) {
                None => error@ == ErrorView::MissingBranch,
                Some(at) => branches@[at].name is None && error@ == ErrorView::MissingReference,
            },
        },
{
    match git_head_branch(branches) {
        Err(error) => Err(error),
        Ok(at) => match &branches[at].name {
            Some(name) => Ok(name.clone()),
            None => Err(SelectionError::MissingReference),
        },
    }
}

/// The message of the tag that marks a release.
pub fn git_tag_message(name: &str) -> (message: String)
    ensures
        message@ == "tag for release "@ + name@,
{
    let mut message = String::from_str("tag for release ");
    message.append(name);
    message
}

} // verus!
