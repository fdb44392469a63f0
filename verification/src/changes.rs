//! Detection of the files of a package that changed between two revisions,
//! from what the version control tool answered.

use vstd::prelude::*;
use vstd::string::{StrSliceExecFns, StringExecFns};
use bstr::ByteSlice;
use crate::error::{ErrorView, SelectionError};
use crate::package::DiffOutput;

verus! {

/// The place of the first line feed in `bytes` from `from` on, or the
/// length of `bytes` where there is none.
pub open spec fn line_end(bytes: Seq<u8>, from: nat) -> nat
    decreases bytes.len() - from,
{
    if from >= bytes.len() {
        bytes.len()
    } else if bytes[from as int] == 10 {
        from
    } else {
        line_end(bytes, from + 1)
    }
}

/// The line without the carriage return at its end, if it has one.
pub open spec fn without_carriage_return(line: Seq<u8>) -> Seq<u8> {
    if line.len() > 0 && line.last() == 13 {
        line.drop_last()
    } else {
        line
    }
}

/// The lines of `bytes`, without their terminators. A line ends with a
/// line feed, or with a carriage return and a line feed; the last line
/// may go without, and is then taken as it is.
pub open spec fn lines_of(bytes: Seq<u8>) -> Seq<Seq<u8>>
    decreases bytes.len(),
{
    if bytes.len() == 0 {
        Seq::empty()
    } else {
        let end = line_end(bytes, 0);
        if end >= bytes.len() {
            seq![bytes]
        } else {
            seq![without_carriage_return(bytes.subrange(0, end as int))] + lines_of(
                bytes.subrange((end + 1) as int, bytes.len() as int),
            )
        }
    }
}

/// The text that `bytes` stand for in UTF-8, with a replacement character
/// for what is not valid.
pub uninterp spec fn lossy_text(bytes: Seq<u8>) -> Seq<char>;

/// Calls `bstr::ByteSlice::lines`: the lines of `bytes`, without their
/// terminators, each as a vector of its own.
#[verifier::external_body]
pub(crate) fn split_lines(bytes: &[u8]) -> (lines: Vec<Vec<u8>>)
    ensures
        lines@.len() == lines_of(bytes@).len(),
        forall|i: int| 0 <= i < lines@.len() ==> (#[trigger] lines@[i])@ == lines_of(bytes@)[i],
{
    bytes.lines().map(|line| line.to_vec()).collect()
}

/// Calls `bstr::ByteSlice::to_str_lossy`: the text that `bytes` stand
/// for.
#[verifier::external_body]
pub(crate) fn text_of(bytes: &[u8]) -> (text: String)
    ensures
        text@ == lossy_text(bytes@),
{
    bytes.to_str_lossy().into_owned()
}

/// The path of `file` below the directory `directory`. Paths are texts
/// whose parts a slash separates: a file that begins with a slash stands
/// for itself, and no second slash is put behind a directory that ends
/// with one.
pub open spec fn joined_path(directory: Seq<char>, file: Seq<char>) -> Seq<char> {
    if file.len() > 0 && file[0] == '/' {
        file
    } else if directory.len() == 0 || directory.last() == '/' {
        directory + file
    } else {
        directory + seq!['/'] + file
    }
}

/// The path of `file` below the directory `directory`.
pub fn join_path(directory: &str, file: &str) -> (path: String)
    ensures
        path@ == joined_path(directory@, file@),
{
    let file_len = file.unicode_len();
    if file_len > 0 && file.get_char(0) == '/' {
        return String::from_str(file);
    }
    let directory_len = directory.unicode_len();
    let mut path = String::from_str(directory);
    if directory_len > 0 && directory.get_char(directory_len - 1) != '/' {
        proof {
            reveal_strlit("/");
            assert("/"@ =~= seq!['/']);
        }
        path.append("/");
    }
    path.append(file);
    path
}

/// The paths of the files that the tool's answer names, each below
/// `directory`; `Err` with the exit code where the tool failed. Exit code
/// 0 says that nothing differs, exit code 1 that the files named on its
/// standard output differ, one on each line.
pub open spec fn changed_paths(directory: Seq<char>, diff: DiffOutput) -> Result<
    Seq<Seq<char>>,
    Option<i32>,
> {
    if diff.exit_code == Some(0i32) {
        Ok(Seq::empty())
    } else if diff.exit_code == Some(1i32) {
        Ok(
            Seq::new(
                lines_of(diff.stdout@).len(),
                |i: int| joined_path(directory, lossy_text(lines_of(diff.stdout@)[i])),
            ),
        )
    } else {
        Err(diff.exit_code)
    }
}

/// The arguments with which the version control tool is to be called, in
/// the directory of a package, to learn which files of it differ between
/// two revisions.
pub fn diff_arguments(from_rev: &str, to_rev: &str) -> (arguments: Vec<String>)
    ensures
        arguments@.len() == 5,
        arguments@[0]@ == "diff"@,
        arguments@[1]@ == from_rev@ + ".."@ + to_rev@,
        arguments@[2]@ == "--name-only"@,
        arguments@[3]@ == "--exit-code"@,
        arguments@[4]@ == "."@,
{
    let mut range = String::from_str(from_rev);
    range.append("..");
    range.append(to_rev);
    let mut arguments: Vec<String> = Vec::new();
    arguments.push(String::from_str("diff"));
    arguments.push(range);
    arguments.push(String::from_str("--name-only"));
    arguments.push(String::from_str("--exit-code"));
    arguments.push(String::from_str("."));
    arguments
}

/// The files of the package in `directory` that changed, from what the
/// version control tool answered when it was called there with
/// `diff_arguments`.
pub fn changed_files(directory: &str, diff: &DiffOutput) -> (r: Result<Vec<String>, SelectionError>)
    ensures
        match r {
            Ok(paths) => match changed_paths(directory@, *diff) {
                Ok(expected) => paths@.len() == expected.len() && forall|i: int|
                    0 <= i < expected.len() ==> (#[trigger] paths@[i])@ == expected[i],
                Err(_) => false,
            },
            Err(error) => match changed_paths(directory@, *diff) {
                Ok(_) => false,
                Err(code) => error@ == ErrorView::VersionControl { exit_code: code },
            },
        },
{
    match diff.exit_code {
        Some(0) => Ok(Vec::new()),
        Some(1) => {
            let lines = split_lines(diff.stdout.as_slice());
            let mut paths: Vec<String> = Vec::new();
            let mut i: usize = 0;
            while i < lines.len()
                invariant
                    i <= lines.len(),
                    lines@.len() == lines_of(diff.stdout@).len(),
                    forall|k: int|
                        0 <= k < lines@.len() ==> (#[trigger] lines@[k])@ == lines_of(
                            diff.stdout@,
                        )[k],
                    paths@.len() == i,
                    forall|k: int|
                        0 <= k < i ==> (#[trigger] paths@[k])@ == joined_path(
                            directory@,
                            lossy_text(lines_of(diff.stdout@)[k]),
                        ),
                decreases lines.len() - i,
            {
                let file = text_of(lines[i].as_slice());
                paths.push(join_path(directory, file.as_str()));
                i += 1;
            }
            Ok(paths)
        },
        code => Err(SelectionError::VersionControl { exit_code: code }),
    }
}

} // verus!
