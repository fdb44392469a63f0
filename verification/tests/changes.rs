use crate_selection::changes::{changed_files, diff_arguments, join_path};
use crate_selection::error::SelectionError;
use crate_selection::package::DiffOutput;
use crate_selection::states::release_tag;
use crate_selection::version_control::{
    git_head_branch, git_head_branch_name, git_tag_message, Branch,
};

fn diff(exit_code: Option<i32>, stdout: &[u8]) -> DiffOutput {
    DiffOutput { exit_code, stdout: stdout.to_vec() }
}

#[test]
fn no_differences() {
    assert_eq!(changed_files("/ws/a", &diff(Some(0), b"")), Ok(vec![]));
    // what was written is not read where the exit code says that nothing differs
    assert_eq!(changed_files("/ws/a", &diff(Some(0), b"src/lib.rs\n")), Ok(vec![]));
}

#[test]
fn differences_are_listed_below_the_directory() {
    assert_eq!(
        changed_files("/ws/a", &diff(Some(1), b"src/lib.rs\nCargo.toml\n")),
        Ok(vec!["/ws/a/src/lib.rs".to_string(), "/ws/a/Cargo.toml".to_string()])
    );
    assert_eq!(changed_files("/ws/a", &diff(Some(1), b"")), Ok(vec![]));
}

#[test]
fn lines_end_with_line_feed_or_carriage_return_and_line_feed() {
    assert_eq!(
        changed_files("d", &diff(Some(1), b"one\r\ntwo\n\nthree")),
        Ok(vec!["d/one".to_string(), "d/two".to_string(), "d/".to_string(), "d/three".to_string()])
    );
    // a carriage return at the end of the last line stays where no line feed follows
    assert_eq!(changed_files("d", &diff(Some(1), b"one\r")), Ok(vec!["d/one\r".to_string()]));
    assert_eq!(changed_files("d", &diff(Some(1), b"\r\r\n")), Ok(vec!["d/\r".to_string()]));
    assert_eq!(changed_files("d", &diff(Some(1), b"\n")), Ok(vec!["d/".to_string()]));
}

#[test]
fn invalid_text_is_replaced() {
    assert_eq!(
        changed_files("d", &diff(Some(1), b"a\xffb\n")),
        Ok(vec!["d/a\u{fffd}b".to_string()])
    );
    assert_eq!(
        changed_files("d", &diff(Some(1), "gr\u{fc}n.rs\n".as_bytes())),
        Ok(vec!["d/gr\u{fc}n.rs".to_string()])
    );
}

#[test]
fn other_exit_codes_are_errors() {
    assert_eq!(
        changed_files("/ws/a", &diff(Some(128), b"src/lib.rs\n")),
        Err(SelectionError::VersionControl { exit_code: Some(128) })
    );
    assert_eq!(
        changed_files("/ws/a", &diff(Some(-1), b"")),
        Err(SelectionError::VersionControl { exit_code: Some(-1) })
    );
    assert_eq!(
        changed_files("/ws/a", &diff(None, b"")),
        Err(SelectionError::VersionControl { exit_code: None })
    );
}

#[test]
fn joining_paths() {
    assert_eq!(join_path("/ws/a", "src/lib.rs"), "/ws/a/src/lib.rs");
    assert_eq!(join_path("/ws/a/", "src/lib.rs"), "/ws/a/src/lib.rs");
    assert_eq!(join_path("/ws/a", "/etc/passwd"), "/etc/passwd");
    assert_eq!(join_path("", "src/lib.rs"), "src/lib.rs");
    assert_eq!(join_path("/ws/a", ""), "/ws/a/");
    assert_eq!(join_path("/", "a"), "/a");
    assert_eq!(join_path("/ws/\u{e4}", "\u{f6}"), "/ws/\u{e4}/\u{f6}");
}

#[test]
fn arguments_of_the_diff() {
    assert_eq!(
        diff_arguments("a-v0.2.0", "HEAD"),
        vec!["diff", "a-v0.2.0..HEAD", "--name-only", "--exit-code", "."]
    );
}

#[test]
fn release_tag_names() {
    assert_eq!(release_tag("a", "0.2.0"), "a-v0.2.0");
    assert_eq!(release_tag("some_package", "0.0.2-alpha.1"), "some_package-v0.0.2-alpha.1");
    assert_eq!(release_tag("", ""), "-v");
}

#[test]
fn head_branch() {
    let branch = |name: Option<&str>, is_head: bool| Branch { name: name.map(String::from), is_head };
    let branches = vec![branch(Some("develop"), false), branch(Some("main"), true), branch(Some("x"), true)];
    assert_eq!(git_head_branch(&branches), Ok(1));
    assert_eq!(git_head_branch_name(&branches), Ok("main".to_string()));
    let none = vec![branch(Some("develop"), false)];
    assert_eq!(git_head_branch(&none), Err(SelectionError::MissingBranch));
    assert_eq!(git_head_branch_name(&none), Err(SelectionError::MissingBranch));
    assert_eq!(git_head_branch(&vec![]), Err(SelectionError::MissingBranch));
    let nameless = vec![branch(None, true), branch(Some("main"), true)];
    assert_eq!(git_head_branch(&nameless), Ok(0));
    assert_eq!(git_head_branch_name(&nameless), Err(SelectionError::MissingReference));
}

#[test]
fn tag_message() {
    assert_eq!(git_tag_message("a-v0.2.0"), "tag for release a-v0.2.0");
}
