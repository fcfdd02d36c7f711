use herdr_scm::git::{diff_args, short_sha, status_args, status_entry, GitError};
use herdr_scm::model::{GroupKind, RepoKind, RepoRoot};

#[test]
fn the_status_query_asks_for_porcelain_v2_nul_separated_with_branch_and_all_untracked() {
    assert_eq!(
        status_args(),
        ["status", "--porcelain=v2", "-z", "--branch", "--untracked-files=all"]
    );
}

#[test]
fn the_staged_diff_is_index_versus_head() {
    assert_eq!(
        diff_args(GroupKind::Staged, "src/app.rs").unwrap(),
        ["diff", "--cached", "--no-color", "--no-ext-diff", "--no-textconv", "--", "src/app.rs"]
    );
}

#[test]
fn the_changes_diff_is_worktree_versus_index() {
    assert_eq!(
        diff_args(GroupKind::Changes, "src/app.rs").unwrap(),
        ["diff", "--no-color", "--no-ext-diff", "--no-textconv", "--", "src/app.rs"]
    );
}

#[test]
fn an_untracked_file_has_no_git_diff_at_all() {
    assert!(diff_args(GroupKind::Untracked, "new.rs").is_none());
}

#[test]
fn a_path_that_looks_like_an_option_is_still_safe_because_it_follows_the_double_dash() {
    let args = diff_args(GroupKind::Changes, "--upload-pack=evil").unwrap();
    let dashdash = args.iter().position(|a| a == "--").expect("-- present");
    assert_eq!(args[dashdash + 1], "--upload-pack=evil");
}

#[test]
fn external_diff_and_textconv_are_disabled_on_every_diff() {
    for group in [GroupKind::Staged, GroupKind::Changes] {
        let args = diff_args(group, "f").unwrap();
        assert!(args.iter().any(|a| a == "--no-ext-diff"), "{group:?}");
        assert!(args.iter().any(|a| a == "--no-textconv"), "{group:?}");
    }
}

#[test]
fn a_short_sha_is_seven_characters_and_shorter_input_is_returned_whole() {
    assert_eq!(short_sha("1234567890abcdef"), "1234567");
    assert_eq!(short_sha("abc"), "abc");
    assert_eq!(short_sha(""), "");
}

#[test]
fn git_errors_render_as_short_single_line_messages() {
    assert_eq!(GitError::Timeout.message(), "git timed out");
    assert!(GitError::Failed("fatal: bad".to_string()).message().contains("fatal: bad"));
    assert!(!GitError::Spawn("no such file".to_string()).message().contains('\n'));
}

#[test]
fn a_multi_line_git_error_is_collapsed_to_its_first_line_for_the_repo_row() {
    let e = GitError::Failed("fatal: not a git repository\nsecond line\nthird".to_string());
    assert_eq!(e.message(), "fatal: not a git repository");
}

fn root() -> RepoRoot {
    RepoRoot {
        path: "/w/repo".to_string(),
        scan_root: "/w".to_string(),
        kind: RepoKind::Nested,
    }
}

#[test]
fn a_spawn_failure_is_prefixed_and_other_errors_have_fixed_texts() {
    assert_eq!(
        GitError::Spawn("no such file\nmore".to_string()).message(),
        "could not run git: no such file"
    );
    assert_eq!(GitError::NotApplicable.message(), "no diff for this entry");
}

#[test]
fn a_timed_out_status_query_marks_the_row_stale_without_an_error() {
    let e = status_entry(&root(), Err(GitError::Timeout));
    assert!(e.stale);
    assert_eq!(e.error, None);
    assert_eq!(e.display_name, "repo");
    assert_eq!(e.rel_path, "repo");
    assert!(e.groups.is_empty());
}

#[test]
fn a_failed_status_query_puts_its_first_line_on_the_row() {
    let e = status_entry(&root(), Err(GitError::Failed("fatal: x\ny".to_string())));
    assert!(!e.stale);
    assert_eq!(e.error.as_deref(), Some("fatal: x"));
    assert_eq!(e.branch, None);
}

#[test]
fn a_status_query_that_succeeds_fills_branch_sync_and_groups() {
    let out = b"# branch.oid 1234567890abcdef\0# branch.head main\0# branch.ab +2 -1\01 .M N... 100644 100644 100644 aaa bbb src/a.rs\0? new.rs\0";
    let e = status_entry(&root(), Ok(out.to_vec()));
    assert_eq!(e.branch.as_deref(), Some("main"));
    assert_eq!(e.ahead, Some(2));
    assert_eq!(e.behind, Some(1));
    assert_eq!(e.error, None);
    assert_eq!(e.groups.len(), 2);
    assert_eq!(e.groups[0].kind, GroupKind::Changes);
    assert_eq!(e.groups[0].files[0].path, "src/a.rs");
    assert_eq!(e.groups[1].kind, GroupKind::Untracked);
}

#[test]
fn a_detached_head_shows_the_short_oid() {
    let out = b"# branch.oid 1234567890abcdef\0# branch.head (detached)\0";
    let e = status_entry(&root(), Ok(out.to_vec()));
    assert_eq!(e.branch.as_deref(), Some("1234567"));
}
