use herdr_scm::model::{FileEntry, GroupKind};
use herdr_scm::porcelain::parse;



/// Build a `-z` porcelain v2 stream: every record NUL-terminated, exactly as git emits it.
fn z(records: &[&str]) -> Vec<u8> {
    let mut out = Vec::new();
    for r in records {
        out.extend_from_slice(r.as_bytes());
        out.push(0);
    }
    out
}

fn paths(files: &[FileEntry]) -> Vec<&str> {
    files.iter().map(|f| f.path.as_str()).collect()
}

// ---- headers ---------------------------------------------------------------------------

#[test]
fn branch_headers_are_read() {
    let s = parse(&z(&[
        "# branch.oid 1234567890abcdef1234567890abcdef12345678",
        "# branch.head master",
        "# branch.upstream origin/master",
        "# branch.ab +6 -1",
    ]));
    assert_eq!(s.head.as_deref(), Some("master"));
    assert_eq!(
        s.oid.as_deref(),
        Some("1234567890abcdef1234567890abcdef12345678")
    );
    assert_eq!(s.upstream.as_deref(), Some("origin/master"));
    assert_eq!(s.ahead, Some(6));
    assert_eq!(s.behind, Some(1));
}

#[test]
fn a_detached_head_reports_no_branch_but_keeps_the_oid() {
    let s = parse(&z(&[
        "# branch.oid deadbeefdeadbeefdeadbeef",
        "# branch.head (detached)",
    ]));
    assert_eq!(s.head, None);
    assert_eq!(s.oid.as_deref(), Some("deadbeefdeadbeefdeadbeef"));
}

#[test]
fn an_initial_commit_less_repo_reports_no_oid() {
    let s = parse(&z(&["# branch.oid (initial)", "# branch.head main"]));
    assert_eq!(s.oid, None);
    assert_eq!(s.head.as_deref(), Some("main"));
}

#[test]
fn with_no_upstream_there_is_no_ab_header_and_both_counts_stay_none() {

    let s = parse(&z(&["# branch.head main"]));
    assert_eq!(s.ahead, None);
    assert_eq!(s.behind, None);
    assert_eq!(s.upstream, None);
}

#[test]
fn a_level_upstream_reports_zeroes_not_none() {
    let s = parse(&z(&["# branch.upstream origin/main", "# branch.ab +0 -0"]));
    assert_eq!(s.ahead, Some(0));
    assert_eq!(s.behind, Some(0));
}

#[test]
fn a_malformed_ab_header_is_ignored_rather_than_panicking() {
    let s = parse(&z(&["# branch.ab garbage"]));
    assert_eq!(s.ahead, None);
    assert_eq!(s.behind, None);
}

// ---- ordinary entries ---------------------------------------------------------------------

#[test]
fn the_x_column_goes_to_staged_and_the_y_column_to_changes() {

    let s = parse(&z(&["1 MM N... 100644 100644 100644 aaa bbb src/app.rs"]));
    assert_eq!(paths(&s.staged), vec!["src/app.rs"]);
    assert_eq!(s.staged[0].status, 'M');
    assert_eq!(paths(&s.changes), vec!["src/app.rs"]);
    assert_eq!(s.changes[0].status, 'M');
}

#[test]
fn a_dot_column_contributes_nothing() {
    let s = parse(&z(&[
        "1 .M N... 100644 100644 100644 aaa bbb only-worktree.rs",
        "1 A. N... 000000 100644 100644 000 bbb only-index.rs",
    ]));
    assert_eq!(paths(&s.staged), vec!["only-index.rs"]);
    assert_eq!(s.staged[0].status, 'A');
    assert_eq!(paths(&s.changes), vec!["only-worktree.rs"]);
    assert_eq!(s.changes[0].status, 'M');
}

#[test]
fn a_path_containing_spaces_survives_intact() {
    let s = parse(&z(&[
        "1 .M N... 100644 100644 100644 aaa bbb dir with spaces/a b.txt",
    ]));
    assert_eq!(paths(&s.changes), vec!["dir with spaces/a b.txt"]);
}

// ---- renames and copies ----------------------------------------------------------------

#[test]
fn a_rename_records_the_original_path_from_the_following_nul_field() {
    let s = parse(&z(&[
        "2 R. N... 100644 100644 100644 aaa bbb R100 new/name.rs",
        "old/name.rs",
    ]));
    assert_eq!(paths(&s.staged), vec!["new/name.rs"]);
    assert_eq!(s.staged[0].status, 'R');
    assert_eq!(s.staged[0].orig_path.as_deref(), Some("old/name.rs"));
}

#[test]
fn a_rename_does_not_swallow_the_record_that_follows_it() {
    let s = parse(&z(&[
        "2 R. N... 100644 100644 100644 aaa bbb R100 new.rs",
        "old.rs",
        "? untracked.rs",
    ]));
    assert_eq!(paths(&s.staged), vec!["new.rs"]);
    assert_eq!(paths(&s.untracked), vec!["untracked.rs"]);
}

#[test]
fn a_rename_with_a_worktree_modification_puts_orig_path_only_on_the_rename_row() {
    let s = parse(&z(&[
        "2 RM N... 100644 100644 100644 aaa bbb R090 new.rs",
        "old.rs",
    ]));
    assert_eq!(s.staged[0].orig_path.as_deref(), Some("old.rs"));
    assert_eq!(s.changes[0].status, 'M');
    assert_eq!(s.changes[0].orig_path, None);
}

#[test]
fn a_truncated_rename_record_missing_its_orig_field_does_not_panic() {
    let s = parse(&z(&["2 R. N... 100644 100644 100644 aaa bbb R100 new.rs"]));
    assert_eq!(paths(&s.staged), vec!["new.rs"]);
    assert_eq!(s.staged[0].orig_path, None);
}

// ---- unmerged and untracked --------------------------------------------------------------

#[test]
fn an_unmerged_entry_lands_in_changes_marked_u() {
    let s = parse(&z(&[
        "u UU N... 100644 100644 100644 100644 aaa bbb ccc conflicted.rs",
    ]));
    assert_eq!(paths(&s.changes), vec!["conflicted.rs"]);
    assert_eq!(s.changes[0].status, 'U');
    assert!(s.staged.is_empty());
}

#[test]
fn untracked_entries_are_their_own_group() {
    let s = parse(&z(&["? new-file.rs", "? dir/other.rs"]));
    assert_eq!(paths(&s.untracked), vec!["dir/other.rs", "new-file.rs"]);
    assert!(s.untracked.iter().all(|f| f.status == '?'));
}

#[test]
fn ignored_entries_are_dropped_entirely() {
    let s = parse(&z(&["! target/debug/x", "? kept.rs"]));
    assert_eq!(paths(&s.untracked), vec!["kept.rs"]);
}

// ---- robustness ----------------------------------------------------------------------------

#[test]
fn empty_and_garbage_input_yield_an_empty_status_without_panicking() {
    for input in [b"".to_vec(), z(&[""]), z(&["x", "1", "1 M", "?"])] {
        let s = parse(&input);
        assert!(s.staged.is_empty() && s.changes.is_empty() && s.untracked.is_empty());
    }
}

#[test]
fn invalid_utf8_in_a_path_is_shown_lossily_rather_than_dropping_the_row() {

    let mut bytes = b"1 .M N... 100644 100644 100644 aaa bbb bad".to_vec();
    bytes.push(0xff);
    bytes.push(0);
    assert_eq!(parse(&bytes).changes.len(), 1);
}

// ---- groups() -------------------------------------------------------------------------------

#[test]
fn groups_are_emitted_in_spec_order_and_empty_ones_are_omitted() {
    let s = parse(&z(&[
        "? u.rs",
        "1 M. N... 100644 100644 100644 aaa bbb s.rs",
    ]));
    let groups = s.groups();
    assert_eq!(
        groups.iter().map(|g| g.kind).collect::<Vec<_>>(),
        vec![GroupKind::Staged, GroupKind::Untracked]
    );
}

#[test]
fn files_within_a_group_are_sorted_by_path_so_the_tree_is_stable() {
    let s = parse(&z(&["? z.rs", "? a.rs", "? m.rs"]));
    assert_eq!(paths(&s.untracked), vec!["a.rs", "m.rs", "z.rs"]);
}

#[test]
fn a_clean_repo_has_no_groups_at_all() {
    assert!(parse(&z(&["# branch.head main"])).groups().is_empty());
}
