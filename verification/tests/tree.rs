use herdr_scm::model::{FileEntry, GroupKind, RepoEntry, RepoKind, StatusGroup};
use herdr_scm::tree::{RowId, Tree};

fn repo(name: &str, groups: &[(GroupKind, &[&str])]) -> RepoEntry {
    RepoEntry {
        path: format!("/w/{name}"),
        display_name: name.to_string(),
        rel_path: name.to_string(),
        kind: RepoKind::Nested,
        groups: groups
            .iter()
            .map(|(kind, files)| StatusGroup {
                kind: *kind,
                files: files
                    .iter()
                    .map(|p| FileEntry {
                        path: p.to_string(),
                        status: 'M',
                        orig_path: None,
                    })
                    .collect(),
            })
            .collect(),
        ..RepoEntry::blank()
    }
}

/// A two-repo tree: `a` has Changes[x.rs, y.rs], `b` has Untracked[z.rs].
fn fixture() -> Vec<RepoEntry> {
    vec![
        repo("a", &[(GroupKind::Changes, &["x.rs", "y.rs"])]),
        repo("b", &[(GroupKind::Untracked, &["z.rs"])]),
    ]
}

fn built(repos: &[RepoEntry]) -> Tree {
    let mut tree = Tree::new();
    tree.rebuild(repos);
    tree
}

/// A compact, readable rendering of the flattened rows: `depth:label`.
fn shape(tree: &Tree) -> Vec<String> {
    tree.rows()
        .iter()
        .map(|r| {
            let label = match &r.id {
                RowId::Repo { repo } => repo.clone(),
                RowId::Group { group, .. } => group.title().to_string(),
                RowId::File { path, .. } => path.clone(),
            };
            format!("{}:{}", r.depth, label)
        })
        .collect()
}

// ---- flattening ----------------------------------------------------------------------

#[test]
fn everything_is_expanded_on_a_first_build() {
    assert_eq!(
        shape(&built(&fixture())),
        vec![
            "0:/w/a",
            "1:Changes",
            "2:x.rs",
            "2:y.rs",
            "0:/w/b",
            "1:Untracked",
            "2:z.rs",
        ]
    );
}

#[test]
fn a_clean_repo_contributes_only_its_own_row() {
    assert_eq!(shape(&built(&[repo("clean", &[])])), vec!["0:/w/clean"]);
}

#[test]
fn an_empty_repo_list_yields_no_rows_and_no_selection() {
    let tree = built(&[]);
    assert!(tree.rows().is_empty());
    assert!(tree.selected().is_none());
    assert!(tree.selected_file().is_none());
}

#[test]
fn each_row_carries_the_indices_needed_to_reach_its_model_data() {
    let repos = fixture();
    let tree = built(&repos);
    let file_row = tree
        .rows()
        .iter()
        .find(|r| matches!(&r.id, RowId::File { path, .. } if path == "z.rs"))
        .expect("z.rs row");
    assert_eq!(file_row.repo_idx, 1);
    assert_eq!(
        repos[file_row.repo_idx].groups[file_row.group_idx.unwrap()].files
            [file_row.file_idx.unwrap()]
        .path,
        "z.rs"
    );
}

// ---- collapsing ---------------------------------------------------------------------

#[test]
fn collapsing_a_repo_hides_its_groups_and_files_but_not_the_next_repo() {
    let repos = fixture();
    let mut tree = built(&repos);
    tree.set_cursor(0);
    tree.toggle_selected(&repos);
    assert_eq!(
        shape(&tree),
        vec!["0:/w/a", "0:/w/b", "1:Untracked", "2:z.rs"]
    );
}

#[test]
fn collapsing_a_group_hides_only_that_groups_files() {
    let repos = fixture();
    let mut tree = built(&repos);
    tree.set_cursor(1);
    tree.toggle_selected(&repos);
    assert_eq!(
        shape(&tree),
        vec!["0:/w/a", "1:Changes", "0:/w/b", "1:Untracked", "2:z.rs"]
    );
}

#[test]
fn toggling_a_file_row_does_nothing_because_a_file_has_no_children() {
    let repos = fixture();
    let mut tree = built(&repos);
    tree.set_cursor(2);
    let before = shape(&tree);
    tree.toggle_selected(&repos);
    assert_eq!(shape(&tree), before);
}

#[test]
fn collapse_all_leaves_only_the_repo_rows_and_expand_all_restores_everything() {
    let repos = fixture();
    let mut tree = built(&repos);
    tree.set_all_collapsed(true, &repos);
    assert_eq!(shape(&tree), vec!["0:/w/a", "0:/w/b"]);
    assert!(tree.all_collapsed(&repos));
    tree.set_all_collapsed(false, &repos);
    assert_eq!(shape(&tree).len(), 7);
    assert!(!tree.all_collapsed(&repos));
}

// ---- cursor -------------------------------------------------------------------------

#[test]
fn the_cursor_clamps_at_both_ends_instead_of_wrapping() {
    let repos = fixture();
    let mut tree = built(&repos);
    tree.move_cursor(-5);
    assert_eq!(tree.cursor(), 0);
    tree.move_cursor(100);
    assert_eq!(tree.cursor(), 6);
}

#[test]
fn setting_the_cursor_past_the_end_clamps_to_the_last_row() {
    let repos = fixture();
    let mut tree = built(&repos);
    tree.set_cursor(999);
    assert_eq!(tree.cursor(), 6);
}

// ---- identity-based state preservation ---------------------------------

#[test]
fn a_background_refresh_that_shifts_rows_keeps_the_cursor_on_the_same_file() {
    let mut repos = fixture();
    let mut tree = built(&repos);
    tree.set_cursor(6);
    assert!(
        matches!(tree.selected().map(|r| &r.id), Some(RowId::File { path, .. }) if path == "z.rs")
    );

    repos[0].groups[0].files.insert(
        0,
        FileEntry {
            path: "aaa.rs".to_string(),
            status: 'M',
            orig_path: None,
        },
    );
    tree.rebuild(&repos);

    assert_eq!(tree.cursor(), 7);
    assert!(
        matches!(tree.selected().map(|r| &r.id), Some(RowId::File { path, .. }) if path == "z.rs")
    );
}

#[test]
fn a_refresh_preserves_which_repos_and_groups_were_collapsed() {
    let repos = fixture();
    let mut tree = built(&repos);
    tree.set_cursor(0);
    tree.toggle_selected(&repos);
    tree.rebuild(&repos);
    assert_eq!(
        shape(&tree),
        vec!["0:/w/a", "0:/w/b", "1:Untracked", "2:z.rs"]
    );
}

#[test]
fn when_the_selected_row_disappears_the_cursor_falls_back_to_the_nearest_index() {
    let repos = fixture();
    let mut tree = built(&repos);
    tree.set_cursor(6);
    tree.rebuild(&[repos[0].clone()]);
    assert_eq!(tree.cursor(), 3);
    assert!(tree.selected().is_some());
}

#[test]
fn collapsed_state_for_a_repo_that_vanished_does_not_leak_onto_a_later_repo() {
    let repos = fixture();
    let mut tree = built(&repos);
    tree.set_cursor(0);
    tree.toggle_selected(&repos);
    let others = vec![repo("c", &[(GroupKind::Changes, &["q.rs"])])];
    tree.rebuild(&others);
    assert_eq!(shape(&tree), vec!["0:/w/c", "1:Changes", "2:q.rs"]);
}

// ---- cross-repo jumping-------------------------------------------------

#[test]
fn next_change_walks_every_file_across_every_repo_and_wraps() {
    let repos = fixture();
    let mut tree = built(&repos);
    tree.set_cursor(0);
    let mut visited = Vec::new();
    for _ in 0..4 {
        tree.next_file(&repos);
        if let Some(RowId::File { path, .. }) = tree.selected().map(|r| r.id.clone()) {
            visited.push(path);
        }
    }
    assert_eq!(visited, vec!["x.rs", "y.rs", "z.rs", "x.rs"]);
}

#[test]
fn prev_change_walks_backwards_across_repos_and_wraps() {
    let repos = fixture();
    let mut tree = built(&repos);
    tree.set_cursor(0);
    let mut visited = Vec::new();
    for _ in 0..3 {
        tree.prev_file(&repos);
        if let Some(RowId::File { path, .. }) = tree.selected().map(|r| r.id.clone()) {
            visited.push(path);
        }
    }
    assert_eq!(visited, vec!["z.rs", "y.rs", "x.rs"]);
}

#[test]
fn jumping_to_a_change_expands_whatever_was_hiding_it() {
    let repos = fixture();
    let mut tree = built(&repos);
    tree.set_all_collapsed(true, &repos);
    tree.next_file(&repos);
    assert!(
        matches!(tree.selected().map(|r| &r.id), Some(RowId::File { path, .. }) if path == "x.rs"),
        "{:?}",
        shape(&tree)
    );
}

#[test]
fn jumping_in_a_tree_with_no_files_at_all_is_a_no_op() {
    let repos = vec![repo("clean", &[])];
    let mut tree = built(&repos);
    tree.next_file(&repos);
    tree.prev_file(&repos);
    assert_eq!(tree.cursor(), 0);
}

// ---- the diff target ------------------------------------------------------------------

#[test]
fn the_selected_file_reports_its_repo_group_and_path() {
    let repos = fixture();
    let mut tree = built(&repos);
    tree.set_cursor(6);
    assert_eq!(
        tree.selected_file(),
        Some((
            "/w/b".to_string(),
            GroupKind::Untracked,
            "z.rs".to_string()
        ))
    );
}

#[test]
fn a_repo_or_group_row_is_not_a_diff_target() {
    let repos = fixture();
    let mut tree = built(&repos);
    tree.set_cursor(0);
    assert!(tree.selected_file().is_none());
    tree.set_cursor(1);
    assert!(tree.selected_file().is_none());
}

#[test]
fn the_same_path_in_two_groups_is_two_distinct_rows_with_distinct_diff_targets() {
    let repos = vec![repo(
        "a",
        &[
            (GroupKind::Staged, &["dual.rs"]),
            (GroupKind::Changes, &["dual.rs"]),
        ],
    )];
    let mut tree = built(&repos);
    tree.set_cursor(2);
    let staged = tree.selected_file();
    tree.set_cursor(4);
    let changes = tree.selected_file();
    assert_eq!(staged.as_ref().map(|t| t.1), Some(GroupKind::Staged));
    assert_eq!(changes.as_ref().map(|t| t.1), Some(GroupKind::Changes));
    assert_ne!(staged, changes);
}

#[test]
fn a_repo_spelled_with_a_trailing_slash_is_the_same_row_after_a_refresh() {
    let mut tree = built(&fixture());
    tree.set_cursor(3);
    let before = tree.selected().map(|r| r.id.clone());
    let mut respelled = fixture();
    respelled[0].path = "/w/a/".to_string();
    tree.rebuild(&respelled);
    assert_eq!(tree.cursor(), 3);
    assert_eq!(tree.selected().map(|r| r.id.clone()), before);
    assert_eq!(
        tree.selected().map(|r| r.id.clone()),
        Some(RowId::File { repo: "/w/a".to_string(), group: GroupKind::Changes, path: "y.rs".to_string() })
    );
}
