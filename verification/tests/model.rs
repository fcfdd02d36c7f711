use herdr_scm::model::{FileEntry, GroupKind, RepoEntry, RepoKind, RepoRoot, StatusGroup};

fn file(path: &str, status: char) -> FileEntry {
    FileEntry {
        path: path.to_string(),
        status,
        orig_path: None,
    }
}

#[test]
fn dirty_count_sums_every_group() {
    let repo = RepoEntry {
        groups: vec![
            StatusGroup {
                kind: GroupKind::Staged,
                files: vec![file("a.rs", 'M')],
            },
            StatusGroup {
                kind: GroupKind::Changes,
                files: vec![file("a.rs", 'M'), file("b.rs", 'D')],
            },
            StatusGroup {
                kind: GroupKind::Untracked,
                files: vec![file("c.rs", '?')],
            },
        ],
        ..RepoEntry::blank()
    };
    assert_eq!(repo.dirty_count(), 4);
}

#[test]
fn dirty_count_of_a_clean_repo_is_zero() {
    assert_eq!(RepoEntry::blank().dirty_count(), 0);
}

#[test]
fn from_root_takes_the_directory_name_and_the_relative_path() {
    let root = RepoRoot {
        path: "/w/teleagent/pencil".to_string(),
        scan_root: "/w/teleagent".to_string(),
        kind: RepoKind::Nested,
    };
    let entry = RepoEntry::from_root(&root);
    assert_eq!(entry.display_name, "pencil");
    assert_eq!(entry.rel_path, "pencil");
    assert_eq!(entry.kind, RepoKind::Nested);
    assert_eq!(entry.path, "/w/teleagent/pencil");
}

#[test]
fn from_root_leaves_the_scan_root_itself_with_an_empty_relative_path() {
    let root = RepoRoot {
        path: "/w/teleagent".to_string(),
        scan_root: "/w/teleagent".to_string(),
        kind: RepoKind::Root,
    };
    assert_eq!(RepoEntry::from_root(&root).rel_path, "");
}

#[test]
fn group_titles_match_the_spec_labels() {
    assert_eq!(GroupKind::Staged.title(), "Staged");
    assert_eq!(GroupKind::Changes.title(), "Changes");
    assert_eq!(GroupKind::Untracked.title(), "Untracked");
}

#[test]
fn repo_kind_labels_are_the_lowercase_spec_markers() {
    assert_eq!(RepoKind::Root.label(), "root");
    assert_eq!(RepoKind::Submodule.label(), "submodule");
    assert_eq!(RepoKind::Worktree.label(), "worktree");
    assert_eq!(RepoKind::Nested.label(), "nested");
}

#[test]
fn a_blank_entry_has_no_sync_no_error_and_is_not_stale() {
    let e = RepoEntry::blank();
    assert_eq!(e.ahead, None);
    assert_eq!(e.behind, None);
    assert_eq!(e.error, None);
    assert!(!e.stale);
    assert!(e.groups.is_empty());
}
