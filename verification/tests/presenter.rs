use herdr_scm::input::{default_bindings, registry};
use herdr_scm::model::{FileEntry, GroupKind, RepoEntry, RepoKind, StatusGroup};
use herdr_scm::presenter::{
    diff_title, empty_state_lines, file_line, group_line, help_lines, help_width, plain,
    repo_line, status_bar_line, title, window_start, windowed_rows, Segment, Window, SCROLLOFF,
};
use herdr_scm::layout::Rect;
use herdr_scm::presenter::{frame_layout, help_area, notice_row};
use herdr_scm::theme::Role;
use herdr_scm::tree::{Row, RowId, Tree};

fn entry() -> RepoEntry {
    RepoEntry {
        path: "/w/teleagent".to_string(),
        display_name: "teleagent".to_string(),
        rel_path: String::new(),
        kind: RepoKind::Root,
        branch: Some("master".to_string()),
        ahead: Some(6),
        behind: Some(1),
        groups: vec![StatusGroup {
            kind: GroupKind::Changes,
            files: vec![FileEntry {
                path: "e2e/specs/07-authz.spec.ts".to_string(),
                status: 'M',
                orig_path: None,
            }],
        }],
        ..RepoEntry::blank()
    }
}

// ---- the title -----------------------------------------------------------------------

#[test]
fn the_title_reports_the_repo_and_dirty_counts() {
    assert_eq!(plain(&title((6, 3))), "SCM — 6 repos · 3 dirty");
}

#[test]
fn the_title_is_singular_for_one_repo() {
    assert_eq!(plain(&title((1, 0))), "SCM — 1 repo · 0 dirty");
}

// ---- the repo row ------------------------------------------------------------

#[test]
fn a_repo_row_shows_name_branch_ahead_behind_kind_and_count() {
    let line = plain(&repo_line(&entry(), false));
    for part in ["teleagent", "master", "↑6", "↓1", "root", "1"] {
        assert!(line.contains(part), "{part:?} missing from {line:?}");
    }
}

#[test]
fn a_repo_row_shows_its_relative_path_except_at_the_scan_start() {
    assert!(!plain(&repo_line(&entry(), false)).contains('/'));
    let nested = RepoEntry {
        rel_path: "sub/pencil".to_string(),
        ..entry()
    };
    assert!(plain(&repo_line(&nested, false)).contains("sub/pencil"));
}

#[test]
fn a_repo_with_no_upstream_shows_no_arrows_at_all() {
    let no_upstream = RepoEntry {
        ahead: None,
        behind: None,
        ..entry()
    };
    let line = plain(&repo_line(&no_upstream, false));
    assert!(!line.contains('↑'), "{line}");
    assert!(!line.contains('↓'), "{line}");

    let level = RepoEntry {
        ahead: Some(0),
        behind: Some(0),
        ..entry()
    };
    assert!(plain(&repo_line(&level, false)).contains("↑0"));
}

#[test]
fn a_clean_repo_shows_no_dirty_count() {
    let clean = RepoEntry {
        groups: vec![],
        ..entry()
    };
    let line = plain(&repo_line(&clean, false));
    assert!(line.contains("teleagent"), "{line}");
    assert!(!line.ends_with('0'), "{line}");
}

#[test]
fn the_expansion_marker_reflects_the_collapsed_state() {
    assert!(plain(&repo_line(&entry(), false)).starts_with('▾'));
    assert!(plain(&repo_line(&entry(), true)).starts_with('▸'));
}

#[test]
fn a_failing_repo_is_marked_and_carries_its_message() {
    let broken = RepoEntry {
        error: Some("fatal: not a git repository".to_string()),
        ..entry()
    };
    let line = plain(&repo_line(&broken, false));
    assert!(line.contains('!'), "{line}");
    assert!(line.contains("not a git repository"), "{line}");
}

#[test]
fn a_stale_repo_is_labelled_stale() {
    let stale = RepoEntry {
        stale: true,
        ..entry()
    };
    assert!(plain(&repo_line(&stale, false)).contains("stale"));
}

#[test]
fn a_repo_row_is_a_single_line_even_when_its_name_or_error_contains_control_characters() {
    let hostile = RepoEntry {
        display_name: "ev\x1b]52;c;x\x07il\nsecond".to_string(),
        error: Some("bad\nlines".to_string()),
        ..entry()
    };
    let line = plain(&repo_line(&hostile, false));
    assert_eq!(line.lines().count(), 1, "{line:?}");
    assert!(!line.contains('\x1b'), "{line:?}");
}

// ---- the group and file rows -----------------------------------------------------------

#[test]
fn a_group_row_shows_its_title_and_file_count() {
    let group = &entry().groups[0];
    let line = plain(&group_line(group, false));
    assert!(line.contains("Changes"), "{line}");
    assert!(line.contains('1'), "{line}");
}

#[test]
fn a_file_row_shows_its_status_letter_and_repo_relative_path() {
    let file = &entry().groups[0].files[0];
    let line = plain(&file_line(file));
    assert!(line.starts_with('M'), "{line}");
    assert!(line.contains("e2e/specs/07-authz.spec.ts"), "{line}");
}

#[test]
fn a_renamed_file_shows_where_it_came_from() {
    let renamed = FileEntry {
        path: "new.rs".to_string(),
        status: 'R',
        orig_path: Some("old.rs".to_string()),
    };
    let line = plain(&file_line(&renamed));
    assert!(line.contains("old.rs"), "{line}");
    assert!(line.contains("new.rs"), "{line}");
}

#[test]
fn a_file_name_carrying_control_characters_is_neutralized() {
    let hostile = FileEntry {
        path: "a\x1b[2Jb\nc".to_string(),
        status: '?',
        orig_path: None,
    };
    let line = plain(&file_line(&hostile));
    assert_eq!(line.lines().count(), 1, "{line:?}");
    assert!(!line.contains('\x1b'), "{line:?}");
}

// ---- semantic roles ------------------------------------------------------------------

/// The role carried by the first segment whose text is exactly `text`.
fn role_of(segments: &[Segment], text: &str) -> Role {
    segments
        .iter()
        .find(|s| s.text == text)
        .unwrap_or_else(|| panic!("no segment reads exactly {text:?} in {segments:?}"))
        .role
}

#[test]
fn plain_reproduces_exactly_what_the_string_version_rendered() {
    assert_eq!(
        plain(&repo_line(&entry(), false)),
        "▾ teleagent  master  ↑6 ↓1  root  1"
    );
    assert_eq!(
        plain(&group_line(&entry().groups[0], false)),
        "▾ Changes  1"
    );
    assert_eq!(
        plain(&file_line(&entry().groups[0].files[0])),
        "M e2e/specs/07-authz.spec.ts"
    );
    assert_eq!(plain(&title((6, 3))), "SCM — 6 repos · 3 dirty");
}

#[test]
fn each_field_of_a_repo_row_carries_its_own_role() {
    let segs = repo_line(&entry(), false);
    assert_eq!(role_of(&segs, "teleagent"), Role::RepoName);
    assert_eq!(role_of(&segs, "master"), Role::Branch);
    assert_eq!(role_of(&segs, "root"), Role::Kind);
    assert_eq!(role_of(&segs, "1"), Role::DirtyCount);
}

#[test]
fn a_relative_path_is_structure_rather_than_identity() {
    let nested = RepoEntry {
        rel_path: "sub/pencil".to_string(),
        ..entry()
    };
    assert_eq!(
        role_of(&repo_line(&nested, false), "sub/pencil"),
        Role::RelPath
    );
}

#[test]
fn an_arrow_at_zero_recedes_while_a_pending_one_stays_lit() {
    let segs = repo_line(&entry(), false); // ahead 6, behind 1
    assert_eq!(role_of(&segs, "↑6"), Role::Sync);
    assert_eq!(role_of(&segs, "↓1"), Role::Sync);

    let level = RepoEntry {
        ahead: Some(0),
        behind: Some(0),
        ..entry()
    };
    let segs = repo_line(&level, false);
    assert_eq!(role_of(&segs, "↑0"), Role::SyncIdle);
    assert_eq!(role_of(&segs, "↓0"), Role::SyncIdle);

    let ahead_only = RepoEntry {
        ahead: Some(2),
        behind: Some(0),
        ..entry()
    };
    let segs = repo_line(&ahead_only, false);
    assert_eq!(role_of(&segs, "↑2"), Role::Sync);
    assert_eq!(role_of(&segs, "↓0"), Role::SyncIdle);
}

#[test]
fn a_failing_repos_message_carries_the_error_role() {
    let broken = RepoEntry {
        error: Some("fatal: not a git repository".to_string()),
        ..entry()
    };
    let segs = repo_line(&broken, false);
    assert_eq!(role_of(&segs, "! fatal: not a git repository"), Role::Error);
}

#[test]
fn a_stale_repo_carries_the_stale_role() {
    let stale = RepoEntry {
        stale: true,
        ..entry()
    };
    assert_eq!(role_of(&repo_line(&stale, false), "stale"), Role::Stale);
}

#[test]
fn a_status_letter_carries_its_own_letters_role() {
    for code in ['M', 'A', 'D', 'R', 'C', 'U', '?'] {
        let file = FileEntry {
            path: "x".to_string(),
            status: code,
            orig_path: None,
        };
        let segs = file_line(&file);
        assert_eq!(role_of(&segs, &code.to_string()), Role::Status(code));
        assert_eq!(role_of(&segs, "x"), Role::Path);
    }
}

#[test]
fn the_place_a_rename_came_from_is_dimmer_than_where_it_went() {
    let renamed = FileEntry {
        path: "new.rs".to_string(),
        status: 'R',
        orig_path: Some("old.rs".to_string()),
    };
    let segs = file_line(&renamed);
    assert_eq!(role_of(&segs, "new.rs"), Role::Path);
    assert_eq!(role_of(&segs, "old.rs"), Role::OrigPath);
}

#[test]
fn a_group_title_outranks_its_count() {
    let segs = group_line(&entry().groups[0], false);
    assert_eq!(role_of(&segs, "Changes"), Role::GroupTitle);
    assert_eq!(role_of(&segs, "1"), Role::GroupCount);
}

#[test]
fn a_clean_tree_does_not_light_up_the_dirty_count_in_the_title() {
    assert_eq!(role_of(&title((3, 0)), "0 dirty"), Role::Chrome);
    assert_eq!(role_of(&title((3, 2)), "2 dirty"), Role::DirtyCount);
    assert_eq!(role_of(&title((3, 2)), "SCM"), Role::RepoName);
}

// ---- the empty state ----------------------------------------------------------

#[test]
fn the_empty_state_explains_itself_lists_where_we_looked_and_offers_a_rescan() {
    let lines = empty_state_lines(&["/w/one".to_string(), "/w/two".to_string()]);
    let all = lines.join("\n");
    assert!(all.contains("No git repositories"), "{all}");
    assert!(all.contains("/w/one") && all.contains("/w/two"), "{all}");
    assert!(all.contains('r'), "{all}");
    assert!(!lines.is_empty());
}

#[test]
fn the_empty_state_still_says_something_when_there_were_no_scan_starts_at_all() {
    assert!(!empty_state_lines(&[]).is_empty());
}

// ---- the help overlay -----------------------------------------------------------------------

#[test]
fn the_help_overlay_lists_every_action_with_its_effective_keys() {
    let lines = help_lines(&default_bindings());
    let all = lines.join("\n");
    for row in registry() {
        assert!(all.contains(row.description), "{} missing", row.name);
    }
    assert!(all.contains('j') && all.contains(']'), "{all}");
}

// ---- window_start: where the tree's viewport begins ---------------------------------------

#[test]
fn a_window_that_fits_every_row_starts_at_the_top() {
    assert_eq!(window_start(0, 5, 4, 10, 3), 0);
    assert_eq!(
        window_start(7, 5, 4, 10, 3),
        0,
        "a stale prev is clamped, not trusted"
    );
    assert_eq!(
        window_start(0, 0, 0, 10, 3),
        0,
        "an empty list has nowhere to scroll"
    );
}

#[test]
fn the_window_holds_still_while_the_cursor_stays_inside_the_margins() {
    for cursor in 3..=6 {
        assert_eq!(window_start(0, 100, cursor, 10, 3), 0, "cursor {cursor}");
    }
}

#[test]
fn the_window_scrolls_just_far_enough_to_keep_the_bottom_margin() {
    assert_eq!(window_start(0, 100, 7, 10, 3), 1);
    assert_eq!(window_start(0, 100, 8, 10, 3), 2);
}

#[test]
fn the_window_scrolls_back_to_keep_the_top_margin() {
    assert_eq!(window_start(90, 100, 92, 10, 3), 89);
}

#[test]
fn the_cursor_still_reaches_the_last_row_at_the_end_of_the_list() {
    assert_eq!(window_start(0, 100, 99, 10, 3), 90);
}

#[test]
fn a_remembered_start_past_the_end_is_clamped_rather_than_showing_a_blank_pane() {
    assert_eq!(window_start(95, 20, 19, 10, 3), 10);
}

#[test]
fn a_one_row_window_still_tracks_the_cursor() {
    assert_eq!(window_start(0, 100, 5, 1, 3), 5);
}

#[test]
fn a_scrolloff_taller_than_the_window_degrades_instead_of_pinning_the_cursor() {
    assert_eq!(window_start(0, 100, 0, 3, 99), 0);
    assert_eq!(window_start(0, 100, 2, 3, 99), 1);
}

#[test]
fn a_zero_height_window_has_nowhere_to_start() {
    assert_eq!(window_start(4, 100, 50, 0, 3), 0);
}

#[test]
fn the_cursor_is_no_longer_pinned_to_the_bottom_row_of_the_tree() {
    let total = 100;
    let height = 10;
    let cursor = 50;
    let first = window_start(0, total, cursor, height, SCROLLOFF);
    assert!(
        cursor < first + height - 1,
        "rows below the cursor must be visible: first {first}, cursor {cursor}"
    );
    assert!(cursor >= first, "the cursor must be inside the window");
}

// ---- windowed_rows: the pure row-selection core of draw_tree ---------------------------------

/// A minimal one-repo entry, distinguishable only by its path, for `windowed_rows` tests.
fn named_repo(name: &str) -> RepoEntry {
    RepoEntry {
        path: format!("/w/{name}"),
        display_name: name.to_string(),
        ..RepoEntry::blank()
    }
}

fn repo_row(repo_idx: usize) -> Row {
    Row {
        id: RowId::Repo {
            repo: format!("/w/row-{repo_idx}"),
        },
        depth: 0,
        repo_idx,
        group_idx: None,
        file_idx: None,
    }
}

#[test]
fn a_row_that_does_not_resolve_does_not_desync_the_reported_screen_rows_from_what_was_drawn() {
    let rows = vec![repo_row(0), repo_row(99), repo_row(1)];
    let repos = vec![named_repo("a"), named_repo("b")];
    let (lines, hits) = windowed_rows(
        &rows,
        &repos,
        Window {
            first: 0,
            cursor: 0,
            height: 10,
            base_y: 5,
            focused: true,
        },
        &Tree::new(),
    );

    assert_eq!(hits.len(), lines.len(), "one hit per drawn line");
    let ys: Vec<u16> = hits.iter().map(|(y, _)| *y).collect();
    assert_eq!(
        ys,
        vec![5, 6],
        "{ys:?}: must be contiguous from base_y, not leave a gap"
    );
}

// ---- the status bar ----------------------------------------------------------------------

#[test]
fn the_status_bar_reports_the_cursor_position_on_the_right() {
    let bar = status_bar_line(None, 0, 48, 20);
    assert_eq!(bar.chars().count(), 20, "{bar:?}");
    assert!(bar.ends_with("1/48"), "{bar:?}");
    assert_eq!(bar.trim_start(), "1/48", "{bar:?}");
}

#[test]
fn a_notice_sits_on_the_left_without_pushing_the_position_off() {
    let bar = status_bar_line(Some("copied"), 11, 48, 20);
    assert!(bar.starts_with("copied"), "{bar:?}");
    assert!(bar.ends_with("12/48"), "{bar:?}");
    assert_eq!(bar.chars().count(), 20, "{bar:?}");
}

#[test]
fn a_long_notice_is_truncated_rather_than_evicting_the_position() {
    let bar = status_bar_line(Some(&"x".repeat(200)), 0, 9, 20);
    assert!(bar.ends_with("1/9"), "{bar:?}");
    assert_eq!(bar.chars().count(), 20, "{bar:?}");
}

#[test]
fn a_notice_carrying_control_characters_is_neutralized_in_the_status_bar() {
    let bar = status_bar_line(Some("a\x1b[2Jb\nc"), 0, 1, 20);
    assert!(!bar.contains('\x1b'), "{bar:?}");
    assert_eq!(bar.lines().count(), 1, "{bar:?}");
}

#[test]
fn a_bar_too_narrow_for_both_keeps_the_position() {
    assert_eq!(status_bar_line(Some("copied"), 0, 9, 3), "1/9");
    assert_eq!(status_bar_line(None, 0, 9, 0), "");
}



// ---- the diff title ------------------------------------------------------------------------

fn file_row(path: &str) -> Row {
    Row {
        id: RowId::File {
            repo: "/w/teleagent".to_string(),
            group: GroupKind::Changes,
            path: path.to_string(),
        },
        depth: 2,
        repo_idx: 0,
        group_idx: Some(0),
        file_idx: Some(0),
    }
}

#[test]
fn the_diff_title_names_the_selected_file() {
    let row = file_row("e2e/specs/07-authz.spec.ts");
    assert_eq!(
        diff_title(Some(&row), &[entry()], 80),
        "e2e/specs/07-authz.spec.ts"
    );
}

#[test]
fn the_diff_title_falls_back_to_the_repo_when_a_repo_row_is_selected() {
    assert_eq!(
        diff_title(Some(&repo_row(0)), &[named_repo("teleagent")], 80),
        "teleagent"
    );
}

#[test]
fn the_diff_title_says_so_when_nothing_is_selected() {
    assert_eq!(diff_title(None, &[], 80), "no file selected");
}

#[test]
fn a_too_long_diff_title_keeps_the_file_name_and_marks_the_cut() {
    let row = file_row("a/very/deep/path/to/the/file.rs");
    let title = diff_title(Some(&row), &[entry()], 12);
    assert_eq!(title.chars().count(), 12, "{title:?}");
    assert_eq!(title, "…the/file.rs");
}

#[test]
fn a_diff_title_with_no_room_at_all_does_not_panic() {
    let row = file_row("some/file.rs");
    assert_eq!(diff_title(Some(&row), &[entry()], 1), "…");
    assert_eq!(diff_title(Some(&row), &[entry()], 0), "");
}

#[test]
fn a_diff_title_carrying_control_characters_is_neutralized() {
    let row = file_row("a\x1b[2Jb");
    let title = diff_title(Some(&row), &[entry()], 80);
    assert!(!title.contains('\x1b'), "{title:?}");
}

#[test]
fn a_row_whose_repo_no_longer_resolves_gets_an_empty_title_rather_than_a_panic() {
    assert_eq!(diff_title(Some(&repo_row(99)), &[], 80), "");
}


// ---- the help overlay's width ---------------------------------------------------------------

#[test]
fn the_help_overlay_is_only_as_wide_as_its_widest_line() {
    let lines = help_lines(&default_bindings());
    let widest = lines.iter().map(|l| l.chars().count()).max().unwrap_or(0);
    assert_eq!(help_width(&lines, 200), (widest + 4) as u16);
}

#[test]
fn the_help_overlay_never_outgrows_the_pane() {
    let lines = help_lines(&default_bindings());
    assert_eq!(help_width(&lines, 20), 18);
    assert_eq!(help_width(&lines, 1), 1, "never zero-width");
    assert_eq!(help_width(&lines, 0), 1);
}


#[test]
fn a_tall_pane_gets_a_title_a_body_and_a_status_bar() {
    let parts = frame_layout(Rect::new(2, 3, 80, 12)).expect("a pane");
    assert_eq!(parts.title, Rect::new(2, 3, 80, 1));
    assert_eq!(parts.body, Rect::new(2, 4, 80, 10));
    assert_eq!(parts.status, Some(Rect::new(2, 14, 80, 1)));
}

#[test]
fn a_short_pane_spends_no_row_on_a_status_bar() {
    let parts = frame_layout(Rect::new(0, 0, 80, 4)).expect("a pane");
    assert_eq!(parts.body, Rect::new(0, 1, 80, 3));
    assert_eq!(parts.status, None);
    assert_eq!(notice_row(Rect::new(0, 0, 80, 4)), Some(Rect::new(0, 3, 80, 1)));
    assert_eq!(notice_row(Rect::new(0, 0, 80, 1)), None);
    assert!(frame_layout(Rect::new(0, 0, 0, 5)).is_none());
}

#[test]
fn the_help_overlay_is_centered_and_never_taller_than_the_pane() {
    assert_eq!(help_area(Rect::new(0, 0, 100, 30), 40, 14), Rect::new(30, 7, 40, 16));
    assert_eq!(help_area(Rect::new(0, 0, 100, 10), 40, 14), Rect::new(30, 0, 40, 10));
}
