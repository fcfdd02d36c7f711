use herdr_scm::config::Settings;
use herdr_scm::controller::{Controller, Effects, Focus};
use herdr_scm::intent::Intent;
use herdr_scm::model::{FileEntry, GroupKind, RepoEntry, RepoKind, RepoRoot, Snapshot, StatusGroup};
use herdr_scm::poller::{DiffJob, DiffResult, PollMsg};
use herdr_scm::render::Rendered;

/// What the run loop saw: every diff job and clipboard payload the controller asked for.
#[derive(Default)]
struct Recorder {
    jobs: Vec<DiffJob>,
    copied: Vec<String>,
    zooms: usize,
}

/// A controller plus the run loop's part, with stubbed outside work.
struct Panel {
    c: Controller<String>,
    rec: Recorder,
}

impl Panel {
    fn new() -> Panel {
        Panel {
            c: Controller::new(Settings::default()),
            rec: Recorder::default(),
        }
    }

    fn handle(&mut self, intent: Intent) -> Effects {
        let e = self.c.handle(intent);
        if let Some(job) = &e.job {
            self.rec.jobs.push(job.clone());
        }
        if let Some(text) = &e.copy {
            self.rec.copied.push(text.clone());
            self.c.copy_finished(text, Ok(()));
        }
        if e.zoom {
            self.rec.zooms += 1;
        }
        e
    }

    fn apply(&mut self, msg: PollMsg) {
        if let Some(job) = self.c.apply(msg) {
            self.rec.jobs.push(job);
        }
    }
}

fn root(path: &str) -> RepoRoot {
    RepoRoot {
        path: path.to_string(),
        scan_root: path.to_string(),
        kind: RepoKind::Root,
    }
}

fn repo(name: &str, files: &[(GroupKind, &str)]) -> RepoEntry {
    let mut groups: Vec<StatusGroup> = Vec::new();
    for (kind, path) in files {
        let entry = FileEntry {
            path: path.to_string(),
            status: 'M',
            orig_path: None,
        };
        match groups.iter_mut().find(|g| g.kind == *kind) {
            Some(g) => g.files.push(entry),
            None => groups.push(StatusGroup {
                kind: *kind,
                files: vec![entry],
            }),
        }
    }
    RepoEntry {
        path: format!("/w/{name}"),
        display_name: name.to_string(),
        rel_path: name.to_string(),
        kind: RepoKind::Nested,
        branch: Some("main".to_string()),
        groups,
        ..RepoEntry::blank()
    }
}

fn snapshot(repos: Vec<RepoEntry>, generation: u64) -> PollMsg {
    PollMsg::Snapshot(Snapshot { repos, generation })
}

fn two_repos() -> Vec<RepoEntry> {
    vec![
        repo("a", &[(GroupKind::Changes, "x.rs"), (GroupKind::Changes, "y.rs")]),
        repo("b", &[(GroupKind::Untracked, "z.rs")]),
    ]
}

fn loaded() -> Panel {
    let mut p = Panel::new();
    p.apply(snapshot(two_repos(), 1));
    p
}

fn result(seq: u64, text: &str, notice: Option<&str>) -> DiffResult<String> {
    DiffResult {
        seq,
        rendered: Rendered {
            text: text.to_string(),
            notice: notice.map(|n| n.to_string()),
        },
    }
}

#[test]
fn a_snapshot_populates_the_tree_and_the_header_counts() {
    let p = loaded();
    assert_eq!(p.c.tree().rows().len(), 7);
    assert_eq!(p.c.title_counts(), (2, 2));
    assert!(!p.c.is_empty());
}

#[test]
fn an_empty_repo_list_puts_the_panel_in_its_empty_state() {
    let mut p = Panel::new();
    p.c.set_scan_roots(vec!["/w".to_string()]);
    p.apply(snapshot(vec![], 1));
    assert!(p.c.is_empty());
    assert_eq!(p.c.scan_roots(), ["/w".to_string()]);
}

#[test]
fn a_repo_with_no_changes_is_not_counted_as_dirty() {
    let mut p = Panel::new();
    p.apply(snapshot(vec![repo("clean", &[])], 1));
    assert_eq!(p.c.title_counts(), (1, 0));
}

#[test]
fn a_stale_snapshot_arriving_late_is_ignored() {
    let mut p = loaded();
    p.apply(snapshot(vec![repo("z", &[])], 0));
    assert_eq!(p.c.repos().len(), 2);
}

#[test]
fn roots_message_deduplicates_scan_roots_preserving_first_seen_order() {
    let mut p = Panel::new();
    p.apply(PollMsg::Roots(vec![root("/w/a"), root("/w/b"), root("/w/a")]));
    assert_eq!(p.c.scan_roots(), ["/w/a".to_string(), "/w/b".to_string()]);
}

#[test]
fn an_empty_roots_message_does_not_wipe_previously_recorded_scan_roots() {
    let mut p = Panel::new();
    p.apply(PollMsg::Roots(vec![root("/w/a")]));
    p.apply(PollMsg::Roots(vec![]));
    assert_eq!(p.c.scan_roots(), ["/w/a".to_string()]);
}

#[test]
fn landing_on_a_file_row_requests_its_diff_with_the_right_baseline() {
    let mut p = loaded();
    p.handle(Intent::NavDown);
    p.handle(Intent::NavDown);
    let last = p.rec.jobs.last().expect("a diff job");
    assert_eq!(last.repo, "/w/a");
    assert_eq!(last.group, GroupKind::Changes);
    assert_eq!(last.path, "x.rs");
}

#[test]
fn moving_onto_a_repo_or_group_row_requests_no_diff() {
    let mut p = loaded();
    p.handle(Intent::NavDown);
    assert!(p.rec.jobs.is_empty());
}

#[test]
fn each_diff_job_carries_a_higher_sequence_than_the_last() {
    let mut p = loaded();
    p.handle(Intent::NextChange);
    p.handle(Intent::NextChange);
    assert!(p.rec.jobs.len() >= 2);
    assert!(p.rec.jobs[1].seq > p.rec.jobs[0].seq);
}

#[test]
fn a_diff_result_for_a_superseded_job_is_discarded() {
    let mut p = loaded();
    p.handle(Intent::NextChange);
    p.handle(Intent::NextChange);
    let stale_seq = p.rec.jobs[0].seq;
    let current_seq = p.rec.jobs[1].seq;
    p.c.apply_diff(result(current_seq, "CURRENT", None));
    p.c.apply_diff(result(stale_seq, "STALE", None));
    assert!(p.c.diff_text().expect("a diff").contains("CURRENT"));
    assert!(!p.c.diff_text().expect("a diff").contains("STALE"));
}

#[test]
fn a_diff_notice_for_the_current_job_is_forwarded() {
    let mut p = loaded();
    p.handle(Intent::NextChange);
    let seq = p.rec.jobs.last().expect("a diff job").seq;
    p.c.apply_diff(result(seq, "body", Some("delta is not available — showing plain text")));
    assert_eq!(p.c.notice(), Some("delta is not available — showing plain text"));
}

#[test]
fn a_diff_notice_for_a_superseded_job_is_not_forwarded() {
    let mut p = loaded();
    p.handle(Intent::NextChange);
    p.handle(Intent::NextChange);
    let stale_seq = p.rec.jobs[0].seq;
    p.c.apply_diff(result(stale_seq, "STALE", Some("must not surface")));
    assert!(p.c.notice().is_none());
}

#[test]
fn re_selecting_the_same_file_after_a_refresh_does_not_re_request_its_diff() {
    let mut p = loaded();
    p.handle(Intent::NextChange);
    let before = p.rec.jobs.len();
    p.apply(snapshot(two_repos(), 2));
    assert_eq!(p.rec.jobs.len(), before);
}

#[test]
fn cross_repo_jumping_reaches_the_other_repos_file() {
    let mut p = loaded();
    for _ in 0..3 {
        p.handle(Intent::NextChange);
    }
    assert_eq!(p.rec.jobs.last().expect("job").path, "z.rs");
}

#[test]
fn tab_moves_focus_between_the_tree_and_the_diff() {
    let mut p = loaded();
    assert_eq!(p.c.focus(), Focus::Tree);
    p.handle(Intent::FocusToggle);
    assert_eq!(p.c.focus(), Focus::Diff);
    p.handle(Intent::FocusToggle);
    assert_eq!(p.c.focus(), Focus::Tree);
}

#[test]
fn with_the_diff_focused_the_navigation_keys_scroll_the_diff_not_the_tree() {
    let mut p = loaded();
    let cursor = p.c.tree().cursor();
    p.handle(Intent::FocusToggle);
    p.handle(Intent::NavDown);
    assert_eq!(p.c.tree().cursor(), cursor);
    assert_eq!(p.c.diff_scroll(), 1);
    p.handle(Intent::NavUp);
    assert_eq!(p.c.diff_scroll(), 0);
}

#[test]
fn the_diff_scroll_never_goes_negative() {
    let mut p = loaded();
    p.handle(Intent::FocusToggle);
    for _ in 0..5 {
        p.handle(Intent::NavUp);
    }
    assert_eq!(p.c.diff_scroll(), 0);
}

#[test]
fn selecting_a_different_file_resets_the_diff_scroll() {
    let mut p = loaded();
    p.handle(Intent::NextChange);
    p.handle(Intent::FocusToggle);
    p.handle(Intent::NavDown);
    assert_eq!(p.c.diff_scroll(), 1);
    p.handle(Intent::FocusToggle);
    p.handle(Intent::NextChange);
    assert_eq!(p.c.diff_scroll(), 0);
}

#[test]
fn copying_a_path_writes_repo_colon_path_to_the_clipboard() {
    let mut p = loaded();
    p.handle(Intent::NextChange);
    p.handle(Intent::CopyPath);
    assert_eq!(p.rec.copied.as_slice(), ["a:x.rs"]);
    assert!(p.c.notice().is_some());
    assert_eq!(p.c.notice(), Some("copied a:x.rs"));
}

#[test]
fn copying_with_no_file_selected_says_so_instead_of_copying_something_wrong() {
    let mut p = loaded();
    p.handle(Intent::CopyPath);
    assert!(p.rec.copied.is_empty());
    assert!(p.c.notice().is_some());
    assert_eq!(p.c.notice(), Some("no file selected"));
}

#[test]
fn a_path_carrying_control_characters_is_neutralized_before_it_reaches_the_clipboard() {
    let mut p = Panel::new();
    p.apply(snapshot(
        vec![repo("a", &[(GroupKind::Changes, "evil\x1b]52;c;x\x07.rs")])],
        1,
    ));
    p.handle(Intent::NextChange);
    p.handle(Intent::CopyPath);
    let copied = &p.rec.copied[0];
    assert!(!copied.contains('\x1b'), "{copied:?}");
    assert!(!copied.contains('\x07'), "{copied:?}");
}

#[test]
fn opening_the_editor_hands_over_the_absolute_path_of_the_selected_file() {
    let mut p = loaded();
    p.handle(Intent::NextChange);
    let effects = p.handle(Intent::OpenEditor);
    assert_eq!(effects.editor, Some("/w/a/x.rs".to_string()));
}

#[test]
fn opening_the_editor_with_no_file_selected_is_a_notice_not_a_handoff() {
    let mut p = loaded();
    let effects = p.handle(Intent::OpenEditor);
    assert_eq!(effects.editor, None);
    assert!(p.c.notice().is_some());
}

#[test]
fn editor_finished_records_the_handed_off_path_and_leaves_no_notice_on_success() {
    let mut p = loaded();
    p.c.editor_finished(Ok(()));
    assert!(p.c.notice().is_none());
}

#[test]
fn editor_finished_surfaces_a_failed_handoff_as_a_notice() {
    let mut p = loaded();
    p.c.editor_finished(Err("editor exploded".to_string()));
    assert_eq!(p.c.notice(), Some("editor exploded"));
}

#[test]
fn zoom_asks_herdr_to_toggle_this_panes_zoom() {
    let mut p = loaded();
    let e = p.handle(Intent::Zoom);
    assert!(e.zoom);
    assert_eq!(p.rec.zooms, 1);
}

#[test]
fn refresh_asks_the_run_loop_to_poll_now() {
    let mut p = loaded();
    assert!(p.handle(Intent::Refresh).refresh);
}

#[test]
fn toggle_all_collapses_everything_and_then_expands_it_again() {
    let mut p = loaded();
    p.handle(Intent::ToggleAll);
    assert_eq!(p.c.tree().rows().len(), 2);
    p.handle(Intent::ToggleAll);
    assert_eq!(p.c.tree().rows().len(), 7);
}

#[test]
fn activate_collapses_the_selected_repo() {
    let mut p = loaded();
    p.handle(Intent::Activate);
    assert_eq!(p.c.tree().rows().len(), 4);
}

#[test]
fn help_opens_and_escape_closes_it() {
    let mut p = loaded();
    p.handle(Intent::Help);
    assert!(p.c.help_open());
    p.handle(Intent::Close);
    assert!(!p.c.help_open());
}

#[test]
fn escape_with_no_overlay_open_does_not_quit() {
    let mut p = loaded();
    assert!(!p.handle(Intent::Close).quit);
}

#[test]
fn quit_requests_an_exit() {
    let mut p = loaded();
    assert!(p.handle(Intent::Quit).quit);
}

#[test]
fn while_help_is_open_the_navigation_keys_do_not_move_the_tree_cursor() {
    let mut p = loaded();
    p.handle(Intent::Help);
    let cursor = p.c.tree().cursor();
    p.handle(Intent::NavDown);
    assert_eq!(p.c.tree().cursor(), cursor);
}

#[test]
fn a_failed_clipboard_write_is_reported() {
    let mut c: Controller<String> = Controller::new(Settings::default());
    c.copy_finished("a:x.rs", Err("broken pipe".to_string()));
    assert_eq!(c.notice(), Some("could not copy: broken pipe"));
}

#[test]
fn a_fresh_keystroke_clears_the_previous_notice() {
    let mut p = loaded();
    p.handle(Intent::CopyPath);
    assert!(p.c.notice().is_some());
    p.handle(Intent::NavDown);
    assert!(p.c.notice().is_none());
}

#[test]
fn moving_off_every_file_clears_the_diff() {
    let mut p = loaded();
    p.handle(Intent::NextChange);
    let seq = p.rec.jobs[0].seq;
    p.c.apply_diff(result(seq, "body", None));
    assert!(p.c.diff_text().is_some());
    p.handle(Intent::NavUp);
    p.handle(Intent::NavUp);
    assert!(p.c.diff_text().is_none());
}

#[test]
fn two_spellings_of_one_scan_start_are_recorded_once() {
    let mut p = Panel::new();
    p.apply(PollMsg::Roots(vec![root("/w/a"), root("/w/a/"), root("/w/b")]));
    assert_eq!(p.c.scan_roots(), ["/w/a".to_string(), "/w/b".to_string()]);
}
