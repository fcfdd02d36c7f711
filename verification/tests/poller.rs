use herdr_scm::git::GitError;
use herdr_scm::model::GroupKind;
use herdr_scm::poller::{fetch_for, prepare_job, DiffJob, Fetch, JobInput, Rounds, Wake};
use herdr_scm::render::{Caps, Prepared};

fn job(group: GroupKind, path: &str) -> DiffJob {
    DiffJob {
        seq: 1,
        repo: "/w/a".to_string(),
        group,
        path: path.to_string(),
    }
}

#[test]
fn snapshot_generations_increase_by_one_each_round() {
    let mut r = Rounds::new();
    let gens: Vec<u64> = (0..4).map(|_| r.next_generation()).collect();
    assert_eq!(gens, vec![1, 2, 3, 4]);
}

#[test]
fn the_repo_list_is_re_walked_only_every_rescan_every_rounds() {
    let mut r = Rounds::new();
    let rescans: Vec<bool> = (0..10)
        .map(|_| r.after_wait(Wake::Elapsed, 5).expect("keeps going"))
        .collect();
    assert_eq!(
        rescans,
        vec![false, false, false, false, true, false, false, false, false, true]
    );
}

#[test]
fn a_manual_refresh_re_walks_the_repo_list_without_waiting_for_the_interval() {
    let mut r = Rounds::new();
    assert_eq!(r.after_wait(Wake::RefreshNow, 1000), Some(true));
}

#[test]
fn a_stop_ends_the_rounds_and_changes_nothing() {
    let mut r = Rounds::new();
    r.next_generation();
    let before = r;
    assert_eq!(r.after_wait(Wake::Stop, 10), None);
    assert_eq!(r, before);
}

#[test]
fn a_zero_rescan_interval_never_re_walks_on_its_own() {
    let mut r = Rounds::new();
    for _ in 0..20 {
        assert_eq!(r.after_wait(Wake::Elapsed, 0), Some(false));
    }
}

#[test]
fn the_round_counter_wraps_instead_of_overflowing() {
    let mut r = Rounds {
        generation: 0,
        round: u32::MAX,
    };
    assert_eq!(r.after_wait(Wake::Elapsed, 7), Some(true));
    assert_eq!(r.round, 0);
}

#[test]
fn an_untracked_job_reads_the_file_and_any_other_is_diffed() {
    match fetch_for(&job(GroupKind::Untracked, "new.rs")) {
        Fetch::File(p) => assert_eq!(p, "/w/a/new.rs"),
        Fetch::Diff => panic!("an untracked file has no diff"),
    }
    assert!(matches!(fetch_for(&job(GroupKind::Staged, "x.rs")), Fetch::Diff));
    assert!(matches!(fetch_for(&job(GroupKind::Changes, "x.rs")), Fetch::Diff));
}

#[test]
fn a_failed_diff_reports_its_one_line_message() {
    let r = prepare_job(
        &job(GroupKind::Changes, "x.rs"),
        JobInput::Diff(Err(GitError::Failed("fatal: bad\nmore".to_string()))),
        Caps::default(),
    );
    assert_eq!(r, Err("fatal: bad".to_string()));
}

#[test]
fn a_diff_and_a_file_are_prepared_for_display() {
    let d = prepare_job(
        &job(GroupKind::Changes, "x.rs"),
        JobInput::Diff(Ok(b"+a\n".to_vec())),
        Caps::default(),
    );
    assert_eq!(d, Ok(Prepared::Full { text: "+a\n".to_string() }));
    let f = prepare_job(
        &job(GroupKind::Untracked, "new.rs"),
        JobInput::File(None),
        Caps::default(),
    );
    assert_eq!(
        f,
        Ok(Prepared::Full {
            text: "could not read new.rs".to_string()
        })
    );
}
