//! What flows between the panel and its two background workers, and the status poller's
//! round-keeping. The threads and channels themselves belong to the program; the decisions they
//! take each round are here.
use vstd::prelude::*;
use crate::git::{GitError, error_message};
use crate::model::{GroupKind, RepoRoot, Snapshot};
use crate::path::{join, join_spec};
use crate::render::{Caps, Prepared, PreparedV, Rendered, prepare_patch, prepare_patch_spec,
    prepare_untracked_bytes, untracked_spec};

verus! {

/// What the poller publishes.
#[derive(Debug)]
pub enum PollMsg {
    /// A fresh repo list, after a filesystem re-walk.
    Roots(Vec<RepoRoot>),
    /// A status snapshot for the current repo list.
    Snapshot(Snapshot),
}

/// One diff to produce. `seq` is monotonic; a result whose seq is not the current one is
/// discarded by the controller.
#[derive(Debug, Clone, PartialEq, Eq)]
pub struct DiffJob {
    pub seq: u64,
    pub repo: String,
    pub group: GroupKind,
    pub path: String,
}

/// A [`DiffJob`] as plain values.
pub struct DiffJobV {
    pub seq: u64,
    pub repo: Seq<char>,
    pub group: GroupKind,
    pub path: Seq<char>,
}

impl View for DiffJob {
    type V = DiffJobV;

    open spec fn view(&self) -> DiffJobV {
        DiffJobV { seq: self.seq, repo: self.repo@, group: self.group, path: self.path@ }
    }
}

/// A finished diff.
pub struct DiffResult<T> {
    pub seq: u64,
    pub rendered: Rendered<T>,
}

// ---- the status poller's rounds ----------------------------------------------------------------

/// What ended the poller's wait between two rounds.
#[derive(Debug, Clone, Copy, PartialEq, Eq, Structural)]
pub enum Wake {
    /// The interval elapsed (or, with polling off, the wait ended without a command).
    Elapsed,
    /// The `r` key: run a round now, re-walking the repo list.
    RefreshNow,
    /// The panel is shutting down.
    Stop,
}

/// The poller's counters: the last published generation and the rounds since start.
#[derive(Debug, Clone, Copy, PartialEq, Eq, Structural)]
pub struct Rounds {
    pub generation: u64,
    pub round: u32,
}

/// `round + 1`, wrapping at the top of `u32`.
pub open spec fn next_round(round: u32) -> u32 {
    if round == u32::MAX {
        0
    } else {
        (round + 1) as u32
    }
}

impl Rounds {
    /// Nothing published yet.
    pub fn new() -> (r: Rounds)
        ensures
            r.generation == 0,
            r.round == 0,
    {
        Rounds { generation: 0, round: 0 }
    }

    /// Begin a round: the generation its snapshot carries, one more than the last.
    pub fn next_generation(&mut self) -> (g: u64)
        requires
            old(self).generation < u64::MAX,
        ensures
            g == old(self).generation + 1,
            final(self).generation == g,
            final(self).round == old(self).round,
    {
        self.generation = self.generation + 1;
        self.generation
    }

    /// After the wait: `None` to stop, else whether to re-walk the repo list before the next
    /// round — always on a manual refresh, otherwise every `rescan_every` rounds (never when it
    /// is 0).
    pub fn after_wait(&mut self, woke: Wake, rescan_every: u32) -> (r: Option<bool>)
        ensures
            woke == Wake::Stop ==> r is None && *final(self) == *old(self),
            woke != Wake::Stop ==> {
                &&& final(self).generation == old(self).generation
                &&& final(self).round == next_round(old(self).round)
                &&& r == Some(
                    woke == Wake::RefreshNow || (rescan_every > 0 && final(self).round % rescan_every == 0),
                )
            },
    {
        match woke {
            Wake::Stop => None,
            _ => {
                self.round = if self.round == u32::MAX {
                    0
                } else {
                    self.round + 1
                };
                let due = rescan_every > 0 && self.round % rescan_every == 0;
                Some(woke == Wake::RefreshNow || due)
            },
        }
    }
}

/// The counters after a run of the poller's steps from `r`, and the generations its rounds
/// published, in order: `None` is a round ([`Rounds::next_generation`]), `Some(w)` a wait that
/// woke with `w` ([`Rounds::after_wait`]).
pub open spec fn run_steps(r: Rounds, steps: Seq<Option<Wake>>) -> (Rounds, Seq<int>)
    decreases steps.len(),
{
    if steps.len() == 0 {
        (r, Seq::empty())
    } else {
        let prev = run_steps(r, steps.drop_last());
        let r1 = prev.0;
        match steps.last() {
            None => (Rounds { generation: (r1.generation + 1) as u64, ..r1 }, prev.1.push(r1.generation + 1)),
            Some(w) => if w == Wake::Stop {
                (r1, prev.1)
            } else {
                (Rounds { round: next_round(r1.round), ..r1 }, prev.1)
            },
        }
    }
}

/// How many rounds a run holds.
pub open spec fn rounds_in(steps: Seq<Option<Wake>>) -> nat
    decreases steps.len(),
{
    if steps.len() == 0 {
        0
    } else {
        rounds_in(steps.drop_last()) + if steps.last() is None {
            1nat
        } else {
            0nat
        }
    }
}

/// Law: from a fresh poller, whatever the waits in between, the `k`-th round publishes
/// generation `k` (counting from one): each snapshot's generation is exactly one more than the
/// previous one's, and the counter holds the number of rounds run.
pub proof fn law_generations_rise_by_one(steps: Seq<Option<Wake>>)
    requires
        rounds_in(steps) < u64::MAX,
    ensures
        run_steps(Rounds { generation: 0, round: 0 }, steps).1.len() == rounds_in(steps),
        run_steps(Rounds { generation: 0, round: 0 }, steps).0.generation == rounds_in(steps),
        forall|k: int|
            0 <= k < run_steps(Rounds { generation: 0, round: 0 }, steps).1.len() ==> #[trigger] run_steps(
                Rounds { generation: 0, round: 0 },
                steps,
            ).1[k] == k + 1,
    decreases steps.len(),
{
    if steps.len() > 0 {
        law_generations_rise_by_one(steps.drop_last());
    }
}

// ---- the diff worker's jobs ---------------------------------------------------------------------

/// Whether a job's content is the file itself (an untracked file has no baseline to diff
/// against) rather than `git diff` output.
pub open spec fn reads_file(group: GroupKind) -> bool {
    group == GroupKind::Untracked
}

/// Where a job's content comes from.
pub enum Fetch {
    /// Read this file (absolute path): it is untracked.
    File(String),
    /// Ask git for the diff against the group's baseline.
    Diff,
}

/// Where a job's content comes from: an untracked file is read whole, anything else is diffed.
pub fn fetch_for(job: &DiffJob) -> (r: Fetch)
    ensures
        match r {
            Fetch::File(p) => reads_file(job.group) && p@ == join_spec(job.repo@, job.path@),
            Fetch::Diff => !reads_file(job.group),
        },
{
    match job.group {
        GroupKind::Untracked => Fetch::File(join(job.repo.as_str(), job.path.as_str())),
        _ => Fetch::Diff,
    }
}

/// What a job's content came back as.
pub enum JobInput {
    /// An untracked file's bytes, or `None` when it could not be read.
    File(Option<Vec<u8>>),
    /// The output of `git diff` against the group's baseline.
    Diff(Result<Vec<u8>, GitError>),
}

/// The prepared content of a finished job, or the message of a failed `git diff`, which is shown
/// both as the body and as the notice.
pub open spec fn job_prepared(rel: Seq<char>, input: JobInput, caps: Caps) -> Result<PreparedV, Seq<char>> {
    match input {
        JobInput::File(content) => Ok(
            untracked_spec(
                rel,
                match content {
                    Some(b) => Some(b@),
                    None => None,
                },
                caps,
            ),
        ),
        JobInput::Diff(Ok(bytes)) => Ok(prepare_patch_spec(bytes@, caps)),
        JobInput::Diff(Err(e)) => Err(error_message(e)),
    }
}

/// Cap a finished job's content for display, or pass on why `git diff` failed.
pub fn prepare_job(job: &DiffJob, input: JobInput, caps: Caps) -> (r: Result<Prepared, String>)
    ensures
        match r {
            Ok(p) => job_prepared(job.path@, input, caps) == Ok::<PreparedV, Seq<char>>(p@),
            Err(m) => job_prepared(job.path@, input, caps) == Err::<PreparedV, Seq<char>>(m@),
        },
{
    match input {
        JobInput::File(content) => {
            let p = match &content {
                Some(b) => prepare_untracked_bytes(job.path.as_str(), Some(b.as_slice()), caps),
                None => prepare_untracked_bytes(job.path.as_str(), None, caps),
            };
            Ok(p)
        },
        JobInput::Diff(Ok(bytes)) => Ok(prepare_patch(bytes.as_slice(), caps)),
        JobInput::Diff(Err(e)) => Err(e.message()),
    }
}

} // verus!
