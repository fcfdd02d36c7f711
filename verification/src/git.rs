//! What the git queries are and what their answers mean: the read-only argument vectors, the
//! reading of one status answer into a repo row, and the one-line rendering of a failure.
//!
//! Running `git` is the caller's part. Every invocation it makes carries
//! `GIT_OPTIONAL_LOCKS=0` (otherwise `git status` refreshes and REWRITES the index), and every
//! diff carries `--no-ext-diff --no-textconv` (a user's gitconfig can point those at arbitrary
//! programs).
use vstd::prelude::*;
use std::time::Duration;
use crate::config::strings_view;
use crate::input::strs_view;
use crate::model::{
    GroupKind, RepoEntry, RepoRoot, RepoKind, dir_name_spec, groups_view, opt_view,
    rel_to_slash_spec,
};
use crate::porcelain::{StatusModel, groups_spec, parse, records_of, status_of};
use crate::text::{chars_of, lines, lines_from, lemma_find_char_bounds, next_line, push_str, string_of, sub_vec, trim, trim_chars};

verus! {

/// Why a git query did not produce output.
#[derive(Debug, Clone, PartialEq, Eq)]
pub enum GitError {
    /// The invocation overran its budget and was killed. The row goes `stale` and retries.
    Timeout,
    /// git ran and exited non-zero; carries the full stderr. [`GitError::message`] renders only
    /// its first line — the full text is untrusted and must not reach the screen as-is.
    Failed(String),
    /// git could not be started at all.
    Spawn(String),
    /// There is no git query for this request (an Untracked file's "diff").
    NotApplicable,
}

/// The first non-blank line of a list, trimmed.
pub open spec fn first_nonblank(ls: Seq<Seq<char>>) -> Option<Seq<char>>
    decreases ls.len(),
{
    if ls.len() == 0 {
        None
    } else if trim(ls[0]).len() > 0 {
        Some(trim(ls[0]))
    } else {
        first_nonblank(ls.skip(1))
    }
}

/// The first non-empty line of `s`, trimmed, or a generic label when there is none.
pub open spec fn first_line_spec(s: Seq<char>) -> Seq<char> {
    match first_nonblank(lines(s)) {
        Some(l) => l,
        None => "git failed"@,
    }
}

/// The first non-empty line of `s`, trimmed, or a generic label when there is none.
fn first_line(s: &str) -> (r: String)
    ensures
        r@ == first_line_spec(s@),
{
    let cs = chars_of(s);
    let ghost g = s@;
    let mut i: usize = 0;
    while i < cs.len()
        invariant
            cs@ == g,
            g == s@,
            i <= cs@.len(),
            first_nonblank(lines(g)) == first_nonblank(lines_from(g, i as int)),
        decreases cs.len() - i,
    {
        let (end, nl) = next_line(cs.as_slice(), i);
        proof {
            lemma_find_char_bounds(g, '\n', i as int);
        }
        let line = sub_vec(cs.as_slice(), i, end);
        let ghost rest: Seq<Seq<char>> = if nl >= cs.len() {
            Seq::empty()
        } else {
            lines_from(g, nl + 1)
        };
        assert(lines_from(g, i as int) =~= seq![line@] + rest);
        assert(lines_from(g, i as int)[0] == line@);
        assert(lines_from(g, i as int).skip(1) =~= rest);
        let t = trim_chars(line.as_slice());
        if t.len() > 0 {
            assert(first_nonblank(lines_from(g, i as int)) == Some(t@));
            return string_of(t.as_slice());
        }
        assert(first_nonblank(lines_from(g, i as int)) == first_nonblank(rest));
        if nl >= cs.len() {
            i = cs.len();
            assert(lines_from(g, i as int) =~= Seq::<Seq<char>>::empty());
        } else {
            i = nl + 1;
        }
    }
    assert(lines_from(g, i as int) =~= Seq::<Seq<char>>::empty());
    String::from_str("git failed")
}

/// One short line for a failure: this lands in a repo row that has exactly one line of space.
pub open spec fn error_message(e: GitError) -> Seq<char> {
    match e {
        GitError::Timeout => "git timed out"@,
        GitError::Failed(msg) => first_line_spec(msg@),
        GitError::Spawn(msg) => "could not run git: "@ + first_line_spec(msg@),
        GitError::NotApplicable => "no diff for this entry"@,
    }
}

impl GitError {
    /// One short line: this lands in a repo row that has exactly one line of space.
    pub fn message(&self) -> (r: String)
        ensures
            r@ == error_message(*self),
    {
        match self {
            GitError::Timeout => String::from_str("git timed out"),
            GitError::Failed(msg) => first_line(msg.as_str()),
            GitError::Spawn(msg) => {
                let mut out = String::from_str("could not run git: ");
                let l = first_line(msg.as_str());
                push_str(&mut out, l.as_str());
                out
            },
            GitError::NotApplicable => String::from_str("no diff for this entry"),
        }
    }
}

/// The per-invocation wall-clock budget, in seconds. Generous enough for a cold `git status` on
/// a large repo, short enough that a wedged repo costs one poll round rather than the panel.
pub const DEFAULT_TIMEOUT_SECS: u64 = 5;

/// The real git service: how long one invocation may run.
pub struct LiveGit {
    timeout: Duration,
}

impl LiveGit {
    pub fn new(timeout: Duration) -> (g: LiveGit)
        ensures
            g.timeout() == timeout,
    {
        LiveGit { timeout }
    }

    /// The per-invocation budget.
    pub closed spec fn timeout(&self) -> Duration {
        self.timeout
    }

    /// The per-invocation budget.
    pub fn budget(&self) -> (d: Duration)
        ensures
            d == self.timeout(),
    {
        self.timeout
    }
}

/// The status query's arguments. `--untracked-files=all` lists individual files rather than
/// collapsing an untracked directory to one row: every untracked row must be selectable and
/// renderable.
pub open spec fn status_argv() -> Seq<Seq<char>> {
    seq!["status"@, "--porcelain=v2"@, "-z"@, "--branch"@, "--untracked-files=all"@]
}

/// The status query.
pub fn status_args() -> (r: &'static [&'static str])
    ensures
        strs_view(r@) == status_argv(),
{
    let a: &'static [&'static str] = &["status", "--porcelain=v2", "-z", "--branch", "--untracked-files=all"];
    assert(a@ =~= seq!["status", "--porcelain=v2", "-z", "--branch", "--untracked-files=all"]);
    assert(strs_view(a@) =~= status_argv());
    a
}

/// The diff argv for one group — the index against `HEAD` for Staged, the worktree against
/// the index for Changes — or `None` for Untracked, which has no git diff. The path always
/// follows `--`, so a file literally named like an option cannot inject one.
pub open spec fn diff_argv(group: GroupKind, path: Seq<char>) -> Option<Seq<Seq<char>>> {
    let tail = seq!["--no-color"@, "--no-ext-diff"@, "--no-textconv"@, "--"@, path];
    match group {
        GroupKind::Staged => Some(seq!["diff"@, "--cached"@] + tail),
        GroupKind::Changes => Some(seq!["diff"@] + tail),
        GroupKind::Untracked => None,
    }
}

/// The diff argv for one group, or `None` for Untracked, which has no git diff.
///
/// The path always follows `--`, so a file literally named like an option cannot inject one.
pub fn diff_args(group: GroupKind, path: &str) -> (r: Option<Vec<String>>)
    ensures
        match r {
            Some(v) => diff_argv(group, path@) == Some(strings_view(v@)),
            None => diff_argv(group, path@) is None,
        },
{
    let mut args: Vec<String> = Vec::new();
    args.push(String::from_str("diff"));
    match group {
        GroupKind::Staged => args.push(String::from_str("--cached")),
        GroupKind::Changes => {},
        GroupKind::Untracked => {
            return None;
        },
    }
    args.push(String::from_str("--no-color"));
    args.push(String::from_str("--no-ext-diff"));
    args.push(String::from_str("--no-textconv"));
    args.push(String::from_str("--"));
    args.push(String::from_str(path));
    assert(diff_argv(group, path@)->0 =~= strings_view(args@));
    Some(args)
}

/// The first seven characters of an object id — git's own abbreviation length.
pub open spec fn short_sha_spec(oid: Seq<char>) -> Seq<char> {
    if oid.len() <= 7 {
        oid
    } else {
        oid.take(7)
    }
}

/// The first seven characters of an object id — git's own abbreviation length.
pub fn short_sha(oid: &str) -> (r: String)
    ensures
        r@ == short_sha_spec(oid@),
{
    let cs = chars_of(oid);
    let n = if cs.len() < 7 {
        cs.len()
    } else {
        7
    };
    let r = string_of(sub_vec(cs.as_slice(), 0, n).as_slice());
    assert(r@ =~= short_sha_spec(oid@));
    r
}

/// The name shown for a repo's HEAD: the branch, or for a detached HEAD the short oid.
pub open spec fn branch_of(st: StatusModel) -> Option<Seq<char>> {
    match st.head {
        Some(h) => Some(h),
        None => match st.oid {
            Some(o) => Some(short_sha_spec(o)),
            None => None,
        },
    }
}

/// What a status query's outcome makes of a repo's row: the parsed status on success, `stale`
/// on a timeout, and the failure's one-line message otherwise. Every failure lands in the row;
/// none propagates.
pub fn status_entry(root: &RepoRoot, outcome: Result<Vec<u8>, GitError>) -> (e: RepoEntry)
    ensures
        e.path@ == root.path@,
        e.display_name@ == dir_name_spec(root.path@),
        e.rel_path@ == rel_to_slash_spec(root.path@, root.scan_root@),
        e.kind == root.kind,
        match outcome {
            Ok(bytes) => {
                let st = status_of(records_of(bytes@));
                &&& opt_view(e.branch) == branch_of(st)
                &&& e.ahead == st.ahead
                &&& e.behind == st.behind
                &&& groups_view(e.groups@) == groups_spec(st)
                &&& e.error is None
                &&& !e.stale
            },
            Err(err) => {
                &&& e.branch is None
                &&& e.ahead is None
                &&& e.behind is None
                &&& e.groups@.len() == 0
                &&& if err is Timeout {
                    e.stale && e.error is None
                } else {
                    !e.stale && opt_view(e.error) == Some(error_message(err))
                }
            },
        },
{
    let mut entry = RepoEntry::from_root(root);
    match outcome {
        Ok(bytes) => {
            let status = parse(bytes.as_slice());
            // A detached HEAD has no branch name; the short oid is what the user can act on.
            entry.branch = match &status.head {
                Some(h) => Some(h.clone()),
                None => match &status.oid {
                    Some(o) => Some(short_sha(o.as_str())),
                    None => None,
                },
            };
            entry.ahead = status.ahead;
            entry.behind = status.behind;
            entry.groups = status.groups();
        },
        Err(GitError::Timeout) => {
            entry.stale = true;
        },
        Err(e) => {
            entry.error = Some(e.message());
        },
    }
    entry
}

} // verus!
