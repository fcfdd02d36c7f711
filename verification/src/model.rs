//! The data model: repos, their status groups and changed files. Plain data, no I/O.
use vstd::prelude::*;
use crate::path::{comps, file_name, file_name_spec, rel_slash, rel_slash_spec};

verus! {

/// How a repo was found: decided from the shape of `.git` plus the parent repo's `.gitmodules`.
#[derive(Debug, Clone, Copy, PartialEq, Eq, Structural)]
pub enum RepoKind {
    /// The scan start itself.
    Root,
    /// A `.git` FILE whose path is listed in the parent repo's `.gitmodules`.
    Submodule,
    /// A `.git` FILE whose `gitdir:` points into `…/worktrees/…`.
    Worktree,
    /// A `.git` DIRECTORY: an independent clone living inside the tree.
    Nested,
}

/// The marker drawn in a repo row for each kind.
pub open spec fn kind_label(k: RepoKind) -> Seq<char> {
    match k {
        RepoKind::Root => "root"@,
        RepoKind::Submodule => "submodule"@,
        RepoKind::Worktree => "worktree"@,
        RepoKind::Nested => "nested"@,
    }
}

impl RepoKind {
    /// The lowercase marker drawn in the repo row.
    pub fn label(self) -> (r: &'static str)
        ensures
            r@ == kind_label(self),
    {
        match self {
            RepoKind::Root => "root",
            RepoKind::Submodule => "submodule",
            RepoKind::Worktree => "worktree",
            RepoKind::Nested => "nested",
        }
    }
}

/// The three status groups, in the order they are drawn under a repo.
#[derive(Debug, Clone, Copy, PartialEq, Eq, PartialOrd, Ord, Hash, Structural)]
pub enum GroupKind {
    Staged,
    Changes,
    Untracked,
}

/// A group row's title.
pub open spec fn group_title(k: GroupKind) -> Seq<char> {
    match k {
        GroupKind::Staged => "Staged"@,
        GroupKind::Changes => "Changes"@,
        GroupKind::Untracked => "Untracked"@,
    }
}

impl GroupKind {
    /// The group row's title.
    pub fn title(self) -> (r: &'static str)
        ensures
            r@ == group_title(self),
    {
        match self {
            GroupKind::Staged => "Staged",
            GroupKind::Changes => "Changes",
            GroupKind::Untracked => "Untracked",
        }
    }
}

/// One changed file inside one group. `path` is repo-relative and forward-slashed; `status` is
/// the group's own column of the porcelain XY pair.
#[derive(Debug, Clone, PartialEq, Eq)]
pub struct FileEntry {
    pub path: String,
    pub status: char,
    /// The pre-rename/copy path, for `R`/`C` entries only.
    pub orig_path: Option<String>,
}

/// A [`FileEntry`] as plain character sequences.
pub struct FileView {
    pub path: Seq<char>,
    pub status: char,
    pub orig_path: Option<Seq<char>>,
}

/// The view of an optional string.
pub open spec fn opt_view(o: Option<String>) -> Option<Seq<char>> {
    match o {
        Some(s) => Some(s@),
        None => None,
    }
}

impl View for FileEntry {
    type V = FileView;

    open spec fn view(&self) -> FileView {
        FileView { path: self.path@, status: self.status, orig_path: opt_view(self.orig_path) }
    }
}

/// A copy of an optional string.
pub fn clone_opt(o: &Option<String>) -> (r: Option<String>)
    ensures
        opt_view(r) == opt_view(*o),
{
    match o {
        Some(s) => Some(s.clone()),
        None => None,
    }
}

impl FileEntry {
    /// A copy of this entry.
    pub fn duplicate(&self) -> (r: FileEntry)
        ensures
            r@ == self@,
    {
        FileEntry { path: self.path.clone(), status: self.status, orig_path: clone_opt(&self.orig_path) }
    }
}

/// The views of a list of files.
pub open spec fn files_view(files: Seq<FileEntry>) -> Seq<FileView> {
    files.map_values(|f: FileEntry| f@)
}

/// A non-empty group of changed files.
#[derive(Debug, Clone, PartialEq, Eq)]
pub struct StatusGroup {
    pub kind: GroupKind,
    pub files: Vec<FileEntry>,
}

pub struct GroupView {
    pub kind: GroupKind,
    pub files: Seq<FileView>,
}

impl View for StatusGroup {
    type V = GroupView;

    open spec fn view(&self) -> GroupView {
        GroupView { kind: self.kind, files: files_view(self.files@) }
    }
}

/// The views of a list of groups.
pub open spec fn groups_view(groups: Seq<StatusGroup>) -> Seq<GroupView> {
    groups.map_values(|g: StatusGroup| g@)
}

/// One repo's whole row-tree plus its per-repo health flags.
#[derive(Debug, Clone, PartialEq, Eq)]
pub struct RepoEntry {
    /// Absolute path to the repo's working tree root.
    pub path: String,
    /// The directory name, drawn as the repo's name.
    pub display_name: String,
    /// Path relative to the scan start; empty for the scan start itself.
    pub rel_path: String,
    pub kind: RepoKind,
    /// The branch name, or a short SHA when HEAD is detached. `None` when git could not say.
    pub branch: Option<String>,
    /// Commits ahead of / behind the upstream. Both `None` when there is NO upstream, which is
    /// distinct from `Some(0)`.
    pub ahead: Option<u32>,
    pub behind: Option<u32>,
    pub groups: Vec<StatusGroup>,
    /// This repo's query failed; the row is marked `!` and carries this message.
    pub error: Option<String>,
    /// The previous round timed out; the row is marked stale and retried next round.
    pub stale: bool,
}

/// Total file rows of a list of groups.
pub open spec fn file_count(groups: Seq<StatusGroup>) -> nat
    decreases groups.len(),
{
    if groups.len() == 0 {
        0
    } else {
        file_count(groups.drop_last()) + groups.last().files@.len()
    }
}

/// `p`'s directory name: its last component, or the whole path when it has none.
pub open spec fn dir_name_spec(p: Seq<char>) -> Seq<char> {
    match file_name_spec(p) {
        Some(n) => n,
        None => p,
    }
}

/// `p` relative to `base`, forward-slashed; the whole of `p` when it is not under `base`.
pub open spec fn rel_to_slash_spec(p: Seq<char>, base: Seq<char>) -> Seq<char> {
    match rel_slash_spec(p, base) {
        Some(r) => r,
        None => p,
    }
}

impl RepoEntry {
    /// A clean, unknown-branch entry at an empty path.
    pub fn blank() -> (r: RepoEntry)
        ensures
            r.path@ == Seq::<char>::empty(),
            r.display_name@ == Seq::<char>::empty(),
            r.rel_path@ == Seq::<char>::empty(),
            r.kind == RepoKind::Root,
            r.branch is None,
            r.ahead is None,
            r.behind is None,
            r.groups@.len() == 0,
            r.error is None,
            !r.stale,
    {
        RepoEntry {
            path: String::new(),
            display_name: String::new(),
            rel_path: String::new(),
            kind: RepoKind::Root,
            branch: None,
            ahead: None,
            behind: None,
            groups: Vec::new(),
            error: None,
            stale: false,
        }
    }

    /// The clean, not-yet-queried entry for a discovered repo: identity fields filled in from
    /// the discovery result, every git-derived field still empty.
    pub fn from_root(root: &RepoRoot) -> (r: RepoEntry)
        ensures
            r.path@ == root.path@,
            r.display_name@ == dir_name_spec(root.path@),
            r.rel_path@ == rel_to_slash_spec(root.path@, root.scan_root@),
            r.kind == root.kind,
            r.branch is None,
            r.ahead is None,
            r.behind is None,
            r.groups@.len() == 0,
            r.error is None,
            !r.stale,
    {
        let display_name = match file_name(root.path.as_str()) {
            Some(n) => n,
            None => root.path.clone(),
        };
        let rel_path = match rel_slash(root.path.as_str(), root.scan_root.as_str()) {
            Some(r) => r,
            None => root.path.clone(),
        };
        RepoEntry {
            path: root.path.clone(),
            display_name,
            rel_path,
            kind: root.kind,
            branch: None,
            ahead: None,
            behind: None,
            groups: Vec::new(),
            error: None,
            stale: false,
        }
    }

    /// Total file rows under this repo. A path staged AND modified counts once per group.
    pub fn dirty_count(&self) -> (r: usize)
        requires
            file_count(self.groups@) <= usize::MAX,
        ensures
            r == file_count(self.groups@),
    {
        let mut total: usize = 0;
        let mut i: usize = 0;
        while i < self.groups.len()
            invariant
                i <= self.groups@.len(),
                file_count(self.groups@) <= usize::MAX,
                total == file_count(self.groups@.take(i as int)),
            decreases self.groups.len() - i,
        {
            proof {
                assert(self.groups@.take(i + 1).drop_last() =~= self.groups@.take(i as int));
                lemma_file_count_prefix(self.groups@, i + 1);
            }
            total = total + self.groups[i].files.len();
            i += 1;
        }
        assert(self.groups@.take(i as int) =~= self.groups@);
        total
    }
}

/// A prefix never holds more file rows than the whole list.
pub proof fn lemma_file_count_prefix(groups: Seq<StatusGroup>, n: int)
    requires
        0 <= n <= groups.len(),
    ensures
        file_count(groups.take(n)) <= file_count(groups),
    decreases groups.len(),
{
    if n < groups.len() {
        assert(groups.drop_last().take(n) =~= groups.take(n));
        lemma_file_count_prefix(groups.drop_last(), n);
    } else {
        assert(groups.take(n) =~= groups);
    }
}

/// A repo as the discovery walk found it, before any git query.
#[derive(Debug, Clone, PartialEq, Eq)]
pub struct RepoRoot {
    /// Absolute path to the repo's working tree root.
    pub path: String,
    /// The scan start this repo was found under; `rel_path` is measured from here.
    pub scan_root: String,
    pub kind: RepoKind,
}

/// One poll round's result. `generation` increases by one per round.
#[derive(Debug, Clone, PartialEq, Eq)]
pub struct Snapshot {
    pub repos: Vec<RepoEntry>,
    pub generation: u64,
}

} // verus!
