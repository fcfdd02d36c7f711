//! The flattened row list, its expansion state and cursor.
//!
//! State is keyed by row IDENTITY (repo path + group + file path), never by index: a background
//! refresh reshuffles indices constantly, and index-keyed state would move the user's cursor
//! and re-open their collapsed repos on every poll round.
use vstd::prelude::*;
use crate::model::{GroupKind, RepoEntry};
use crate::path::{norm_path, normalize};
use crate::text::str_eq;

verus! {

/// A row's stable identity across rebuilds. The repo is held in its canonical spelling
/// ([`norm_path`]), so two spellings of one place are one row.
#[derive(Debug, Clone, PartialEq, Eq, Hash)]
pub enum RowId {
    Repo { repo: String },
    Group { repo: String, group: GroupKind },
    File { repo: String, group: GroupKind, path: String },
}

/// A row identity as plain values.
pub enum RowKey {
    Repo(Seq<char>),
    Group(Seq<char>, GroupKind),
    File(Seq<char>, GroupKind, Seq<char>),
}

impl View for RowId {
    type V = RowKey;

    open spec fn view(&self) -> RowKey {
        match self {
            RowId::Repo { repo } => RowKey::Repo(repo@),
            RowId::Group { repo, group } => RowKey::Group(repo@, *group),
            RowId::File { repo, group, path } => RowKey::File(repo@, *group, path@),
        }
    }
}

/// The row that must be expanded for a row to be visible, if any.
pub open spec fn parent_key(k: RowKey) -> Option<RowKey> {
    match k {
        RowKey::Repo(_) => None,
        RowKey::Group(r, _) => Some(RowKey::Repo(r)),
        RowKey::File(r, g, _) => Some(RowKey::Group(r, g)),
    }
}

impl RowId {
    /// A copy of this identity.
    pub fn duplicate(&self) -> (r: RowId)
        ensures
            r@ == self@,
    {
        match self {
            RowId::Repo { repo } => RowId::Repo { repo: repo.clone() },
            RowId::Group { repo, group } => RowId::Group { repo: repo.clone(), group: *group },
            RowId::File { repo, group, path } => RowId::File {
                repo: repo.clone(),
                group: *group,
                path: path.clone(),
            },
        }
    }

    /// Whether two identities are the same row.
    pub fn same(&self, other: &RowId) -> (r: bool)
        ensures
            r == (self@ == other@),
    {
        match (self, other) {
            (RowId::Repo { repo: a }, RowId::Repo { repo: b }) => str_eq(a.as_str(), b.as_str()),
            (RowId::Group { repo: a, group: g }, RowId::Group { repo: b, group: h }) => *g == *h
                && str_eq(a.as_str(), b.as_str()),
            (RowId::File { repo: a, group: g, path: p }, RowId::File { repo: b, group: h, path: q }) => {
                *g == *h && str_eq(a.as_str(), b.as_str()) && str_eq(p.as_str(), q.as_str())
            },
            _ => false,
        }
    }

    /// The row that must be expanded for this row to be visible, if any.
    fn parent(&self) -> (r: Option<RowId>)
        ensures
            match r {
                Some(p) => parent_key(self@) == Some(p@),
                None => parent_key(self@) is None,
            },
    {
        match self {
            RowId::Repo { .. } => None,
            RowId::Group { repo, .. } => Some(RowId::Repo { repo: repo.clone() }),
            RowId::File { repo, group, .. } => Some(RowId::Group { repo: repo.clone(), group: *group }),
        }
    }
}

/// One visible row, with the indices needed to reach its model data without a second lookup.
#[derive(Debug, Clone, PartialEq, Eq)]
pub struct Row {
    pub id: RowId,
    /// 0 = repo, 1 = group, 2 = file.
    pub depth: u16,
    pub repo_idx: usize,
    pub group_idx: Option<usize>,
    pub file_idx: Option<usize>,
}

/// A row as plain values.
pub struct RowV {
    pub key: RowKey,
    pub depth: nat,
    pub repo_idx: int,
    pub group_idx: Option<int>,
    pub file_idx: Option<int>,
}

pub open spec fn opt_int(o: Option<usize>) -> Option<int> {
    match o {
        Some(i) => Some(i as int),
        None => None,
    }
}

impl View for Row {
    type V = RowV;

    open spec fn view(&self) -> RowV {
        RowV {
            key: self.id@,
            depth: self.depth as nat,
            repo_idx: self.repo_idx as int,
            group_idx: opt_int(self.group_idx),
            file_idx: opt_int(self.file_idx),
        }
    }
}

/// The views of a row list.
pub open spec fn rows_view(rows: Seq<Row>) -> Seq<RowV> {
    rows.map_values(|r: Row| r@)
}

/// The keys of a list of identities.
pub open spec fn keys_view(ids: Seq<RowId>) -> Seq<RowKey> {
    ids.map_values(|i: RowId| i@)
}

// ---- the flattening ---------------------------------------------------------------------------

pub open spec fn repo_key(repos: Seq<RepoEntry>, ri: int) -> RowKey {
    RowKey::Repo(norm_path(repos[ri].path@))
}

pub open spec fn group_key(repos: Seq<RepoEntry>, ri: int, gi: int) -> RowKey {
    RowKey::Group(norm_path(repos[ri].path@), repos[ri].groups@[gi].kind)
}

pub open spec fn file_key(repos: Seq<RepoEntry>, ri: int, gi: int, fi: int) -> RowKey {
    RowKey::File(
        norm_path(repos[ri].path@),
        repos[ri].groups@[gi].kind,
        repos[ri].groups@[gi].files@[fi].path@,
    )
}

/// The rows of the first `n` files of group `gi` of repo `ri`.
pub open spec fn file_rows(repos: Seq<RepoEntry>, ri: int, gi: int, n: int) -> Seq<RowV>
    decreases n,
{
    if n <= 0 {
        Seq::empty()
    } else {
        file_rows(repos, ri, gi, n - 1).push(
            RowV {
                key: file_key(repos, ri, gi, n - 1),
                depth: 2,
                repo_idx: ri,
                group_idx: Some(gi),
                file_idx: Some(n - 1),
            },
        )
    }
}

/// A group's own row followed, unless it is collapsed, by its files' rows.
pub open spec fn group_block(repos: Seq<RepoEntry>, ri: int, gi: int, c: Seq<RowKey>) -> Seq<RowV> {
    seq![RowV { key: group_key(repos, ri, gi), depth: 1, repo_idx: ri, group_idx: Some(gi), file_idx: None }]
        + if c.contains(group_key(repos, ri, gi)) {
        Seq::empty()
    } else {
        file_rows(repos, ri, gi, repos[ri].groups@[gi].files@.len() as int)
    }
}

/// The blocks of the first `n` groups of repo `ri`.
pub open spec fn group_rows(repos: Seq<RepoEntry>, ri: int, n: int, c: Seq<RowKey>) -> Seq<RowV>
    decreases n,
{
    if n <= 0 {
        Seq::empty()
    } else {
        group_rows(repos, ri, n - 1, c) + group_block(repos, ri, n - 1, c)
    }
}

/// A repo's own row followed, unless it is collapsed, by its groups' blocks.
pub open spec fn repo_block(repos: Seq<RepoEntry>, ri: int, c: Seq<RowKey>) -> Seq<RowV> {
    seq![RowV { key: repo_key(repos, ri), depth: 0, repo_idx: ri, group_idx: None, file_idx: None }]
        + if c.contains(repo_key(repos, ri)) {
        Seq::empty()
    } else {
        group_rows(repos, ri, repos[ri].groups@.len() as int, c)
    }
}

/// The blocks of the first `n` repos.
pub open spec fn flatten_upto(repos: Seq<RepoEntry>, n: int, c: Seq<RowKey>) -> Seq<RowV>
    decreases n,
{
    if n <= 0 {
        Seq::empty()
    } else {
        flatten_upto(repos, n - 1, c) + repo_block(repos, n - 1, c)
    }
}

/// The visible rows of a snapshot with the rows in `c` collapsed.
pub open spec fn flatten_spec(repos: Seq<RepoEntry>, c: Seq<RowKey>) -> Seq<RowV> {
    flatten_upto(repos, repos.len() as int, c)
}

/// The index of the first row whose identity is `k`.
pub open spec fn first_pos(rows: Seq<RowV>, k: RowKey) -> Option<int>
    decreases rows.len(),
{
    if rows.len() == 0 {
        None
    } else {
        match first_pos(rows.drop_last(), k) {
            Some(i) => Some(i),
            None => if rows.last().key == k {
                Some(rows.len() - 1)
            } else {
                None
            },
        }
    }
}

/// Whether `c` holds `id`.
fn holds(c: &Vec<RowId>, id: &RowId) -> (r: bool)
    ensures
        r == keys_view(c@).contains(id@),
{
    let mut i: usize = 0;
    while i < c.len()
        invariant
            i <= c@.len(),
            forall|j: int| 0 <= j < i ==> c@[j]@ != id@,
        decreases c.len() - i,
    {
        if c[i].same(id) {
            assert(keys_view(c@)[i as int] == id@);
            return true;
        }
        i += 1;
    }
    assert(!keys_view(c@).contains(id@)) by {
        if keys_view(c@).contains(id@) {
            let j = choose|j: int| 0 <= j < keys_view(c@).len() && keys_view(c@)[j] == id@;
            assert(c@[j]@ == id@);
        }
    }
    false
}

proof fn lemma_push_rows(rows: Seq<Row>, r: Row)
    ensures
        rows_view(rows.push(r)) == rows_view(rows).push(r@),
{
    assert(rows_view(rows.push(r)) =~= rows_view(rows).push(r@));
}

/// The visible rows of `repos` with the rows in `collapsed` collapsed.
fn flatten(repos: &[RepoEntry], collapsed: &Vec<RowId>) -> (rows: Vec<Row>)
    ensures
        rows_view(rows@) == flatten_spec(repos@, keys_view(collapsed@)),
{
    let ghost c = keys_view(collapsed@);
    let mut rows: Vec<Row> = Vec::new();
    let mut ri: usize = 0;
    while ri < repos.len()
        invariant
            ri <= repos@.len(),
            c == keys_view(collapsed@),
            rows_view(rows@) == flatten_upto(repos@, ri as int, c),
        decreases repos.len() - ri,
    {
        let repo = &repos[ri];
        let repo_id = RowId::Repo { repo: normalize(repo.path.as_str()) };
        let repo_collapsed = holds(collapsed, &repo_id);
        let ghost before = rows_view(rows@);
        let r = Row { id: repo_id, depth: 0, repo_idx: ri, group_idx: None, file_idx: None };
        proof {
            lemma_push_rows(rows@, r);
        }
        rows.push(r);
        if !repo_collapsed {
            let mut gi: usize = 0;
            while gi < repo.groups.len()
                invariant
                    ri < repos@.len(),
                    repo == repos@[ri as int],
                    !c.contains(repo_key(repos@, ri as int)),
                    c == keys_view(collapsed@),
                    gi <= repo.groups@.len(),
                    rows_view(rows@) == before + seq![RowV { key: repo_key(repos@, ri as int), depth: 0, repo_idx: ri as int, group_idx: None, file_idx: None }]
                        + group_rows(repos@, ri as int, gi as int, c),
                decreases repo.groups.len() - gi,
            {
                let group = &repo.groups[gi];
                let group_id = RowId::Group { repo: normalize(repo.path.as_str()), group: group.kind };
                let group_collapsed = holds(collapsed, &group_id);
                let ghost mid = rows_view(rows@);
                let g = Row {
                    id: group_id,
                    depth: 1,
                    repo_idx: ri,
                    group_idx: Some(gi),
                    file_idx: None,
                };
                proof {
                    lemma_push_rows(rows@, g);
                }
                rows.push(g);
                if !group_collapsed {
                    let mut fi: usize = 0;
                    while fi < group.files.len()
                        invariant
                            ri < repos@.len(),
                            repo == repos@[ri as int],
                            gi < repo.groups@.len(),
                            group == repo.groups@[gi as int],
                            fi <= group.files@.len(),
                            rows_view(rows@) == mid + seq![RowV { key: group_key(repos@, ri as int, gi as int), depth: 1, repo_idx: ri as int, group_idx: Some(gi as int), file_idx: None }]
                                + file_rows(repos@, ri as int, gi as int, fi as int),
                        decreases group.files.len() - fi,
                    {
                        let f = Row {
                            id: RowId::File {
                                repo: normalize(repo.path.as_str()),
                                group: group.kind,
                                path: group.files[fi].path.clone(),
                            },
                            depth: 2,
                            repo_idx: ri,
                            group_idx: Some(gi),
                            file_idx: Some(fi),
                        };
                        proof {
                            lemma_push_rows(rows@, f);
                        }
                        rows.push(f);
                        fi += 1;
                    }
                }
                proof {
                    assert(group_rows(repos@, ri as int, gi + 1, c) == group_rows(repos@, ri as int, gi as int, c)
                        + group_block(repos@, ri as int, gi as int, c));
                }
                assert(rows_view(rows@) =~= before + seq![RowV { key: repo_key(repos@, ri as int), depth: 0, repo_idx: ri as int, group_idx: None, file_idx: None }]
                        + group_rows(repos@, ri as int, gi + 1, c));
                gi += 1;
            }
        }
        assert(rows_view(rows@) =~= flatten_upto(repos@, ri + 1, c));
        ri += 1;
    }
    rows
}

/// `c` with every occurrence of `k` removed.
pub open spec fn remove_key(c: Seq<RowKey>, k: RowKey) -> Seq<RowKey>
    decreases c.len(),
{
    if c.len() == 0 {
        Seq::empty()
    } else if c.last() == k {
        remove_key(c.drop_last(), k)
    } else {
        remove_key(c.drop_last(), k).push(c.last())
    }
}

pub proof fn lemma_remove_key_contains(c: Seq<RowKey>, k: RowKey, x: RowKey)
    ensures
        remove_key(c, k).contains(x) == (c.contains(x) && x != k),
    decreases c.len(),
{
    if c.len() > 0 {
        lemma_remove_key_contains(c.drop_last(), k, x);
        let r = remove_key(c.drop_last(), k);
        if c.last() != k {
            assert(r.push(c.last()).contains(x) == (r.contains(x) || x == c.last())) by {
                if r.push(c.last()).contains(x) {
                    let j = choose|j: int| 0 <= j < r.push(c.last()).len() && r.push(c.last())[j] == x;
                    if j < r.len() {
                        assert(r[j] == x);
                    }
                }
                if r.contains(x) {
                    let j = choose|j: int| 0 <= j < r.len() && r[j] == x;
                    assert(r.push(c.last())[j] == x);
                }
                if x == c.last() {
                    assert(r.push(c.last())[r.len() as int] == x);
                }
            }
        }
        assert(c.contains(x) == (c.drop_last().contains(x) || c.last() == x)) by {
            if c.contains(x) {
                let j = choose|j: int| 0 <= j < c.len() && c[j] == x;
                if j < c.len() - 1 {
                    assert(c.drop_last()[j] == x);
                }
            }
            if c.drop_last().contains(x) {
                let j = choose|j: int| 0 <= j < c.drop_last().len() && c.drop_last()[j] == x;
                assert(c[j] == x);
            }
            if c.last() == x {
                assert(c[c.len() - 1] == x);
            }
        }
    }
}

/// A copy of `c` with every occurrence of `id` removed.
fn remove_id(c: &Vec<RowId>, id: &RowId) -> (r: Vec<RowId>)
    ensures
        keys_view(r@) == remove_key(keys_view(c@), id@),
{
    let mut out: Vec<RowId> = Vec::new();
    let mut i: usize = 0;
    while i < c.len()
        invariant
            i <= c@.len(),
            keys_view(out@) == remove_key(keys_view(c@.take(i as int)), id@),
        decreases c.len() - i,
    {
        assert(keys_view(c@.take(i + 1)) =~= keys_view(c@.take(i as int)).push(c@[i as int]@));
        assert(keys_view(c@.take(i + 1)).drop_last() =~= keys_view(c@.take(i as int)));
        if !c[i].same(id) {
            let d = c[i].duplicate();
            assert(keys_view(out@.push(d)) =~= keys_view(out@).push(d@));
            out.push(d);
        }
        i += 1;
    }
    assert(c@.take(i as int) =~= c@);
    out
}

/// A copy of a list of identities.
fn copy_ids(c: &Vec<RowId>) -> (r: Vec<RowId>)
    ensures
        keys_view(r@) == keys_view(c@),
{
    let mut out: Vec<RowId> = Vec::new();
    let mut i: usize = 0;
    while i < c.len()
        invariant
            i <= c@.len(),
            keys_view(out@) == keys_view(c@.take(i as int)),
        decreases c.len() - i,
    {
        let d = c[i].duplicate();
        assert(keys_view(c@.take(i + 1)) =~= keys_view(c@.take(i as int)).push(c@[i as int]@));
        assert(keys_view(out@.push(d)) =~= keys_view(out@).push(d@));
        out.push(d);
        i += 1;
    }
    assert(c@.take(i as int) =~= c@);
    out
}

/// The index of the first row whose identity is `id`.
fn find_row(rows: &Vec<Row>, id: &RowId) -> (r: Option<usize>)
    ensures
        match r {
            Some(i) => first_pos(rows_view(rows@), id@) == Some(i as int) && i < rows@.len(),
            None => first_pos(rows_view(rows@), id@) is None,
        },
{
    let mut i: usize = 0;
    while i < rows.len()
        invariant
            i <= rows@.len(),
            first_pos(rows_view(rows@.take(i as int)), id@) is None,
        decreases rows.len() - i,
    {
        assert(rows_view(rows@.take(i + 1)).drop_last() =~= rows_view(rows@.take(i as int)));
        if rows[i].id.same(id) {
            proof {
                assert(rows_view(rows@.take(i + 1)).last() == rows@[i as int]@);
                assert(first_pos(rows_view(rows@.take(i + 1)), id@) == Some(i as int));
                assert(rows_view(rows@).take(i + 1) =~= rows_view(rows@.take(i + 1)));
                lemma_first_pos_prefix(rows_view(rows@), (i + 1) as int, id@);
            }
            return Some(i);
        }
        i += 1;
    }
    assert(rows@.take(i as int) =~= rows@);
    None
}

/// The first occurrence within a prefix is the first occurrence overall.
pub proof fn lemma_first_pos_prefix(rows: Seq<RowV>, n: int, k: RowKey)
    requires
        0 <= n <= rows.len(),
        first_pos(rows.take(n), k) is Some,
    ensures
        first_pos(rows, k) == first_pos(rows.take(n), k),
    decreases rows.len(),
{
    if n < rows.len() {
        assert(rows.drop_last().take(n) =~= rows.take(n));
        lemma_first_pos_prefix(rows.drop_last(), n, k);
    } else {
        assert(rows.take(n) =~= rows);
    }
}

/// A position found by [`first_pos`] is in range and holds the identity looked for.
pub proof fn lemma_first_pos_found(rows: Seq<RowV>, k: RowKey)
    requires
        first_pos(rows, k) is Some,
    ensures
        0 <= first_pos(rows, k)->0 < rows.len(),
        rows[first_pos(rows, k)->0].key == k,
    decreases rows.len(),
{
    if rows.len() > 0 {
        match first_pos(rows.drop_last(), k) {
            Some(i) => {
                lemma_first_pos_found(rows.drop_last(), k);
            },
            None => {},
        }
    }
}

// ---- the tree -------------------------------------------------------------------------------

/// The visible rows plus the state that survives a rebuild.
#[derive(Debug)]
pub struct Tree {
    rows: Vec<Row>,
    /// Rows the user has collapsed. Absence means expanded, so a newly discovered repo starts
    /// open.
    collapsed: Vec<RowId>,
    cursor: usize,
}

/// A [`Tree`] as plain values.
pub struct TreeV {
    pub rows: Seq<RowV>,
    pub collapsed: Seq<RowKey>,
    pub cursor: int,
}

impl View for Tree {
    type V = TreeV;

    closed spec fn view(&self) -> TreeV {
        TreeV { rows: rows_view(self.rows@), collapsed: keys_view(self.collapsed@), cursor: self.cursor as int }
    }
}

/// The last valid cursor position for `n` rows (0 when there are none).
pub open spec fn last_index(n: int) -> int {
    if n > 0 {
        n - 1
    } else {
        0
    }
}

pub open spec fn min_int(a: int, b: int) -> int {
    if a < b {
        a
    } else {
        b
    }
}

/// The cursor is on a row, or at 0 when there are none.
pub open spec fn cursor_ok(t: TreeV) -> bool {
    0 <= t.cursor <= last_index(t.rows.len() as int)
}

/// The selected row's identity.
pub open spec fn selected_key(t: TreeV) -> Option<RowKey> {
    if 0 <= t.cursor < t.rows.len() {
        Some(t.rows[t.cursor].key)
    } else {
        None
    }
}

/// Rebuild the rows, restoring the cursor by identity; when the selected row is gone the cursor
/// keeps its index, clamped.
pub open spec fn rebuild_spec(t: TreeV, repos: Seq<RepoEntry>) -> TreeV {
    let rows = flatten_spec(repos, t.collapsed);
    let idx = match selected_key(t) {
        Some(k) => match first_pos(rows, k) {
            Some(i) => i,
            None => t.cursor,
        },
        None => t.cursor,
    };
    TreeV { rows, collapsed: t.collapsed, cursor: min_int(idx, last_index(rows.len() as int)) }
}

/// Whether a row identity is a file row.
pub open spec fn is_file_key(k: RowKey) -> bool {
    k is File
}

/// Expand or collapse the selected repo or group; a file row has no children.
pub open spec fn toggle_spec(t: TreeV, repos: Seq<RepoEntry>) -> TreeV {
    match selected_key(t) {
        Some(k) => if is_file_key(k) {
            t
        } else {
            let c = if t.collapsed.contains(k) {
                remove_key(t.collapsed, k)
            } else {
                t.collapsed.push(k)
            };
            rebuild_spec(TreeV { collapsed: c, ..t }, repos)
        },
        None => t,
    }
}

/// The identities of every repo row and group row of the first `n` repos.
pub open spec fn all_keys_upto(repos: Seq<RepoEntry>, n: int) -> Seq<RowKey>
    decreases n,
{
    if n <= 0 {
        Seq::empty()
    } else {
        all_keys_upto(repos, n - 1) + seq![repo_key(repos, n - 1)] + group_keys(
            repos,
            n - 1,
            repos[n - 1].groups@.len() as int,
        )
    }
}

/// The identities of the first `n` groups of repo `ri`.
pub open spec fn group_keys(repos: Seq<RepoEntry>, ri: int, n: int) -> Seq<RowKey>
    decreases n,
{
    if n <= 0 {
        Seq::empty()
    } else {
        group_keys(repos, ri, n - 1).push(group_key(repos, ri, n - 1))
    }
}

/// Whether the first position of the identity at `j` lies after `here`.
pub open spec fn pos_after(all: Seq<RowV>, j: int, here: int) -> bool {
    match first_pos(all, all[j].key) {
        Some(p) => p > here,
        None => true,
    }
}

/// Whether the first position of the identity at `j` lies before `here`.
pub open spec fn pos_before(all: Seq<RowV>, j: int, here: int) -> bool {
    match first_pos(all, all[j].key) {
        Some(p) => p < here,
        None => false,
    }
}

/// The first file row at or after `j` lying after `here`.
pub open spec fn next_file_from(all: Seq<RowV>, here: int, j: int) -> Option<int>
    decreases all.len() - j,
{
    if j < 0 || j >= all.len() {
        None
    } else if is_file_key(all[j].key) && pos_after(all, j, here) {
        Some(j)
    } else {
        next_file_from(all, here, j + 1)
    }
}

/// The last file row before index `j` lying before `here`.
pub open spec fn prev_file_before(all: Seq<RowV>, here: int, j: int) -> Option<int>
    decreases j,
{
    if j <= 0 || j > all.len() {
        None
    } else if is_file_key(all[j - 1].key) && pos_before(all, j - 1, here) {
        Some(j - 1)
    } else {
        prev_file_before(all, here, j - 1)
    }
}

/// The first file row at or after `j`.
pub open spec fn first_file_from(all: Seq<RowV>, j: int) -> Option<int>
    decreases all.len() - j,
{
    if j < 0 || j >= all.len() {
        None
    } else if is_file_key(all[j].key) {
        Some(j)
    } else {
        first_file_from(all, j + 1)
    }
}

/// The last file row before index `j`.
pub open spec fn last_file_before(all: Seq<RowV>, j: int) -> Option<int>
    decreases j,
{
    if j <= 0 || j > all.len() {
        None
    } else if is_file_key(all[j - 1].key) {
        Some(j - 1)
    } else {
        last_file_before(all, j - 1)
    }
}

/// Where the cursor sits within the fully expanded rows (0 when it cannot be placed there).
pub open spec fn here_in(t: TreeV, all: Seq<RowV>) -> int {
    match selected_key(t) {
        Some(k) => match first_pos(all, k) {
            Some(i) => i,
            None => 0,
        },
        None => 0,
    }
}

/// The file row a jump goes to, as an index into the fully expanded rows: the next (or
/// previous) one relative to the cursor, wrapping; `None` when there are no files.
pub open spec fn jump_target(t: TreeV, repos: Seq<RepoEntry>, forward: bool) -> Option<int> {
    let all = flatten_spec(repos, Seq::empty());
    let here = here_in(t, all);
    if first_file_from(all, 0) is None {
        None
    } else if forward {
        match next_file_from(all, here, 0) {
            Some(j) => Some(j),
            None => first_file_from(all, 0),
        }
    } else {
        match prev_file_before(all, here, all.len() as int) {
            Some(j) => Some(j),
            None => last_file_before(all, all.len() as int),
        }
    }
}

/// How deep a row sits: 0 for a repo, 1 for a group, 2 for a file.
pub open spec fn key_rank(k: RowKey) -> nat {
    match k {
        RowKey::Repo(_) => 0,
        RowKey::Group(_, _) => 1,
        RowKey::File(_, _, _) => 2,
    }
}

/// `c` with every ancestor of the row `k` removed, nearest first.
pub open spec fn expand_for(c: Seq<RowKey>, k: RowKey) -> Seq<RowKey>
    decreases key_rank(k),
{
    match parent_key(k) {
        Some(p) => expand_for(remove_key(c, p), p),
        None => c,
    }
}

/// Move to the next (or previous) changed file across every repo, wrapping, and expand whatever
/// was hiding it.
pub open spec fn jump_spec(t: TreeV, repos: Seq<RepoEntry>, forward: bool) -> TreeV {
    let all = flatten_spec(repos, Seq::empty());
    match jump_target(t, repos, forward) {
        Some(j) => {
            let target = all[j].key;
            let c = expand_for(t.collapsed, target);
            let rows = flatten_spec(repos, c);
            TreeV {
                rows,
                collapsed: c,
                cursor: match first_pos(rows, target) {
                    Some(i) => i,
                    None => t.cursor,
                },
            }
        },
        None => t,
    }
}

impl Tree {
    #[verifier::type_invariant]
    spec fn inv(self) -> bool {
        (self.rows@.len() == 0 && self.cursor == 0) || self.cursor < self.rows@.len()
    }

    pub fn new() -> (t: Tree)
        ensures
            t@.rows.len() == 0,
            t@.collapsed.len() == 0,
            t@.cursor == 0,
    {
        let t = Tree { rows: Vec::new(), collapsed: Vec::new(), cursor: 0 };
        assert(rows_view(t.rows@) =~= Seq::<RowV>::empty());
        assert(keys_view(t.collapsed@) =~= Seq::<RowKey>::empty());
        t
    }

    pub fn rows(&self) -> (r: &[Row])
        ensures
            rows_view(r@) == self@.rows,
    {
        self.rows.as_slice()
    }

    /// The cursor's index. It is always on a row, or 0 when there are none.
    pub fn cursor(&self) -> (r: usize)
        ensures
            r == self@.cursor,
            cursor_ok(self@),
    {
        proof {
            use_type_invariant(self);
        }
        self.cursor
    }

    pub fn selected(&self) -> (r: Option<&Row>)
        ensures
            match r {
                Some(row) => selected_key(self@) == Some(row@.key) && row@ == self@.rows[self@.cursor],
                None => selected_key(self@) is None,
            },
    {
        if self.cursor < self.rows.len() {
            Some(&self.rows[self.cursor])
        } else {
            None
        }
    }

    pub fn is_collapsed(&self, id: &RowId) -> (r: bool)
        ensures
            r == self@.collapsed.contains(id@),
    {
        holds(&self.collapsed, id)
    }

    /// A tree over `collapsed` whose rows are rebuilt from `repos`, restoring the selection of
    /// `prev` (a row identity) or else index `prev_index`, clamped.
    fn rebuilt(
        repos: &[RepoEntry],
        collapsed: Vec<RowId>,
        prev: Option<RowId>,
        prev_index: usize,
    ) -> (t: Tree)
        ensures
            t@.collapsed == keys_view(collapsed@),
            t@.rows == flatten_spec(repos@, keys_view(collapsed@)),
            t@.cursor == min_int(
                match prev {
                    Some(k) => match first_pos(t@.rows, k@) {
                        Some(i) => i,
                        None => prev_index as int,
                    },
                    None => prev_index as int,
                },
                last_index(t@.rows.len() as int),
            ),
    {
        let rows = flatten(repos, &collapsed);
        let idx = match &prev {
            Some(id) => match find_row(&rows, id) {
                Some(i) => i,
                None => prev_index,
            },
            None => prev_index,
        };
        let last = if rows.len() > 0 {
            rows.len() - 1
        } else {
            0
        };
        let cursor = if idx < last {
            idx
        } else {
            last
        };
        Tree { rows, collapsed, cursor }
    }

    /// Rebuild the visible rows from a fresh snapshot, restoring the cursor by identity.
    ///
    /// When the previously selected row is gone, the cursor falls back to the same index,
    /// clamped — the closest thing to "where the user was looking".
    pub fn rebuild(&mut self, repos: &[RepoEntry])
        ensures
            final(self)@ == rebuild_spec(old(self)@, repos@),
    {
        let prev = match self.selected() {
            Some(row) => Some(row.id.duplicate()),
            None => None,
        };
        let collapsed = copy_ids(&self.collapsed);
        let t = Tree::rebuilt(repos, collapsed, prev, self.cursor);
        *self = t;
    }

    pub fn set_cursor(&mut self, index: usize)
        ensures
            final(self)@.rows == old(self)@.rows,
            final(self)@.collapsed == old(self)@.collapsed,
            final(self)@.cursor == min_int(index as int, last_index(old(self)@.rows.len() as int)),
    {
        let last = if self.rows.len() > 0 {
            self.rows.len() - 1
        } else {
            0
        };
        self.cursor = if index < last {
            index
        } else {
            last
        };
    }

    /// Move the cursor, clamping at both ends. Deliberately does NOT wrap.
    pub fn move_cursor(&mut self, delta: isize)
        ensures
            final(self)@.rows == old(self)@.rows,
            final(self)@.collapsed == old(self)@.collapsed,
            final(self)@.cursor == if old(self)@.cursor + delta < 0 {
                0
            } else {
                min_int(old(self)@.cursor + delta, last_index(old(self)@.rows.len() as int))
            },
    {
        proof {
            use_type_invariant(&*self);
        }
        let last: usize = if self.rows.len() > 0 {
            self.rows.len() - 1
        } else {
            0
        };
        let c = self.cursor;
        if delta < 0 {
            let back: usize = if delta == isize::MIN {
                (isize::MAX as usize) + 1
            } else {
                (-delta) as usize
            };
            self.cursor = if back > c {
                0
            } else {
                c - back
            };
        } else {
            let fwd = delta as usize;
            self.cursor = if fwd >= last - c {
                last
            } else {
                c + fwd
            };
        }
    }

    /// Expand or collapse the selected repo or group. A file row has no children, so it is a
    /// no-op.
    pub fn toggle_selected(&mut self, repos: &[RepoEntry])
        ensures
            final(self)@ == toggle_spec(old(self)@, repos@),
    {
        let id = match self.selected() {
            Some(row) => row.id.duplicate(),
            None => {
                return;
            },
        };
        if let RowId::File { .. } = id {
            return;
        }
        let collapsed = if holds(&self.collapsed, &id) {
            remove_id(&self.collapsed, &id)
        } else {
            let mut c = copy_ids(&self.collapsed);
            let d = id.duplicate();
            assert(keys_view(c@.push(d)) =~= keys_view(c@).push(d@));
            c.push(d);
            c
        };
        let t = Tree::rebuilt(repos, collapsed, Some(id), self.cursor);
        *self = t;
    }

    /// Collapse or expand every repo and group at once.
    pub fn set_all_collapsed(&mut self, collapsed: bool, repos: &[RepoEntry])
        ensures
            final(self)@ == rebuild_spec(
                TreeV {
                    collapsed: if collapsed {
                        all_keys_upto(repos@, repos@.len() as int)
                    } else {
                        Seq::empty()
                    },
                    ..old(self)@
                },
                repos@,
            ),
            collapsed ==> forall|ri: int, gi: int|
                0 <= ri < repos@.len() && 0 <= gi < repos@[ri].groups@.len() ==> final(self)@.collapsed.contains(
                    #[trigger] group_key(repos@, ri, gi),
                ),
            collapsed ==> forall|ri: int|
                0 <= ri < repos@.len() ==> final(self)@.collapsed.contains(#[trigger] repo_key(repos@, ri)),
            !collapsed ==> final(self)@.collapsed.len() == 0,
    {
        proof {
            law_collapse_all_collapses_repos_and_groups(self@, repos@);
        }
        let mut c: Vec<RowId> = Vec::new();
        if collapsed {
            let mut ri: usize = 0;
            while ri < repos.len()
                invariant
                    ri <= repos@.len(),
                    keys_view(c@) == all_keys_upto(repos@, ri as int),
                decreases repos.len() - ri,
            {
                let repo = &repos[ri];
                let rid = RowId::Repo { repo: normalize(repo.path.as_str()) };
                assert(keys_view(c@.push(rid)) =~= keys_view(c@).push(rid@));
                c.push(rid);
                let ghost base = keys_view(c@);
                let mut gi: usize = 0;
                while gi < repo.groups.len()
                    invariant
                        ri < repos@.len(),
                        repo == repos@[ri as int],
                        gi <= repo.groups@.len(),
                        keys_view(c@) == base + group_keys(repos@, ri as int, gi as int),
                    decreases repo.groups.len() - gi,
                {
                    let gid = RowId::Group { repo: normalize(repo.path.as_str()), group: repo.groups[gi].kind };
                    assert(keys_view(c@.push(gid)) =~= keys_view(c@).push(gid@));
                    c.push(gid);
                    gi += 1;
                }
                assert(keys_view(c@) =~= all_keys_upto(repos@, ri + 1));
                ri += 1;
            }
        } else {
            assert(keys_view(c@) =~= Seq::<RowKey>::empty());
        }
        let prev = match self.selected() {
            Some(row) => Some(row.id.duplicate()),
            None => None,
        };
        let t = Tree::rebuilt(repos, c, prev, self.cursor);
        *self = t;
    }

    /// Whether every repo is currently collapsed — what the `a` key toggles against.
    pub fn all_collapsed(&self, repos: &[RepoEntry]) -> (r: bool)
        ensures
            r == (repos@.len() > 0 && forall|i: int|
                0 <= i < repos@.len() ==> self@.collapsed.contains(#[trigger] repo_key(repos@, i))),
    {
        if repos.len() == 0 {
            return false;
        }
        let mut i: usize = 0;
        while i < repos.len()
            invariant
                i <= repos@.len(),
                forall|j: int| 0 <= j < i ==> self@.collapsed.contains(#[trigger] repo_key(repos@, j)),
            decreases repos.len() - i,
        {
            let id = RowId::Repo { repo: normalize(repos[i].path.as_str()) };
            if !holds(&self.collapsed, &id) {
                assert(!self@.collapsed.contains(repo_key(repos@, i as int)));
                return false;
            }
            i += 1;
        }
        true
    }

    /// The selected row's diff target: which repo, which baseline, which path.
    pub fn selected_file(&self) -> (r: Option<(String, GroupKind, String)>)
        ensures
            match r {
                Some((repo, group, path)) => selected_key(self@) == Some(
                    RowKey::File(repo@, group, path@),
                ),
                None => selected_key(self@) is None || !is_file_key(selected_key(self@)->0),
            },
    {
        match self.selected() {
            Some(row) => match &row.id {
                RowId::File { repo, group, path } => Some((repo.clone(), *group, path.clone())),
                _ => None,
            },
            None => None,
        }
    }
}


// ---- jumping between changed files ------------------------------------------------------------

/// Whether a row is a file row.
fn is_file_row(r: &Row) -> (b: bool)
    ensures
        b == is_file_key(r@.key),
{
    match r.id {
        RowId::File { .. } => true,
        _ => false,
    }
}

/// The first file row at or after index 0.
fn first_file(all: &Vec<Row>) -> (r: Option<usize>)
    ensures
        match r {
            Some(j) => first_file_from(rows_view(all@), 0) == Some(j as int),
            None => first_file_from(rows_view(all@), 0) is None,
        },
{
    let ghost v = rows_view(all@);
    let mut j: usize = 0;
    while j < all.len()
        invariant
            j <= all@.len(),
            v == rows_view(all@),
            first_file_from(v, 0) == first_file_from(v, j as int),
        decreases all.len() - j,
    {
        if is_file_row(&all[j]) {
            return Some(j);
        }
        j += 1;
    }
    None
}

/// The last file row before the end.
fn last_file(all: &Vec<Row>) -> (r: Option<usize>)
    ensures
        match r {
            Some(j) => last_file_before(rows_view(all@), all@.len() as int) == Some(j as int),
            None => last_file_before(rows_view(all@), all@.len() as int) is None,
        },
{
    let ghost v = rows_view(all@);
    let mut j: usize = all.len();
    while j > 0
        invariant
            j <= all@.len(),
            v == rows_view(all@),
            last_file_before(v, all@.len() as int) == last_file_before(v, j as int),
        decreases j,
    {
        if is_file_row(&all[j - 1]) {
            return Some(j - 1);
        }
        j -= 1;
    }
    None
}

/// The first file row lying after `here`.
fn next_file_after(all: &Vec<Row>, here: usize) -> (r: Option<usize>)
    ensures
        match r {
            Some(j) => next_file_from(rows_view(all@), here as int, 0) == Some(j as int),
            None => next_file_from(rows_view(all@), here as int, 0) is None,
        },
{
    let ghost v = rows_view(all@);
    let mut j: usize = 0;
    while j < all.len()
        invariant
            j <= all@.len(),
            v == rows_view(all@),
            next_file_from(v, here as int, 0) == next_file_from(v, here as int, j as int),
        decreases all.len() - j,
    {
        if is_file_row(&all[j]) {
            let after = match find_row(all, &all[j].id) {
                Some(p) => p > here,
                None => true,
            };
            if after {
                return Some(j);
            }
        }
        j += 1;
    }
    None
}

/// The last file row lying before `here`.
fn prev_file_before_here(all: &Vec<Row>, here: usize) -> (r: Option<usize>)
    ensures
        match r {
            Some(j) => prev_file_before(rows_view(all@), here as int, all@.len() as int) == Some(j as int),
            None => prev_file_before(rows_view(all@), here as int, all@.len() as int) is None,
        },
{
    let ghost v = rows_view(all@);
    let mut j: usize = all.len();
    while j > 0
        invariant
            j <= all@.len(),
            v == rows_view(all@),
            prev_file_before(v, here as int, all@.len() as int) == prev_file_before(v, here as int, j as int),
        decreases j,
    {
        if is_file_row(&all[j - 1]) {
            let before = match find_row(all, &all[j - 1].id) {
                Some(p) => p < here,
                None => false,
            };
            if before {
                return Some(j - 1);
            }
        }
        j -= 1;
    }
    None
}

// ---- what the flattening holds ----------------------------------------------------------------

/// A file row names the file its indices point at.
pub open spec fn row_ok(repos: Seq<RepoEntry>, r: RowV) -> bool {
    is_file_key(r.key) ==> {
        &&& r.group_idx is Some
        &&& r.file_idx is Some
        &&& 0 <= r.repo_idx < repos.len()
        &&& 0 <= r.group_idx->0 < repos[r.repo_idx].groups@.len()
        &&& 0 <= r.file_idx->0 < repos[r.repo_idx].groups@[r.group_idx->0].files@.len()
        &&& r.key == file_key(repos, r.repo_idx, r.group_idx->0, r.file_idx->0)
    }
}

pub open spec fn all_ok(repos: Seq<RepoEntry>, rows: Seq<RowV>) -> bool {
    forall|i: int| 0 <= i < rows.len() ==> row_ok(repos, #[trigger] rows[i])
}

/// Whether some row of `rows` has identity `k`.
pub open spec fn has_key(rows: Seq<RowV>, k: RowKey) -> bool {
    exists|i: int| 0 <= i < rows.len() && #[trigger] rows[i].key == k
}

proof fn lemma_all_ok_add(repos: Seq<RepoEntry>, a: Seq<RowV>, b: Seq<RowV>)
    requires
        all_ok(repos, a),
        all_ok(repos, b),
    ensures
        all_ok(repos, a + b),
{
    assert forall|i: int| 0 <= i < (a + b).len() implies row_ok(repos, #[trigger] (a + b)[i]) by {
        if i < a.len() {
            assert((a + b)[i] == a[i]);
        } else {
            assert((a + b)[i] == b[i - a.len()]);
        }
    }
}

proof fn lemma_has_key_add(a: Seq<RowV>, b: Seq<RowV>, k: RowKey)
    requires
        has_key(a, k) || has_key(b, k),
    ensures
        has_key(a + b, k),
{
    if has_key(a, k) {
        let i = choose|i: int| 0 <= i < a.len() && #[trigger] a[i].key == k;
        assert((a + b)[i].key == k);
    } else {
        let i = choose|i: int| 0 <= i < b.len() && #[trigger] b[i].key == k;
        assert((a + b)[a.len() + i].key == k);
    }
}

proof fn lemma_file_rows(repos: Seq<RepoEntry>, ri: int, gi: int, n: int)
    requires
        0 <= ri < repos.len(),
        0 <= gi < repos[ri].groups@.len(),
        0 <= n <= repos[ri].groups@[gi].files@.len(),
    ensures
        file_rows(repos, ri, gi, n).len() == n,
        all_ok(repos, file_rows(repos, ri, gi, n)),
        forall|i: int| 0 <= i < n ==> #[trigger] file_rows(repos, ri, gi, n)[i].key == file_key(repos, ri, gi, i),
    decreases n,
{
    if n > 0 {
        lemma_file_rows(repos, ri, gi, n - 1);
        let prev = file_rows(repos, ri, gi, n - 1);
        let cur = file_rows(repos, ri, gi, n);
        assert forall|i: int| 0 <= i < n implies #[trigger] cur[i].key == file_key(repos, ri, gi, i) by {
            if i < n - 1 {
                assert(cur[i] == prev[i]);
            }
        }
        assert forall|i: int| 0 <= i < cur.len() implies row_ok(repos, #[trigger] cur[i]) by {
            if i < n - 1 {
                assert(cur[i] == prev[i]);
            }
        }
    }
}

proof fn lemma_group_rows_ok(repos: Seq<RepoEntry>, ri: int, n: int, c: Seq<RowKey>)
    requires
        0 <= ri < repos.len(),
        0 <= n <= repos[ri].groups@.len(),
    ensures
        all_ok(repos, group_rows(repos, ri, n, c)),
    decreases n,
{
    if n > 0 {
        lemma_group_rows_ok(repos, ri, n - 1, c);
        let head = seq![RowV { key: group_key(repos, ri, n - 1), depth: 1, repo_idx: ri, group_idx: Some(n - 1), file_idx: None }];
        assert(all_ok(repos, head)) by {
            assert forall|i: int| 0 <= i < head.len() implies row_ok(repos, #[trigger] head[i]) by {
                assert(head[i].key == group_key(repos, ri, n - 1));
            }
        }
        let tail = if c.contains(group_key(repos, ri, n - 1)) {
            Seq::empty()
        } else {
            file_rows(repos, ri, n - 1, repos[ri].groups@[n - 1].files@.len() as int)
        };
        lemma_file_rows(repos, ri, n - 1, repos[ri].groups@[n - 1].files@.len() as int);
        assert(all_ok(repos, tail));
        lemma_all_ok_add(repos, head, tail);
        assert(group_block(repos, ri, n - 1, c) == head + tail);
        lemma_all_ok_add(repos, group_rows(repos, ri, n - 1, c), group_block(repos, ri, n - 1, c));
    }
}

proof fn lemma_flatten_ok(repos: Seq<RepoEntry>, n: int, c: Seq<RowKey>)
    requires
        0 <= n <= repos.len(),
    ensures
        all_ok(repos, flatten_upto(repos, n, c)),
    decreases n,
{
    if n > 0 {
        lemma_flatten_ok(repos, n - 1, c);
        let head = seq![RowV { key: repo_key(repos, n - 1), depth: 0, repo_idx: n - 1, group_idx: None, file_idx: None }];
        assert(all_ok(repos, head)) by {
            assert forall|i: int| 0 <= i < head.len() implies row_ok(repos, #[trigger] head[i]) by {
                assert(head[i].key == repo_key(repos, n - 1));
            }
        }
        let tail = if c.contains(repo_key(repos, n - 1)) {
            Seq::empty()
        } else {
            group_rows(repos, n - 1, repos[n - 1].groups@.len() as int, c)
        };
        lemma_group_rows_ok(repos, n - 1, repos[n - 1].groups@.len() as int, c);
        assert(all_ok(repos, tail));
        lemma_all_ok_add(repos, head, tail);
        assert(repo_block(repos, n - 1, c) == head + tail);
        lemma_all_ok_add(repos, flatten_upto(repos, n - 1, c), repo_block(repos, n - 1, c));
    }
}

proof fn lemma_group_rows_has(repos: Seq<RepoEntry>, ri: int, n: int, c: Seq<RowKey>, gi: int, fi: int)
    requires
        0 <= ri < repos.len(),
        0 <= gi < n <= repos[ri].groups@.len(),
        0 <= fi < repos[ri].groups@[gi].files@.len(),
        !c.contains(group_key(repos, ri, gi)),
    ensures
        has_key(group_rows(repos, ri, n, c), file_key(repos, ri, gi, fi)),
    decreases n,
{
    let k = file_key(repos, ri, gi, fi);
    if gi < n - 1 {
        lemma_group_rows_has(repos, ri, n - 1, c, gi, fi);
        lemma_has_key_add(group_rows(repos, ri, n - 1, c), group_block(repos, ri, n - 1, c), k);
    } else {
        let head = seq![RowV { key: group_key(repos, ri, gi), depth: 1, repo_idx: ri, group_idx: Some(gi), file_idx: None }];
        let files = file_rows(repos, ri, gi, repos[ri].groups@[gi].files@.len() as int);
        lemma_file_rows(repos, ri, gi, repos[ri].groups@[gi].files@.len() as int);
        assert(files[fi].key == k);
        lemma_has_key_add(head, files, k);
        assert(group_block(repos, ri, gi, c) == head + files);
        lemma_has_key_add(group_rows(repos, ri, n - 1, c), group_block(repos, ri, n - 1, c), k);
    }
}

proof fn lemma_flatten_has(repos: Seq<RepoEntry>, n: int, c: Seq<RowKey>, ri: int, gi: int, fi: int)
    requires
        0 <= ri < n <= repos.len(),
        0 <= gi < repos[ri].groups@.len(),
        0 <= fi < repos[ri].groups@[gi].files@.len(),
        !c.contains(repo_key(repos, ri)),
        !c.contains(group_key(repos, ri, gi)),
    ensures
        has_key(flatten_upto(repos, n, c), file_key(repos, ri, gi, fi)),
    decreases n,
{
    let k = file_key(repos, ri, gi, fi);
    if ri < n - 1 {
        lemma_flatten_has(repos, n - 1, c, ri, gi, fi);
        lemma_has_key_add(flatten_upto(repos, n - 1, c), repo_block(repos, n - 1, c), k);
    } else {
        let head = seq![RowV { key: repo_key(repos, ri), depth: 0, repo_idx: ri, group_idx: None, file_idx: None }];
        let groups = group_rows(repos, ri, repos[ri].groups@.len() as int, c);
        lemma_group_rows_has(repos, ri, repos[ri].groups@.len() as int, c, gi, fi);
        lemma_has_key_add(head, groups, k);
        assert(repo_block(repos, ri, c) == head + groups);
        lemma_has_key_add(flatten_upto(repos, n - 1, c), repo_block(repos, n - 1, c), k);
    }
}

/// A row identity that occurs in `rows` has a first position.
pub proof fn lemma_first_pos_exists(rows: Seq<RowV>, k: RowKey)
    requires
        has_key(rows, k),
    ensures
        first_pos(rows, k) is Some,
    decreases rows.len(),
{
    let i = choose|i: int| 0 <= i < rows.len() && #[trigger] rows[i].key == k;
    if i < rows.len() - 1 {
        assert(rows.drop_last()[i].key == k);
        lemma_first_pos_exists(rows.drop_last(), k);
    }
}

proof fn lemma_expand_file(c: Seq<RowKey>, r: Seq<char>, g: GroupKind, p: Seq<char>)
    ensures
        !expand_for(c, RowKey::File(r, g, p)).contains(RowKey::Group(r, g)),
        !expand_for(c, RowKey::File(r, g, p)).contains(RowKey::Repo(r)),
{
    let c1 = remove_key(c, RowKey::Group(r, g));
    let c2 = remove_key(c1, RowKey::Repo(r));
    assert(expand_for(c, RowKey::File(r, g, p)) == expand_for(c1, RowKey::Group(r, g)));
    assert(expand_for(c1, RowKey::Group(r, g)) == expand_for(c2, RowKey::Repo(r)));
    lemma_remove_key_contains(c, RowKey::Group(r, g), RowKey::Group(r, g));
    lemma_remove_key_contains(c1, RowKey::Repo(r), RowKey::Group(r, g));
    lemma_remove_key_contains(c1, RowKey::Repo(r), RowKey::Repo(r));
}

/// Every file row of the fully expanded rows is visible once its ancestors are expanded.
proof fn lemma_file_visible(repos: Seq<RepoEntry>, c: Seq<RowKey>, j: int)
    requires
        0 <= j < flatten_spec(repos, Seq::empty()).len(),
        is_file_key(flatten_spec(repos, Seq::empty())[j].key),
    ensures
        has_key(
            flatten_spec(repos, expand_for(c, flatten_spec(repos, Seq::empty())[j].key)),
            flatten_spec(repos, Seq::empty())[j].key,
        ),
{
    let all = flatten_spec(repos, Seq::empty());
    lemma_flatten_ok(repos, repos.len() as int, Seq::empty());
    assert(row_ok(repos, all[j]));
    let r = all[j];
    let ri = r.repo_idx;
    let gi = r.group_idx->0;
    let fi = r.file_idx->0;
    let k = file_key(repos, ri, gi, fi);
    lemma_expand_file(c, norm_path(repos[ri].path@), repos[ri].groups@[gi].kind, repos[ri].groups@[gi].files@[fi].path@);
    lemma_flatten_has(repos, repos.len() as int, expand_for(c, k), ri, gi, fi);
}

proof fn lemma_first_file_found(all: Seq<RowV>, j: int)
    requires
        first_file_from(all, j) is Some,
    ensures
        0 <= first_file_from(all, j)->0 < all.len(),
        is_file_key(all[first_file_from(all, j)->0].key),
    decreases all.len() - j,
{
    if 0 <= j < all.len() && !is_file_key(all[j].key) {
        lemma_first_file_found(all, j + 1);
    }
}

proof fn lemma_last_file_found(all: Seq<RowV>, j: int)
    requires
        last_file_before(all, j) is Some,
    ensures
        0 <= last_file_before(all, j)->0 < all.len(),
        is_file_key(all[last_file_before(all, j)->0].key),
    decreases j,
{
    if 0 < j <= all.len() && !is_file_key(all[j - 1].key) {
        lemma_last_file_found(all, j - 1);
    }
}

proof fn lemma_next_file_found(all: Seq<RowV>, here: int, j: int)
    requires
        next_file_from(all, here, j) is Some,
    ensures
        0 <= next_file_from(all, here, j)->0 < all.len(),
        is_file_key(all[next_file_from(all, here, j)->0].key),
    decreases all.len() - j,
{
    if 0 <= j < all.len() && !(is_file_key(all[j].key) && pos_after(all, j, here)) {
        lemma_next_file_found(all, here, j + 1);
    }
}

proof fn lemma_prev_file_found(all: Seq<RowV>, here: int, j: int)
    requires
        prev_file_before(all, here, j) is Some,
    ensures
        0 <= prev_file_before(all, here, j)->0 < all.len(),
        is_file_key(all[prev_file_before(all, here, j)->0].key),
    decreases j,
{
    if 0 < j <= all.len() && !(is_file_key(all[j - 1].key) && pos_before(all, j - 1, here)) {
        lemma_prev_file_found(all, here, j - 1);
    }
}

/// A jump's target, when there is one, is a file row of the fully expanded rows.
proof fn lemma_jump_target_is_file(t: TreeV, repos: Seq<RepoEntry>, forward: bool)
    requires
        jump_target(t, repos, forward) is Some,
    ensures
        0 <= jump_target(t, repos, forward)->0 < flatten_spec(repos, Seq::empty()).len(),
        is_file_key(flatten_spec(repos, Seq::empty())[jump_target(t, repos, forward)->0].key),
{
    let all = flatten_spec(repos, Seq::empty());
    let here = here_in(t, all);
    if forward {
        if next_file_from(all, here, 0) is Some {
            lemma_next_file_found(all, here, 0);
        } else {
            lemma_first_file_found(all, 0);
        }
    } else {
        if prev_file_before(all, here, all.len() as int) is Some {
            lemma_prev_file_found(all, here, all.len() as int);
        } else {
            lemma_last_file_found(all, all.len() as int);
        }
    }
}

/// Two collapsed sets that hold the same rows.
pub open spec fn same_members(a: Seq<RowKey>, b: Seq<RowKey>) -> bool {
    forall|x: RowKey| a.contains(x) == b.contains(x)
}

/// `b` holds what `a` holds, except that `k` is held by exactly one of them.
pub open spec fn flipped_at(a: Seq<RowKey>, b: Seq<RowKey>, k: RowKey) -> bool {
    &&& b.contains(k) == !a.contains(k)
    &&& forall|x: RowKey| x != k ==> a.contains(x) == b.contains(x)
}

proof fn lemma_file_rows_keys(repos: Seq<RepoEntry>, ri: int, gi: int, n: int, j: int)
    requires
        0 <= j < file_rows(repos, ri, gi, n).len(),
    ensures
        is_file_key(file_rows(repos, ri, gi, n)[j].key),
    decreases n,
{
    if n > 0 && j < file_rows(repos, ri, gi, n - 1).len() {
        lemma_file_rows_keys(repos, ri, gi, n - 1, j);
    }
}

proof fn lemma_group_rows_same(repos: Seq<RepoEntry>, ri: int, n: int, a: Seq<RowKey>, b: Seq<RowKey>)
    requires
        same_members(a, b),
    ensures
        group_rows(repos, ri, n, a) == group_rows(repos, ri, n, b),
    decreases n,
{
    if n > 0 {
        lemma_group_rows_same(repos, ri, n - 1, a, b);
        assert(a.contains(group_key(repos, ri, n - 1)) == b.contains(group_key(repos, ri, n - 1)));
    }
}

proof fn lemma_flatten_same(repos: Seq<RepoEntry>, n: int, a: Seq<RowKey>, b: Seq<RowKey>)
    requires
        same_members(a, b),
    ensures
        flatten_upto(repos, n, a) == flatten_upto(repos, n, b),
    decreases n,
{
    if n > 0 {
        lemma_flatten_same(repos, n - 1, a, b);
        assert(a.contains(repo_key(repos, n - 1)) == b.contains(repo_key(repos, n - 1)));
        lemma_group_rows_same(repos, n - 1, repos[n - 1].groups@.len() as int, a, b);
    }
}

proof fn lemma_has_key_split(a: Seq<RowV>, b: Seq<RowV>, k: RowKey)
    requires
        has_key(a + b, k),
    ensures
        has_key(a, k) || has_key(b, k),
{
    let i = choose|i: int| 0 <= i < (a + b).len() && #[trigger] (a + b)[i].key == k;
    if i < a.len() {
        assert(a[i].key == k);
    } else {
        assert(b[i - a.len()].key == k);
    }
}

proof fn lemma_group_rows_keep(repos: Seq<RepoEntry>, ri: int, n: int, a: Seq<RowKey>, b: Seq<RowKey>, k: RowKey)
    requires
        !is_file_key(k),
        has_key(group_rows(repos, ri, n, a), k),
    ensures
        has_key(group_rows(repos, ri, n, b), k),
    decreases n,
{
    if n > 0 {
        let head = seq![RowV { key: group_key(repos, ri, n - 1), depth: 1, repo_idx: ri, group_idx: Some(n - 1), file_idx: None }];
        let files = file_rows(repos, ri, n - 1, repos[ri].groups@[n - 1].files@.len() as int);
        lemma_has_key_split(group_rows(repos, ri, n - 1, a), group_block(repos, ri, n - 1, a), k);
        if has_key(group_rows(repos, ri, n - 1, a), k) {
            lemma_group_rows_keep(repos, ri, n - 1, a, b, k);
        } else {
            let tail_a = if a.contains(group_key(repos, ri, n - 1)) {
                Seq::empty()
            } else {
                files
            };
            assert(group_block(repos, ri, n - 1, a) == head + tail_a);
            lemma_has_key_split(head, tail_a, k);
            if has_key(tail_a, k) {
                let j = choose|j: int| 0 <= j < tail_a.len() && #[trigger] tail_a[j].key == k;
                lemma_file_rows_keys(repos, ri, n - 1, repos[ri].groups@[n - 1].files@.len() as int, j);
            }
            assert(head[0].key == k);
            let tail_b = if b.contains(group_key(repos, ri, n - 1)) {
                Seq::empty()
            } else {
                files
            };
            assert(group_block(repos, ri, n - 1, b) == head + tail_b);
            lemma_has_key_add(head, tail_b, k);
        }
        lemma_has_key_add(group_rows(repos, ri, n - 1, b), group_block(repos, ri, n - 1, b), k);
    }
}

proof fn lemma_flatten_keep(repos: Seq<RepoEntry>, n: int, a: Seq<RowKey>, b: Seq<RowKey>, k: RowKey)
    requires
        !is_file_key(k),
        flipped_at(a, b, k) || same_members(a, b),
        has_key(flatten_upto(repos, n, a), k),
    ensures
        has_key(flatten_upto(repos, n, b), k),
    decreases n,
{
    if n > 0 {
        let head = seq![RowV { key: repo_key(repos, n - 1), depth: 0, repo_idx: n - 1, group_idx: None, file_idx: None }];
        let g = repos[n - 1].groups@.len() as int;
        lemma_has_key_split(flatten_upto(repos, n - 1, a), repo_block(repos, n - 1, a), k);
        if has_key(flatten_upto(repos, n - 1, a), k) {
            lemma_flatten_keep(repos, n - 1, a, b, k);
        } else {
            let tail_a = if a.contains(repo_key(repos, n - 1)) {
                Seq::empty()
            } else {
                group_rows(repos, n - 1, g, a)
            };
            assert(repo_block(repos, n - 1, a) == head + tail_a);
            lemma_has_key_split(head, tail_a, k);
            let tail_b = if b.contains(repo_key(repos, n - 1)) {
                Seq::empty()
            } else {
                group_rows(repos, n - 1, g, b)
            };
            assert(repo_block(repos, n - 1, b) == head + tail_b);
            if has_key(head, k) {
                assert(head[0].key == k);
                lemma_has_key_add(head, tail_b, k);
            } else {
                assert(!a.contains(repo_key(repos, n - 1)));
                let j = choose|j: int| 0 <= j < tail_a.len() && #[trigger] tail_a[j].key == k;
                if k == repo_key(repos, n - 1) {
                    lemma_group_rows_keys(repos, n - 1, g, a, j);
                }
                assert(!b.contains(repo_key(repos, n - 1)));
                lemma_group_rows_keep(repos, n - 1, g, a, b, k);
                lemma_has_key_add(head, tail_b, k);
            }
        }
        lemma_has_key_add(flatten_upto(repos, n - 1, b), repo_block(repos, n - 1, b), k);
    }
}

/// No row of a repo's group blocks has the repo's own identity.
proof fn lemma_group_rows_keys(repos: Seq<RepoEntry>, ri: int, n: int, c: Seq<RowKey>, j: int)
    requires
        0 <= j < group_rows(repos, ri, n, c).len(),
    ensures
        group_rows(repos, ri, n, c)[j].key != repo_key(repos, ri),
    decreases n,
{
    if n > 0 {
        let prev = group_rows(repos, ri, n - 1, c);
        let blk = group_block(repos, ri, n - 1, c);
        if j < prev.len() {
            assert(group_rows(repos, ri, n, c)[j] == prev[j]);
            lemma_group_rows_keys(repos, ri, n - 1, c, j);
        } else {
            assert(group_rows(repos, ri, n, c)[j] == blk[j - prev.len()]);
            if j - prev.len() > 0 {
                let files = file_rows(repos, ri, n - 1, repos[ri].groups@[n - 1].files@.len() as int);
                lemma_file_rows_keys(repos, ri, n - 1, repos[ri].groups@[n - 1].files@.len() as int, j - prev.len() - 1);
                assert(blk[j - prev.len()] == files[j - prev.len() - 1]);
            }
        }
    }
}

/// Law: toggling the selected row flips whether that row is collapsed and nothing else; a file
/// row is left alone. Toggling twice restores the rows, the cursor and every row's collapsed
/// state, whenever the rows are those of the collapsed set and the cursor is on the first row of
/// its identity.
pub proof fn law_toggle_twice_restores(t: TreeV, repos: Seq<RepoEntry>)
    requires
        t.rows == flatten_spec(repos, t.collapsed),
        0 <= t.cursor < t.rows.len(),
        first_pos(t.rows, t.rows[t.cursor].key) == Some(t.cursor),
    ensures
        is_file_key(t.rows[t.cursor].key) ==> toggle_spec(t, repos) == t,
        !is_file_key(t.rows[t.cursor].key) ==> {
            &&& flipped_at(t.collapsed, toggle_spec(t, repos).collapsed, t.rows[t.cursor].key)
            &&& toggle_spec(toggle_spec(t, repos), repos).rows == t.rows
            &&& toggle_spec(toggle_spec(t, repos), repos).cursor == t.cursor
            &&& same_members(toggle_spec(toggle_spec(t, repos), repos).collapsed, t.collapsed)
        },
{
    let k = t.rows[t.cursor].key;
    if !is_file_key(k) {
        let c = t.collapsed;
        let c1 = if c.contains(k) {
            remove_key(c, k)
        } else {
            c.push(k)
        };
        assert forall|x: RowKey| #[trigger] c1.contains(x) == (if x == k { !c.contains(k) } else { c.contains(x) }) by {
            if c.contains(k) {
                lemma_remove_key_contains(c, k, x);
            } else {
                assert(c.push(k).contains(x) == (c.contains(x) || x == k)) by {
                    if x == k {
                        assert(c.push(k)[c.len() as int] == k);
                    }
                    if c.push(k).contains(x) && x != k {
                        let i = choose|i: int| 0 <= i < c.push(k).len() && c.push(k)[i] == x;
                        assert(c[i] == x);
                    }
                    if c.contains(x) {
                        let i = choose|i: int| 0 <= i < c.len() && c[i] == x;
                        assert(c.push(k)[i] == x);
                    }
                }
            }
        }
        let t1 = toggle_spec(t, repos);
        assert(t1 == rebuild_spec(TreeV { collapsed: c1, ..t }, repos));
        let rows1 = flatten_spec(repos, c1);
        assert(has_key(t.rows, k));
        lemma_flatten_keep(repos, repos.len() as int, c, c1, k);
        lemma_first_pos_exists(rows1, k);
        lemma_first_pos_found(rows1, k);
        let i1 = first_pos(rows1, k)->0;
        assert(t1.rows == rows1 && t1.cursor == i1 && t1.collapsed == c1);
        assert(selected_key(t1) == Some(k));
        let c2 = if c1.contains(k) {
            remove_key(c1, k)
        } else {
            c1.push(k)
        };
        assert forall|x: RowKey| #[trigger] c2.contains(x) == c.contains(x) by {
            if c1.contains(k) {
                lemma_remove_key_contains(c1, k, x);
            } else {
                assert(c1.push(k).contains(x) == (c1.contains(x) || x == k)) by {
                    if x == k {
                        assert(c1.push(k)[c1.len() as int] == k);
                    }
                    if c1.push(k).contains(x) && x != k {
                        let i = choose|i: int| 0 <= i < c1.push(k).len() && c1.push(k)[i] == x;
                        assert(c1[i] == x);
                    }
                    if c1.contains(x) {
                        let i = choose|i: int| 0 <= i < c1.len() && c1[i] == x;
                        assert(c1.push(k)[i] == x);
                    }
                }
            }
            assert(c1.contains(x) == (if x == k { !c.contains(k) } else { c.contains(x) }));
        }
        assert(toggle_spec(t1, repos) == rebuild_spec(TreeV { collapsed: c2, ..t1 }, repos));
        lemma_flatten_same(repos, repos.len() as int, c2, c);
        assert(flatten_spec(repos, c2) == t.rows);
    }
}

/// Law: wherever the cursor is, a jump over a snapshot that has at least one changed file
/// lands the cursor on a file row, and that row is the jump's target.
pub proof fn law_jump_lands_on_a_file(t: TreeV, repos: Seq<RepoEntry>, forward: bool)
    requires
        exists|i: int|
            0 <= i < flatten_spec(repos, Seq::empty()).len() && is_file_key(
                #[trigger] flatten_spec(repos, Seq::empty())[i].key,
            ),
    ensures
        jump_target(t, repos, forward) is Some,
        selected_key(jump_spec(t, repos, forward)) == Some(
            flatten_spec(repos, Seq::empty())[jump_target(t, repos, forward)->0].key,
        ),
        is_file_key(selected_key(jump_spec(t, repos, forward))->0),
{
    let all = flatten_spec(repos, Seq::empty());
    let i = choose|i: int| 0 <= i < all.len() && is_file_key(#[trigger] all[i].key);
    lemma_first_file_exists(all, 0, i);
    lemma_last_file_exists(all, all.len() as int, i);
    lemma_jump_target_is_file(t, repos, forward);
    let j = jump_target(t, repos, forward)->0;
    let target = all[j].key;
    lemma_file_visible(repos, t.collapsed, j);
    let rows = flatten_spec(repos, expand_for(t.collapsed, target));
    lemma_first_pos_exists(rows, target);
    lemma_first_pos_found(rows, target);
}

proof fn lemma_first_file_exists(all: Seq<RowV>, j: int, i: int)
    requires
        0 <= j <= i < all.len(),
        is_file_key(all[i].key),
    ensures
        first_file_from(all, j) is Some,
    decreases i - j,
{
    if !is_file_key(all[j].key) {
        lemma_first_file_exists(all, j + 1, i);
    }
}

proof fn lemma_last_file_exists(all: Seq<RowV>, j: int, i: int)
    requires
        0 <= i < j <= all.len(),
        is_file_key(all[i].key),
    ensures
        last_file_before(all, j) is Some,
    decreases j - i,
{
    if !is_file_key(all[j - 1].key) {
        lemma_last_file_exists(all, j - 1, i);
    }
}

/// Law: a rebuild keeps the cursor on the selected row whenever that row is still present.
pub proof fn law_rebuild_keeps_selection(t: TreeV, repos: Seq<RepoEntry>)
    requires
        selected_key(t) is Some,
        has_key(flatten_spec(repos, t.collapsed), selected_key(t)->0),
    ensures
        selected_key(rebuild_spec(t, repos)) == selected_key(t),
{
    let rows = flatten_spec(repos, t.collapsed);
    let k = selected_key(t)->0;
    lemma_first_pos_exists(rows, k);
    lemma_first_pos_found(rows, k);
}

/// Law: after collapsing everything, every repo of the snapshot counts as collapsed, so
/// [`Tree::all_collapsed`] reports `true` for a non-empty snapshot.
pub proof fn law_collapse_all_covers_every_repo(repos: Seq<RepoEntry>)
    ensures
        forall|i: int|
            0 <= i < repos.len() ==> all_keys_upto(repos, repos.len() as int).contains(
                #[trigger] repo_key(repos, i),
            ),
{
    assert forall|i: int| 0 <= i < repos.len() implies all_keys_upto(
        repos,
        repos.len() as int,
    ).contains(#[trigger] repo_key(repos, i)) by {
        lemma_all_keys_has_repo(repos, repos.len() as int, i);
    }
}

proof fn lemma_all_keys_has_repo(repos: Seq<RepoEntry>, n: int, i: int)
    requires
        0 <= i < n <= repos.len(),
    ensures
        all_keys_upto(repos, n).contains(repo_key(repos, i)),
    decreases n,
{
    let prev = all_keys_upto(repos, n - 1);
    let mid = prev + seq![repo_key(repos, n - 1)];
    let all = mid + group_keys(repos, n - 1, repos[n - 1].groups@.len() as int);
    if i < n - 1 {
        lemma_all_keys_has_repo(repos, n - 1, i);
        let j = choose|j: int| 0 <= j < prev.len() && prev[j] == repo_key(repos, i);
        assert(all[j] == repo_key(repos, i));
    } else {
        assert(all[prev.len() as int] == repo_key(repos, i));
    }
}

proof fn lemma_group_keys_has(repos: Seq<RepoEntry>, ri: int, n: int, gi: int)
    requires
        0 <= gi < n,
    ensures
        group_keys(repos, ri, n).contains(group_key(repos, ri, gi)),
    decreases n,
{
    let prev = group_keys(repos, ri, n - 1);
    if gi < n - 1 {
        lemma_group_keys_has(repos, ri, n - 1, gi);
        let j = choose|j: int| 0 <= j < prev.len() && prev[j] == group_key(repos, ri, gi);
        assert(group_keys(repos, ri, n)[j] == group_key(repos, ri, gi));
    } else {
        assert(group_keys(repos, ri, n)[prev.len() as int] == group_key(repos, ri, gi));
    }
}

proof fn lemma_all_keys_has_group(repos: Seq<RepoEntry>, n: int, i: int, gi: int)
    requires
        0 <= i < n <= repos.len(),
        0 <= gi < repos[i].groups@.len(),
    ensures
        all_keys_upto(repos, n).contains(group_key(repos, i, gi)),
    decreases n,
{
    let prev = all_keys_upto(repos, n - 1);
    let mid = prev + seq![repo_key(repos, n - 1)];
    let gk = group_keys(repos, n - 1, repos[n - 1].groups@.len() as int);
    let all = mid + gk;
    assert(all_keys_upto(repos, n) == all);
    if i < n - 1 {
        lemma_all_keys_has_group(repos, n - 1, i, gi);
        let j = choose|j: int| 0 <= j < prev.len() && prev[j] == group_key(repos, i, gi);
        assert(all[j] == group_key(repos, i, gi));
    } else {
        lemma_group_keys_has(repos, n - 1, repos[n - 1].groups@.len() as int, gi);
        let j = choose|j: int| 0 <= j < gk.len() && gk[j] == group_key(repos, i, gi);
        assert(all[mid.len() + j] == group_key(repos, i, gi));
    }
}

/// Law: collapse-all collapses every repo row and every group row of every repo, so expanding a
/// repo afterwards shows its groups still collapsed; expand-all leaves nothing collapsed.
pub proof fn law_collapse_all_collapses_repos_and_groups(t: TreeV, repos: Seq<RepoEntry>)
    ensures
        forall|ri: int|
            0 <= ri < repos.len() ==> rebuild_spec(
                TreeV { collapsed: all_keys_upto(repos, repos.len() as int), ..t },
                repos,
            ).collapsed.contains(#[trigger] repo_key(repos, ri)),
        forall|ri: int, gi: int|
            0 <= ri < repos.len() && 0 <= gi < repos[ri].groups@.len() ==> rebuild_spec(
                TreeV { collapsed: all_keys_upto(repos, repos.len() as int), ..t },
                repos,
            ).collapsed.contains(#[trigger] group_key(repos, ri, gi)),
        rebuild_spec(TreeV { collapsed: Seq::empty(), ..t }, repos).collapsed.len() == 0,
{
    law_collapse_all_covers_every_repo(repos);
    assert forall|ri: int, gi: int| 0 <= ri < repos.len() && 0 <= gi < repos[ri].groups@.len() implies all_keys_upto(
        repos,
        repos.len() as int,
    ).contains(#[trigger] group_key(repos, ri, gi)) by {
        lemma_all_keys_has_group(repos, repos.len() as int, ri, gi);
    }
}

impl Tree {
    /// Move to the next changed file across every repo, wrapping.
    pub fn next_file(&mut self, repos: &[RepoEntry])
        ensures
            final(self)@ == jump_spec(old(self)@, repos@, true),
    {
        self.jump(repos, true);
    }

    /// Move to the previous changed file across every repo, wrapping.
    pub fn prev_file(&mut self, repos: &[RepoEntry])
        ensures
            final(self)@ == jump_spec(old(self)@, repos@, false),
    {
        self.jump(repos, false);
    }

    /// The shared body of `next_file` / `prev_file`.
    ///
    /// The walk runs over the FULLY EXPANDED row list, so a collapsed repo cannot make `]` a
    /// dead key; whatever was hiding the target is then expanded before the cursor lands.
    fn jump(&mut self, repos: &[RepoEntry], forward: bool)
        ensures
            final(self)@ == jump_spec(old(self)@, repos@, forward),
    {
        let ghost t = self@;
        let none: Vec<RowId> = Vec::new();
        assert(keys_view(none@) =~= Seq::<RowKey>::empty());
        let all = flatten(repos, &none);
        let ghost av = rows_view(all@);
        if first_file(&all).is_none() {
            return;
        }
        // Where the cursor sits within the fully expanded list.
        let here: usize = match self.selected() {
            Some(sel) => match find_row(&all, &sel.id) {
                Some(i) => i,
                None => 0,
            },
            None => 0,
        };
        assert(here as int == here_in(t, av));
        let found = if forward {
            match next_file_after(&all, here) {
                Some(j) => Some(j),
                None => first_file(&all),
            }
        } else {
            match prev_file_before_here(&all, here) {
                Some(j) => Some(j),
                None => last_file(&all),
            }
        };
        let j = match found {
            Some(j) => j,
            None => {
                return;
            },
        };
        assert(Some(j as int) == jump_target(t, repos@, forward));
        proof {
            lemma_jump_target_is_file(t, repos@, forward);
        }
        let target = all[j].id.duplicate();
        // Expand every ancestor that was hiding the target.
        let mut c = copy_ids(&self.collapsed);
        let mut ancestor = target.parent();
        loop
            invariant
                expand_for(t.collapsed, target@) == match ancestor {
                    Some(a) => expand_for(remove_key(keys_view(c@), a@), a@),
                    None => keys_view(c@),
                },
            ensures
                keys_view(c@) == expand_for(t.collapsed, target@),
            decreases
                match ancestor {
                    Some(a) => key_rank(a@) + 1,
                    None => 0,
                },
        {
            match ancestor {
                Some(a) => {
                    c = remove_id(&c, &a);
                    ancestor = a.parent();
                },
                None => {
                    break;
                },
            }
        }
        let rows = flatten(repos, &c);
        proof {
            lemma_file_visible(repos@, t.collapsed, j as int);
            lemma_first_pos_exists(rows_view(rows@), target@);
        }
        let cursor = match find_row(&rows, &target) {
            Some(i) => i,
            None => {
                return;
            },
        };
        *self = Tree { rows, collapsed: c, cursor };
    }
}
} // verus!
