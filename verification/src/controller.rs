//! Intent -> state. The controller owns everything the presenter draws and performs no outside
//! work itself: a diff request, a clipboard write, a herdr zoom and an editor hand-off leave it
//! as [`Effects`] for the run loop, and what came of them comes back through
//! [`Controller::copy_finished`] and [`Controller::editor_finished`].
use vstd::prelude::*;
use crate::config::{Settings, SettingsV, strings_view};
use crate::intent::Intent;
use crate::model::{GroupKind, RepoEntry, RepoRoot, Snapshot, file_count};
use crate::herdr::has_place;
use crate::path::{join, join_spec, same_path, same_place};
use crate::poller::{DiffJob, DiffJobV, DiffResult, PollMsg};
use crate::render::{Mode, neutralize_plain_text, neutralized, no_controls};
use crate::text::{push_str, str_eq};
use crate::tree::{
    RowKey, RowV, Tree, TreeV, all_keys_upto, flatten_spec, jump_spec, last_index, min_int, rebuild_spec, repo_key,
    selected_key, toggle_spec,
};

verus! {

/// Which region the keys act on.
#[derive(Debug, Clone, Copy, PartialEq, Eq, Structural)]
pub enum Focus {
    Tree,
    Diff,
}

/// What the run loop should do after an intent.
#[derive(Debug, Clone, PartialEq, Eq)]
pub struct Effects {
    pub redraw: bool,
    pub quit: bool,
    /// Ask the poller for a round now.
    pub refresh: bool,
    /// Hand the terminal to `$EDITOR` for this file; report back with
    /// [`Controller::editor_finished`].
    pub editor: Option<String>,
    /// Hand this diff job to the render worker.
    pub job: Option<DiffJob>,
    /// Put this text on the terminal clipboard; report back with [`Controller::copy_finished`].
    pub copy: Option<String>,
    /// Ask herdr to toggle this pane's zoom.
    pub zoom: bool,
}

/// [`Effects`] as plain values.
pub struct EffectsV {
    pub redraw: bool,
    pub quit: bool,
    pub refresh: bool,
    pub editor: Option<Seq<char>>,
    pub job: Option<DiffJobV>,
    pub copy: Option<Seq<char>>,
    pub zoom: bool,
}

pub open spec fn sv(o: Option<String>) -> Option<Seq<char>> {
    match o {
        Some(s) => Some(s@),
        None => None,
    }
}

pub open spec fn jv(o: Option<DiffJob>) -> Option<DiffJobV> {
    match o {
        Some(j) => Some(j@),
        None => None,
    }
}

impl View for Effects {
    type V = EffectsV;

    open spec fn view(&self) -> EffectsV {
        EffectsV {
            redraw: self.redraw,
            quit: self.quit,
            refresh: self.refresh,
            editor: sv(self.editor),
            job: jv(self.job),
            copy: sv(self.copy),
            zoom: self.zoom,
        }
    }
}

/// Nothing to do, not even a redraw.
pub open spec fn no_effects() -> EffectsV {
    EffectsV {
        redraw: false,
        quit: false,
        refresh: false,
        editor: None,
        job: None,
        copy: None,
        zoom: false,
    }
}

impl Default for Effects {
    fn default() -> (e: Effects)
        ensures
            e@ == no_effects(),
    {
        Effects {
            redraw: false,
            quit: false,
            refresh: false,
            editor: None,
            job: None,
            copy: None,
            zoom: false,
        }
    }
}

/// The panel's state.
pub struct Controller<T> {
    settings: Settings,
    repos: Vec<RepoEntry>,
    tree: Tree,
    focus: Focus,
    generation: u64,
    /// The last diff job's sequence number; also the only result sequence accepted.
    diff_seq: u64,
    /// What the current diff belongs to, so a refresh does not re-request the same file.
    diff_target: Option<(String, GroupKind, String)>,
    /// The diff on display; `None` draws as empty.
    diff_text: Option<T>,
    diff_scroll: u16,
    notice: Option<String>,
    help_open: bool,
    scan_roots: Vec<String>,
    /// Where the tree's window started on the last frame, so it can hold still.
    tree_scroll: usize,
}

/// A diff target as plain values: repo path, baseline, file path.
pub open spec fn tv(o: Option<(String, GroupKind, String)>) -> Option<(Seq<char>, GroupKind, Seq<char>)> {
    match o {
        Some((r, g, p)) => Some((r@, g, p@)),
        None => None,
    }
}

/// A [`Controller`] as plain values.
pub struct ControllerV<T> {
    pub settings: SettingsV,
    pub repos: Seq<RepoEntry>,
    pub tree: TreeV,
    pub focus: Focus,
    pub generation: u64,
    pub diff_seq: u64,
    pub diff_target: Option<(Seq<char>, GroupKind, Seq<char>)>,
    pub diff_text: Option<T>,
    pub diff_scroll: u16,
    pub notice: Option<Seq<char>>,
    pub help_open: bool,
    pub scan_roots: Seq<Seq<char>>,
    pub tree_scroll: usize,
}

impl<T> View for Controller<T> {
    type V = ControllerV<T>;

    closed spec fn view(&self) -> ControllerV<T> {
        ControllerV {
            settings: self.settings@,
            repos: self.repos@,
            tree: self.tree@,
            focus: self.focus,
            generation: self.generation,
            diff_seq: self.diff_seq,
            diff_target: tv(self.diff_target),
            diff_text: self.diff_text,
            diff_scroll: self.diff_scroll,
            notice: sv(self.notice),
            help_open: self.help_open,
            scan_roots: strings_view(self.scan_roots@),
            tree_scroll: self.tree_scroll,
        }
    }
}

// ---- what each operation does ---------------------------------------------------------------

/// The file row under the cursor, as a diff target.
pub open spec fn target_of(t: TreeV) -> Option<(Seq<char>, GroupKind, Seq<char>)> {
    match selected_key(t) {
        Some(RowKey::File(r, g, p)) => Some((r, g, p)),
        _ => None,
    }
}

/// Follow the selection with the diff: when the selected file changed, reset the scroll and
/// request the new file's diff under the next sequence number (or clear the diff when no file is
/// selected). An unchanged selection requests nothing.
pub open spec fn sync_spec<T>(c: ControllerV<T>) -> (ControllerV<T>, Option<DiffJobV>) {
    let target = target_of(c.tree);
    if target == c.diff_target {
        (c, None)
    } else {
        match target {
            None => (ControllerV { diff_target: None, diff_scroll: 0, diff_text: None, ..c }, None),
            Some((r, g, p)) => {
                let seq = (c.diff_seq + 1) as u64;
                (
                    ControllerV { diff_target: target, diff_scroll: 0, diff_seq: seq, ..c },
                    Some(DiffJobV { seq, repo: r, group: g, path: p }),
                )
            },
        }
    }
}

/// The tree with its cursor moved by `delta`, clamped at both ends.
pub open spec fn moved(t: TreeV, delta: int) -> TreeV {
    TreeV {
        cursor: if t.cursor + delta < 0 {
            0
        } else {
            min_int(t.cursor + delta, last_index(t.rows.len() as int))
        },
        ..t
    }
}

/// Whether every repo is collapsed (false when there are none).
pub open spec fn all_collapsed_spec(t: TreeV, repos: Seq<RepoEntry>) -> bool {
    repos.len() > 0 && forall|i: int| 0 <= i < repos.len() ==> t.collapsed.contains(#[trigger] repo_key(repos, i))
}

/// Every repo and group collapsed, or none.
pub open spec fn set_all_spec(t: TreeV, collapse: bool, repos: Seq<RepoEntry>) -> TreeV {
    rebuild_spec(
        TreeV {
            collapsed: if collapse {
                all_keys_upto(repos, repos.len() as int)
            } else {
                Seq::empty()
            },
            ..t
        },
        repos,
    )
}

/// The diff scroll one line down (saturating) or up (stopping at 0).
pub open spec fn scrolled(s: u16, down: bool) -> u16 {
    if down {
        if s == u16::MAX {
            s
        } else {
            (s + 1) as u16
        }
    } else {
        if s == 0 {
            0
        } else {
            (s - 1) as u16
        }
    }
}

/// The display name of the repo at `repo`, searching from index `i`; the path itself when no
/// repo has it.
pub open spec fn name_from(repos: Seq<RepoEntry>, repo: Seq<char>, i: int) -> Seq<char>
    decreases repos.len() - i,
{
    if i < 0 || i >= repos.len() {
        repo
    } else if same_path(repos[i].path@, repo) {
        repos[i].display_name@
    } else {
        name_from(repos, repo, i + 1)
    }
}

/// What `y` copies: `name:path`, with every terminal control removed.
pub open spec fn copy_text(repos: Seq<RepoEntry>, repo: Seq<char>, path: Seq<char>) -> Seq<char> {
    neutralized(name_from(repos, repo, 0) + ":"@ + path, Mode::Plain)
}

/// The effects of any intent before it acts: a redraw.
pub open spec fn redraw_only() -> EffectsV {
    EffectsV { redraw: true, ..no_effects() }
}

/// The state after a tree change, with the diff following the selection.
pub open spec fn with_tree<T>(c: ControllerV<T>, t: TreeV) -> (ControllerV<T>, EffectsV) {
    let (c2, job) = sync_spec(ControllerV { tree: t, ..c });
    (c2, EffectsV { job, ..redraw_only() })
}

/// The navigation keys: the tree cursor, or the diff's scroll, by focus.
pub open spec fn nav_spec<T>(c: ControllerV<T>, down: bool) -> (ControllerV<T>, EffectsV) {
    match c.focus {
        Focus::Tree => with_tree(c, moved(c.tree, if down { 1 } else { -1 })),
        Focus::Diff => (ControllerV { diff_scroll: scrolled(c.diff_scroll, down), ..c }, redraw_only()),
    }
}

/// The "no file selected" notice.
pub open spec fn no_file_notice() -> Seq<char> {
    "no file selected"@
}

/// What an intent does. A fresh keystroke clears the previous notice; an open help overlay
/// swallows everything but `Close`, `Help` and `Quit`.
pub open spec fn handle_spec<T>(c: ControllerV<T>, intent: Intent) -> (ControllerV<T>, EffectsV) {
    let c0 = ControllerV { notice: None, ..c };
    let e0 = redraw_only();
    if c.help_open && intent != Intent::Close && intent != Intent::Help && intent != Intent::Quit {
        (c0, e0)
    } else {
        match intent {
            Intent::NavDown => nav_spec(c0, true),
            Intent::NavUp => nav_spec(c0, false),
            Intent::Activate => with_tree(c0, toggle_spec(c0.tree, c0.repos)),
            Intent::ToggleAll => with_tree(
                c0,
                set_all_spec(c0.tree, !all_collapsed_spec(c0.tree, c0.repos), c0.repos),
            ),
            Intent::FocusToggle => (
                ControllerV {
                    focus: match c0.focus {
                        Focus::Tree => Focus::Diff,
                        Focus::Diff => Focus::Tree,
                    },
                    ..c0
                },
                e0,
            ),
            Intent::NextChange => with_tree(c0, jump_spec(c0.tree, c0.repos, true)),
            Intent::PrevChange => with_tree(c0, jump_spec(c0.tree, c0.repos, false)),
            Intent::Refresh => (c0, EffectsV { refresh: true, ..e0 }),
            Intent::Zoom => (c0, EffectsV { zoom: true, ..e0 }),
            Intent::CopyPath => match target_of(c0.tree) {
                Some((r, _, p)) => (c0, EffectsV { copy: Some(copy_text(c0.repos, r, p)), ..e0 }),
                None => (ControllerV { notice: Some(no_file_notice()), ..c0 }, e0),
            },
            Intent::OpenEditor => match target_of(c0.tree) {
                Some((r, _, p)) => (c0, EffectsV { editor: Some(join_spec(r, p)), ..e0 }),
                None => (ControllerV { notice: Some(no_file_notice()), ..c0 }, e0),
            },
            Intent::Help => (ControllerV { help_open: true, ..c0 }, e0),
            Intent::Close => (ControllerV { help_open: false, ..c0 }, e0),
            Intent::Quit => (c0, EffectsV { quit: true, ..e0 }),
        }
    }
}

/// `s` with every later spelling of an already-listed place dropped (`Path`'s `==`),
/// first-seen order kept.
pub open spec fn dedup_spec(s: Seq<Seq<char>>) -> Seq<Seq<char>>
    decreases s.len(),
{
    if s.len() == 0 {
        Seq::empty()
    } else {
        let d = dedup_spec(s.drop_last());
        if has_place(d, s.last()) {
            d
        } else {
            d.push(s.last())
        }
    }
}

/// The scan starts of a repo list, in order.
pub open spec fn starts_of(roots: Seq<RepoRoot>) -> Seq<Seq<char>> {
    roots.map_values(|r: RepoRoot| r.scan_root@)
}

/// What a poller message does: a repo list records its scan starts (de-duplicated, and never
/// replacing a recorded list with an empty one); a snapshot newer than the last one replaces the
/// repos and rebuilds the tree, the diff following the selection; an older one is dropped.
pub open spec fn apply_spec<T>(c: ControllerV<T>, msg: PollMsg) -> (ControllerV<T>, Option<DiffJobV>) {
    match msg {
        PollMsg::Roots(roots) => {
            let starts = dedup_spec(starts_of(roots@));
            if starts.len() > 0 {
                (ControllerV { scan_roots: starts, ..c }, None)
            } else {
                (c, None)
            }
        },
        PollMsg::Snapshot(s) => if s.generation <= c.generation {
            (c, None)
        } else {
            sync_spec(
                ControllerV {
                    generation: s.generation,
                    repos: s.repos@,
                    tree: rebuild_spec(c.tree, s.repos@),
                    ..c
                },
            )
        },
    }
}

/// How many of `repos`' first `n` have changes.
pub open spec fn dirty_upto(repos: Seq<RepoEntry>, n: int) -> nat
    decreases n,
{
    if n <= 0 {
        0
    } else {
        dirty_upto(repos, n - 1) + if file_count(repos[n - 1].groups@) > 0 {
            1nat
        } else {
            0nat
        }
    }
}

proof fn lemma_dirty_upto_le(repos: Seq<RepoEntry>, n: int)
    requires
        0 <= n,
    ensures
        dirty_upto(repos, n) <= n,
    decreases n,
{
    if n > 0 {
        lemma_dirty_upto_le(repos, n - 1);
    }
}

// ---- laws ------------------------------------------------------------------------------------------

/// Law: every diff job an intent asks for is numbered one above the last, and the sequence the
/// controller accepts results for never goes back.
pub proof fn law_intent_jobs_are_numbered_upward<T>(c: ControllerV<T>, intent: Intent)
    requires
        c.diff_seq < u64::MAX,
    ensures
        handle_spec(c, intent).0.diff_seq >= c.diff_seq,
        handle_spec(c, intent).1.job matches Some(j) ==> j.seq == c.diff_seq + 1
            && handle_spec(c, intent).0.diff_seq == j.seq,
{
}

/// Law: every diff job a poller message asks for is numbered one above the last, and the
/// accepted sequence never goes back.
pub proof fn law_message_jobs_are_numbered_upward<T>(c: ControllerV<T>, msg: PollMsg)
    requires
        c.diff_seq < u64::MAX,
    ensures
        apply_spec(c, msg).0.diff_seq >= c.diff_seq,
        apply_spec(c, msg).1 matches Some(j) ==> j.seq == c.diff_seq + 1 && apply_spec(c, msg).0.diff_seq
            == j.seq,
{
}

/// Law: while the help overlay is open, every key but `Close`, `Help` and `Quit` does nothing
/// beyond clearing the notice and redrawing.
pub proof fn law_help_overlay_swallows_other_keys<T>(c: ControllerV<T>, intent: Intent)
    requires
        c.help_open,
        intent != Intent::Close,
        intent != Intent::Help,
        intent != Intent::Quit,
    ensures
        handle_spec(c, intent) == (ControllerV { notice: None, ..c }, redraw_only()),
{
}

proof fn lemma_name_from_first(repos: Seq<RepoEntry>, r: Seq<char>, j: int, i: int)
    requires
        0 <= j <= i < repos.len(),
        same_path(repos[i].path@, r),
        forall|m: int| 0 <= m < i ==> !same_path(#[trigger] repos[m].path@, r),
    ensures
        name_from(repos, r, j) == repos[i].display_name@,
    decreases i - j,
{
    if j < i {
        lemma_name_from_first(repos, r, j + 1, i);
    }
}

proof fn lemma_name_from_none(repos: Seq<RepoEntry>, r: Seq<char>, j: int)
    requires
        0 <= j,
        forall|m: int| 0 <= m < repos.len() ==> !same_path(#[trigger] repos[m].path@, r),
    ensures
        name_from(repos, r, j) == r,
    decreases repos.len() - j,
{
    if j < repos.len() {
        lemma_name_from_none(repos, r, j + 1);
    }
}

/// Law: `y` on a selected file copies `name:path` — the display name of the first repo of the
/// snapshot at the file's repo path (the repo path itself when none is), a colon and the file's
/// path — with every terminal control removed.
pub proof fn law_copy_names_the_repo<T>(c: ControllerV<T>, r: Seq<char>, g: GroupKind, p: Seq<char>)
    requires
        !c.help_open,
        target_of(c.tree) == Some((r, g, p)),
    ensures
        forall|i: int|
            #![trigger c.repos[i]]
            0 <= i < c.repos.len() && same_path(c.repos[i].path@, r) && (forall|m: int|
                0 <= m < i ==> !same_path(#[trigger] c.repos[m].path@, r)) ==> handle_spec(c, Intent::CopyPath).1.copy
                == Some(neutralized(c.repos[i].display_name@ + ":"@ + p, Mode::Plain)),
        (forall|m: int| 0 <= m < c.repos.len() ==> !same_path(#[trigger] c.repos[m].path@, r)) ==> handle_spec(
            c,
            Intent::CopyPath,
        ).1.copy == Some(neutralized(r + ":"@ + p, Mode::Plain)),
{
    assert forall|i: int|
        #![trigger c.repos[i]]
        0 <= i < c.repos.len() && same_path(c.repos[i].path@, r) && (forall|m: int|
            0 <= m < i ==> !same_path(#[trigger] c.repos[m].path@, r)) implies handle_spec(c, Intent::CopyPath).1.copy
        == Some(neutralized(c.repos[i].display_name@ + ":"@ + p, Mode::Plain)) by {
        lemma_name_from_first(c.repos, r, 0, i);
    }
    if forall|m: int| 0 <= m < c.repos.len() ==> !same_path(#[trigger] c.repos[m].path@, r) {
        lemma_name_from_none(c.repos, r, 0);
    }
}

/// Law: only `Quit` quits; in particular `Close` (Esc) never does, overlay or not.
pub proof fn law_only_quit_quits<T>(c: ControllerV<T>, intent: Intent)
    ensures
        handle_spec(c, intent).1.quit <==> intent == Intent::Quit,
{
}

/// Law: a snapshot no newer than the last one applied changes nothing and asks for nothing.
pub proof fn law_stale_snapshot_is_dropped<T>(c: ControllerV<T>, s: Snapshot)
    requires
        s.generation <= c.generation,
    ensures
        apply_spec(c, PollMsg::Snapshot(s)) == (c, None::<DiffJobV>),
{
}

/// Law: a refresh that leaves the same file selected asks for no new diff.
pub proof fn law_same_selection_asks_for_nothing<T>(c: ControllerV<T>, s: Snapshot)
    requires
        target_of(rebuild_spec(c.tree, s.repos@)) == c.diff_target,
    ensures
        apply_spec(c, PollMsg::Snapshot(s)).1 is None,
{
}

/// Law: whenever the diff moves to another target, it starts at the top.
pub proof fn law_new_target_starts_at_the_top<T>(c: ControllerV<T>, intent: Intent)
    requires
        c.diff_seq < u64::MAX,
    ensures
        handle_spec(c, intent).0.diff_target != c.diff_target ==> handle_spec(c, intent).0.diff_scroll == 0,
{
}

/// The panel's consistency: the tree shows exactly the current repos under the current
/// collapse state, and the diff belongs to the file under the cursor.
pub open spec fn consistent<T>(c: ControllerV<T>) -> bool {
    &&& c.tree.rows == flatten_spec(c.repos, c.tree.collapsed)
    &&& c.diff_target == target_of(c.tree)
}

/// Law: a fresh panel is consistent.
pub proof fn law_a_new_panel_is_consistent<T>(c: ControllerV<T>)
    requires
        c.repos.len() == 0,
        c.tree.rows.len() == 0,
        c.tree.collapsed.len() == 0,
        c.tree.cursor == 0,
        c.diff_target is None,
    ensures
        consistent(c),
{
    assert(flatten_spec(c.repos, c.tree.collapsed) =~= Seq::<RowV>::empty());
    assert(c.tree.rows =~= Seq::<RowV>::empty());
}

/// Law: every intent keeps the panel consistent — the tree never drifts from the repos, and the
/// diff always follows the selection.
pub proof fn law_intents_keep_the_panel_consistent<T>(c: ControllerV<T>, intent: Intent)
    requires
        consistent(c),
        c.diff_seq < u64::MAX,
    ensures
        consistent(handle_spec(c, intent).0),
{
}

/// Law: every poller message keeps the panel consistent.
pub proof fn law_messages_keep_the_panel_consistent<T>(c: ControllerV<T>, msg: PollMsg)
    requires
        consistent(c),
        c.diff_seq < u64::MAX,
    ensures
        consistent(apply_spec(c, msg).0),
{
}

/// Law: the recorded scan starts never name one place twice, each is one of the repo list's own
/// scan starts, and every scan start of the list is represented.
pub proof fn law_scan_starts_are_distinct(s: Seq<Seq<char>>)
    ensures
        forall|i: int, j: int|
            0 <= i < j < dedup_spec(s).len() ==> !same_path(#[trigger] dedup_spec(s)[i], #[trigger] dedup_spec(s)[j]),
        forall|x: Seq<char>| dedup_spec(s).contains(x) ==> s.contains(x),
        forall|x: Seq<char>| s.contains(x) ==> has_place(dedup_spec(s), x),
    decreases s.len(),
{
    if s.len() > 0 {
        law_scan_starts_are_distinct(s.drop_last());
        let d = dedup_spec(s.drop_last());
        let r = dedup_spec(s);
        let last = s.last();
        if !has_place(d, last) {
            assert forall|i: int, j: int| 0 <= i < j < r.len() implies !same_path(#[trigger] r[i], #[trigger] r[j]) by {
                if j < d.len() {
                    assert(r[i] == d[i] && r[j] == d[j]);
                } else {
                    assert(r[j] == last && r[i] == d[i]);
                }
            }
        }
        assert forall|x: Seq<char>| r.contains(x) implies s.contains(x) by {
            let m = choose|m: int| 0 <= m < r.len() && r[m] == x;
            if m < d.len() {
                assert(d[m] == x);
                assert(d.contains(x));
                assert(s.drop_last().contains(x));
                let k = choose|k: int| 0 <= k < s.drop_last().len() && s.drop_last()[k] == x;
                assert(s[k] == x);
            } else {
                assert(s[s.len() - 1] == x);
            }
        }
        assert forall|x: Seq<char>| s.contains(x) implies has_place(r, x) by {
            let k = choose|k: int| 0 <= k < s.len() && s[k] == x;
            if k < s.len() - 1 {
                assert(s.drop_last()[k] == x);
                assert(s.drop_last().contains(x));
                let m = choose|m: int| 0 <= m < d.len() && #[trigger] same_path(d[m], x);
                assert(r[m] == d[m]);
            } else if has_place(d, last) {
                let m = choose|m: int| 0 <= m < d.len() && #[trigger] same_path(d[m], last);
                assert(r[m] == d[m]);
            } else {
                assert(r[d.len() as int] == last);
                crate::path::lemma_same_path_refl(last);
            }
        }
    }
}

// ---- the implementation ----------------------------------------------------------------------------

/// Whether a list of groups holds any file.
fn any_files(groups: &[crate::model::StatusGroup]) -> (r: bool)
    ensures
        r == (file_count(groups@) > 0),
{
    let mut i: usize = groups.len();
    assert(groups@.take(i as int) =~= groups@);
    while i > 0
        invariant
            i <= groups@.len(),
            (file_count(groups@) > 0) == (file_count(groups@.take(i as int)) > 0),
        decreases i,
    {
        assert(groups@.take(i as int).drop_last() =~= groups@.take(i - 1));
        assert(groups@.take(i as int).last() == groups@[i - 1]);
        if groups[i - 1].files.len() > 0 {
            return true;
        }
        i -= 1;
    }
    false
}

/// Whether two diff targets are the same.
fn same_target(a: &Option<(String, GroupKind, String)>, b: &Option<(String, GroupKind, String)>) -> (r: bool)
    ensures
        r == (tv(*a) == tv(*b)),
{
    match (a, b) {
        (Some((r1, g1, p1)), Some((r2, g2, p2))) => *g1 == *g2 && str_eq(r1.as_str(), r2.as_str())
            && str_eq(p1.as_str(), p2.as_str()),
        (None, None) => true,
        _ => false,
    }
}

fn clone_target(a: &Option<(String, GroupKind, String)>) -> (r: Option<(String, GroupKind, String)>)
    ensures
        tv(r) == tv(*a),
{
    match a {
        Some((r, g, p)) => Some((r.clone(), *g, p.clone())),
        None => None,
    }
}

/// The display name of the repo at `repo`, or the path itself.
fn name_for(repos: &[RepoEntry], repo: &str) -> (r: String)
    ensures
        r@ == name_from(repos@, repo@, 0),
{
    let mut i: usize = 0;
    while i < repos.len()
        invariant
            i <= repos@.len(),
            name_from(repos@, repo@, 0) == name_from(repos@, repo@, i as int),
        decreases repos.len() - i,
    {
        if same_place(repos[i].path.as_str(), repo) {
            return repos[i].display_name.clone();
        }
        i += 1;
    }
    repo.to_string()
}

impl<T> Controller<T> {
    pub fn new(settings: Settings) -> (c: Controller<T>)
        ensures
            c@.settings == settings@,
            c@.repos.len() == 0,
            c@.tree.rows.len() == 0,
            c@.tree.collapsed.len() == 0,
            c@.tree.cursor == 0,
            c@.focus == Focus::Tree,
            c@.generation == 0,
            c@.diff_seq == 0,
            c@.diff_target is None,
            c@.diff_text is None,
            c@.diff_scroll == 0,
            c@.notice is None,
            !c@.help_open,
            c@.scan_roots.len() == 0,
            c@.tree_scroll == 0,
    {
        let c = Controller {
            settings,
            repos: Vec::new(),
            tree: Tree::new(),
            focus: Focus::Tree,
            generation: 0,
            diff_seq: 0,
            diff_target: None,
            diff_text: None,
            diff_scroll: 0,
            notice: None,
            help_open: false,
            scan_roots: Vec::new(),
            tree_scroll: 0,
        };
        assert(strings_view(c.scan_roots@) =~= Seq::<Seq<char>>::empty());
        c
    }

    // ---- readers for the presenter -------------------------------------------------------

    pub fn repos(&self) -> (r: &[RepoEntry])
        ensures
            r@ == self@.repos,
    {
        self.repos.as_slice()
    }

    pub fn tree(&self) -> (r: &Tree)
        ensures
            r@ == self@.tree,
    {
        &self.tree
    }

    pub fn focus(&self) -> (r: Focus)
        ensures
            r == self@.focus,
    {
        self.focus
    }

    /// The diff on display; `None` when there is none.
    pub fn diff_text(&self) -> (r: Option<&T>)
        ensures
            match r {
                Some(t) => self@.diff_text == Some(*t),
                None => self@.diff_text is None,
            },
    {
        self.diff_text.as_ref()
    }

    pub fn diff_scroll(&self) -> (r: u16)
        ensures
            r == self@.diff_scroll,
    {
        self.diff_scroll
    }

    pub fn notice(&self) -> (r: Option<&str>)
        ensures
            match r {
                Some(n) => self@.notice == Some(n@),
                None => self@.notice is None,
            },
    {
        match &self.notice {
            Some(n) => Some(n.as_str()),
            None => None,
        }
    }

    pub fn help_open(&self) -> (r: bool)
        ensures
            r == self@.help_open,
    {
        self.help_open
    }

    pub fn scan_roots(&self) -> (r: &[String])
        ensures
            strings_view(r@) == self@.scan_roots,
    {
        self.scan_roots.as_slice()
    }

    /// The sequence number of the last diff job; only a result carrying it is accepted.
    pub fn diff_seq(&self) -> (r: u64)
        ensures
            r == self@.diff_seq,
    {
        self.diff_seq
    }

    /// Where the tree's window started on the last frame.
    pub fn tree_scroll(&self) -> (r: usize)
        ensures
            r == self@.tree_scroll,
    {
        self.tree_scroll
    }

    /// Record where the tree's window starts this frame.
    pub fn set_tree_scroll(&mut self, first: usize)
        ensures
            final(self)@ == (ControllerV { tree_scroll: first, ..old(self)@ }),
    {
        self.tree_scroll = first;
    }

    pub fn settings(&self) -> (r: &Settings)
        ensures
            r@ == self@.settings,
    {
        &self.settings
    }

    /// No repos at all: the panel shows its empty state.
    pub fn is_empty(&self) -> (r: bool)
        ensures
            r == (self@.repos.len() == 0),
    {
        self.repos.len() == 0
    }

    /// `(repo count, dirty repo count)` for the title bar.
    pub fn title_counts(&self) -> (r: (usize, usize))
        ensures
            r.0 == self@.repos.len(),
            r.1 == dirty_upto(self@.repos, self@.repos.len() as int),
    {
        let mut dirty: usize = 0;
        let mut i: usize = 0;
        while i < self.repos.len()
            invariant
                i <= self.repos@.len(),
                dirty == dirty_upto(self.repos@, i as int),
            decreases self.repos.len() - i,
        {
            proof {
                lemma_dirty_upto_le(self.repos@, i as int);
            }
            if any_files(self.repos[i].groups.as_slice()) {
                dirty = dirty + 1;
            }
            i += 1;
        }
        (self.repos.len(), dirty)
    }

    // ---- inbound messages -----------------------------------------------------------------

    /// Record the scan starts, so the empty state can show where we looked.
    pub fn set_scan_roots(&mut self, roots: Vec<String>)
        ensures
            final(self)@ == (ControllerV { scan_roots: strings_view(roots@), ..old(self)@ }),
    {
        self.scan_roots = roots;
    }

    /// Follow the selection with the diff; the job to hand to the render worker, if any.
    fn sync_diff(&mut self) -> (job: Option<DiffJob>)
        requires
            old(self)@.diff_seq < u64::MAX,
        ensures
            (final(self)@, jv(job)) == sync_spec(old(self)@),
    {
        let target = self.tree.selected_file();
        if same_target(&target, &self.diff_target) {
            return None;
        }
        self.diff_target = clone_target(&target);
        self.diff_scroll = 0;
        match target {
            None => {
                self.diff_text = None;
                None
            },
            Some((repo, group, path)) => {
                self.diff_seq = self.diff_seq + 1;
                Some(DiffJob { seq: self.diff_seq, repo, group, path })
            },
        }
    }

    /// Apply a poller message; the diff job it calls for, if any. An out-of-order snapshot is
    /// dropped.
    pub fn apply(&mut self, msg: PollMsg) -> (job: Option<DiffJob>)
        requires
            old(self)@.diff_seq < u64::MAX,
        ensures
            (final(self)@, jv(job)) == apply_spec(old(self)@, msg),
    {
        match msg {
            PollMsg::Roots(roots) => {
                let starts = first_seen_starts(roots.as_slice());
                if starts.len() > 0 {
                    self.scan_roots = starts;
                }
                None
            },
            PollMsg::Snapshot(s) => {
                if s.generation <= self.generation {
                    return None;
                }
                self.generation = s.generation;
                self.repos = s.repos;
                self.tree.rebuild(self.repos.as_slice());
                self.sync_diff()
            },
        }
    }

    /// Accept a finished diff, unless the user has already moved on.
    pub fn apply_diff(&mut self, result: DiffResult<T>)
        ensures
            final(self)@ == if result.seq != old(self)@.diff_seq {
                old(self)@
            } else {
                (ControllerV {
                    diff_text: Some(result.rendered.text),
                    notice: match result.rendered.notice {
                        Some(n) => Some(n@),
                        None => old(self)@.notice,
                    },
                    ..old(self)@
                })
            },
    {
        if result.seq != self.diff_seq {
            return;
        }
        let DiffResult { seq: _, rendered } = result;
        self.diff_text = Some(rendered.text);
        if let Some(n) = rendered.notice {
            self.notice = Some(n);
        }
    }

    // ---- intents ----------------------------------------------------------------------------

    pub fn handle(&mut self, intent: Intent) -> (e: Effects)
        requires
            old(self)@.diff_seq < u64::MAX,
        ensures
            (final(self)@, e@) == handle_spec(old(self)@, intent),
            e.copy matches Some(t) ==> no_controls(t@),
    {
        self.notice = None;
        let mut effects = Effects { redraw: true, ..Effects::default() };
        if self.help_open && intent != Intent::Close && intent != Intent::Help && intent != Intent::Quit {
            return effects;
        }
        match intent {
            Intent::NavDown => {
                effects.job = self.nav(true);
            },
            Intent::NavUp => {
                effects.job = self.nav(false);
            },
            Intent::Activate => {
                self.tree.toggle_selected(self.repos.as_slice());
                effects.job = self.sync_diff();
            },
            Intent::ToggleAll => {
                let collapse = !self.tree.all_collapsed(self.repos.as_slice());
                self.tree.set_all_collapsed(collapse, self.repos.as_slice());
                effects.job = self.sync_diff();
            },
            Intent::FocusToggle => {
                self.focus = match self.focus {
                    Focus::Tree => Focus::Diff,
                    Focus::Diff => Focus::Tree,
                };
            },
            Intent::NextChange => {
                self.tree.next_file(self.repos.as_slice());
                effects.job = self.sync_diff();
            },
            Intent::PrevChange => {
                self.tree.prev_file(self.repos.as_slice());
                effects.job = self.sync_diff();
            },
            Intent::Refresh => effects.refresh = true,
            Intent::Zoom => effects.zoom = true,
            Intent::CopyPath => {
                effects.copy = self.copy_path();
            },
            Intent::OpenEditor => {
                effects.editor = self.editor_target();
            },
            Intent::Help => self.help_open = true,
            Intent::Close => self.help_open = false,
            Intent::Quit => effects.quit = true,
        }
        effects
    }

    /// Navigation routes by focus: the tree cursor, or the diff's scroll offset.
    fn nav(&mut self, down: bool) -> (job: Option<DiffJob>)
        requires
            old(self)@.diff_seq < u64::MAX,
        ensures
            (final(self)@, (EffectsV { job: jv(job), ..redraw_only() })) == nav_spec(old(self)@, down),
    {
        match self.focus {
            Focus::Tree => {
                self.tree.move_cursor(if down { 1 } else { -1 });
                self.sync_diff()
            },
            Focus::Diff => {
                self.diff_scroll = if down {
                    if self.diff_scroll == u16::MAX {
                        self.diff_scroll
                    } else {
                        self.diff_scroll + 1
                    }
                } else if self.diff_scroll == 0 {
                    0
                } else {
                    self.diff_scroll - 1
                };
                None
            },
        }
    }

    /// The text `y` copies for the selected file, or `None` with a notice explaining why not.
    ///
    /// A file name is chosen by whoever wrote the repo, and a terminal control inside one must
    /// never reach the terminal, so the text is neutralized first.
    fn copy_path(&mut self) -> (r: Option<String>)
        ensures
            match target_of(old(self)@.tree) {
                Some((repo, _, path)) => final(self)@ == old(self)@ && sv(r) == Some(
                    copy_text(old(self)@.repos, repo, path),
                ),
                None => final(self)@ == (ControllerV { notice: Some(no_file_notice()), ..old(self)@ })
                    && r is None,
            },
            r matches Some(t) ==> no_controls(t@),
    {
        match self.tree.selected_file() {
            Some((repo, _, path)) => {
                let mut raw = name_for(self.repos.as_slice(), repo.as_str());
                push_str(&mut raw, ":");
                push_str(&mut raw, path.as_str());
                proof {
                    reveal_strlit(":");
                }
                Some(neutralize_plain_text(raw.as_str()))
            },
            None => {
                self.notice = Some(String::from_str("no file selected"));
                None
            },
        }
    }

    /// The absolute path to hand to `$EDITOR`, or `None` with a notice explaining why not.
    fn editor_target(&mut self) -> (r: Option<String>)
        ensures
            match target_of(old(self)@.tree) {
                Some((repo, _, path)) => final(self)@ == old(self)@ && sv(r) == Some(join_spec(repo, path)),
                None => final(self)@ == (ControllerV { notice: Some(no_file_notice()), ..old(self)@ })
                    && r is None,
            },
    {
        match self.tree.selected_file() {
            Some((repo, _, path)) => Some(join(repo.as_str(), path.as_str())),
            None => {
                self.notice = Some(String::from_str("no file selected"));
                None
            },
        }
    }

    /// Report what came of a clipboard write of `text`.
    pub fn copy_finished(&mut self, text: &str, outcome: Result<(), String>)
        ensures
            final(self)@ == (ControllerV {
                notice: Some(
                    match outcome {
                        Ok(()) => "copied "@ + text@,
                        Err(e) => "could not copy: "@ + e@,
                    },
                ),
                ..old(self)@
            }),
    {
        let msg = match outcome {
            Ok(()) => {
                let mut m = String::from_str("copied ");
                push_str(&mut m, text);
                m
            },
            Err(e) => {
                let mut m = String::from_str("could not copy: ");
                push_str(&mut m, e.as_str());
                m
            },
        };
        self.notice = Some(msg);
    }

    /// Report the outcome of the run loop's editor hand-off: a failure becomes the notice.
    pub fn editor_finished(&mut self, outcome: Result<(), String>)
        ensures
            final(self)@ == match outcome {
                Ok(()) => old(self)@,
                Err(e) => (ControllerV { notice: Some(e@), ..old(self)@ }),
            },
    {
        if let Err(e) = outcome {
            self.notice = Some(e);
        }
    }
}

/// The scan starts of a repo list, later repeats dropped.
fn first_seen_starts(roots: &[RepoRoot]) -> (r: Vec<String>)
    ensures
        strings_view(r@) == dedup_spec(starts_of(roots@)),
{
    let mut out: Vec<String> = Vec::new();
    let mut i: usize = 0;
    while i < roots.len()
        invariant
            i <= roots@.len(),
            strings_view(out@) == dedup_spec(starts_of(roots@.take(i as int))),
        decreases roots.len() - i,
    {
        let s = &roots[i].scan_root;
        let ghost before = strings_view(out@);
        assert(starts_of(roots@.take(i + 1)).drop_last() =~= starts_of(roots@.take(i as int)));
        assert(starts_of(roots@.take(i + 1)).last() == s@);
        let mut seen = false;
        let mut j: usize = 0;
        while j < out.len()
            invariant
                j <= out@.len(),
                before == strings_view(out@),
                seen == exists|k: int| 0 <= k < j && #[trigger] same_path(before[k], s@),
            decreases out.len() - j,
        {
            assert(before[j as int] == out@[j as int]@);
            if same_place(out[j].as_str(), s.as_str()) {
                seen = true;
            }
            j += 1;
        }
        if !seen {
            out.push(s.clone());
            assert(strings_view(out@) =~= before.push(s@));
        }
        i += 1;
    }
    assert(roots@.take(i as int) =~= roots@);
    out
}

} // verus!
