//! What the panel shows, line by line. Every line is produced by a pure function here, so the
//! layout and content assertions are plain string tests; placing the lines on a screen is the
//! caller's part.
//!
//! Every piece of untrusted text — repo directory names, file paths, git's stderr — passes
//! through the control-sequence scanner before it reaches a line.
use vstd::prelude::*;
use crate::model::{FileEntry, RepoEntry, StatusGroup, file_count, group_title, kind_label};
use crate::render::{Mode, neutralize_plain_text, neutralized, no_controls, is_forbidden};
use crate::text::{chars_of, decimal, push_char, push_decimal, push_str, seq_lt, string_of};
use crate::theme::Role;
use crate::tree::{Row, RowId, RowKey, Tree, keys_view};
use crate::input::{Bindings, RowSpec, key_label, label_of, lookup, labels_sorted, registry, registry_spec, registry_view};
use crate::intent::Intent;
use crate::layout::{Rect, rect_ok};

verus! {

/// One styled run inside a row. It carries a semantic [`Role`], never a style.
#[derive(Debug, Clone, PartialEq, Eq)]
pub struct Segment {
    pub text: String,
    pub role: Role,
}

/// A [`Segment`] as plain values.
pub struct SegV {
    pub text: Seq<char>,
    pub role: Role,
}

impl View for Segment {
    type V = SegV;

    open spec fn view(&self) -> SegV {
        SegV { text: self.text@, role: self.role }
    }
}

pub open spec fn sv(text: Seq<char>, role: Role) -> SegV {
    SegV { text, role }
}

pub open spec fn segs_view(v: Seq<Segment>) -> Seq<SegV> {
    v.map_values(|s: Segment| s@)
}

proof fn lemma_segs_push(v: Seq<Segment>, s: Segment)
    ensures
        segs_view(v.push(s)) == segs_view(v).push(s@),
{
    assert(segs_view(v.push(s)) =~= segs_view(v).push(s@));
}

fn seg(text: String, role: Role) -> (s: Segment)
    ensures
        s@ == sv(text@, role),
{
    Segment { text, role }
}

/// Append a segment.
fn put(out: &mut Vec<Segment>, text: String, role: Role)
    ensures
        segs_view(final(out)@) == segs_view(old(out)@).push(sv(text@, role)),
{
    let s = seg(text, role);
    proof {
        lemma_segs_push(out@, s);
    }
    out.push(s);
}

/// The characters of a row, styling dropped.
pub open spec fn plain_of(segs: Seq<SegV>) -> Seq<char>
    decreases segs.len(),
{
    if segs.len() == 0 {
        Seq::empty()
    } else {
        plain_of(segs.drop_last()) + segs.last().text
    }
}

/// A row's characters with its styling dropped — what the content tests assert on.
pub fn plain(segments: &[Segment]) -> (r: String)
    ensures
        r@ == plain_of(segs_view(segments@)),
{
    let mut out = String::new();
    let mut i: usize = 0;
    while i < segments.len()
        invariant
            i <= segments@.len(),
            out@ == plain_of(segs_view(segments@).take(i as int)),
        decreases segments.len() - i,
    {
        push_str(&mut out, segments[i].text.as_str());
        assert(segs_view(segments@).take(i + 1).drop_last() =~= segs_view(segments@).take(i as int));
        i += 1;
    }
    assert(segs_view(segments@).take(i as int) =~= segs_view(segments@));
    out
}

/// Untrusted text made safe for one row: every terminal control removed, and line breaks turned
/// into spaces — every row here has exactly one line.
pub open spec fn safe_spec(raw: Seq<char>) -> Seq<char> {
    neutralized(raw, Mode::Plain).map_values(|c: char| if c == '\n' || c == '\r' { ' ' } else { c })
}

/// Neutralize untrusted text and collapse it to one line — every row here has exactly one.
pub fn safe(raw: &str) -> (r: String)
    ensures
        r@ == safe_spec(raw@),
        one_line(r@),
{
    let n = neutralize_plain_text(raw);
    let cs = chars_of(n.as_str());
    let mut out = String::new();
    let mut i: usize = 0;
    while i < cs.len()
        invariant
            i <= cs@.len(),
            cs@ == n@,
            out@ == n@.take(i as int).map_values(|c: char| if c == '\n' || c == '\r' { ' ' } else { c }),
        decreases cs.len() - i,
    {
        let c = cs[i];
        if c == '\n' || c == '\r' {
            push_char(&mut out, ' ');
        } else {
            push_char(&mut out, c);
        }
        assert(n@.take(i + 1).map_values(|c: char| if c == '\n' || c == '\r' { ' ' } else { c })
            =~= n@.take(i as int).map_values(|c: char| if c == '\n' || c == '\r' { ' ' } else { c }).push(
            if c == '\n' || c == '\r' { ' ' } else { c }));
        i += 1;
    }
    assert(n@.take(i as int) =~= n@);
    proof {
        assert forall|k: int| 0 <= k < out@.len() implies !is_forbidden(#[trigger] out@[k]) && out@[k] != '\n' && out@[k] != '\r' by {
            assert(!is_forbidden(n@[k]));
        }
    }
    out
}

/// Nothing in `s` can drive a terminal or break the line.
pub open spec fn one_line(s: Seq<char>) -> bool {
    forall|k: int| 0 <= k < s.len() ==> !is_forbidden(#[trigger] s[k]) && s[k] != '\n' && s[k] != '\r'
}

/// Law: whatever untrusted text goes in, what [`safe`] gives back is one line that cannot drive
/// the terminal.
pub proof fn law_safe_text_is_one_inert_line(raw: Seq<char>)
    requires
        no_controls(neutralized(raw, Mode::Plain)),
    ensures
        one_line(safe_spec(raw)),
{
    let n = neutralized(raw, Mode::Plain);
    assert forall|k: int| 0 <= k < safe_spec(raw).len() implies !is_forbidden(#[trigger] safe_spec(raw)[k])
        && safe_spec(raw)[k] != '\n' && safe_spec(raw)[k] != '\r' by {
        assert(!is_forbidden(n[k]));
    }
}

fn decimal_of(n: u64) -> (r: String)
    ensures
        r@ == decimal(n as nat),
{
    let mut s = String::new();
    push_decimal(&mut s, n);
    assert(s@ =~= decimal(n as nat));
    s
}

fn concat(a: &str, b: &str) -> (r: String)
    ensures
        r@ == a@ + b@,
{
    let mut s = String::from_str(a);
    push_str(&mut s, b);
    s
}

/// The title bar's text.
pub open spec fn title_spec(repos: nat, dirty: nat) -> Seq<SegV> {
    let noun = if repos == 1 {
        "repo"@
    } else {
        "repos"@
    };
    seq![
        sv("SCM"@, Role::RepoName),
        sv(" — "@ + decimal(repos) + " "@ + noun + " · "@, Role::Chrome),
        // A clean tree should have nothing lit up in the title.
        sv(decimal(dirty) + " dirty"@, if dirty > 0 { Role::DirtyCount } else { Role::Chrome }),
    ]
}

/// The title bar's text.
pub fn title(counts: (usize, usize)) -> (r: Vec<Segment>)
    ensures
        segs_view(r@) == title_spec(counts.0 as nat, counts.1 as nat),
{
    let (repos, dirty) = counts;
    let noun = if repos == 1 {
        "repo"
    } else {
        "repos"
    };
    let mut out: Vec<Segment> = Vec::new();
    put(&mut out, String::from_str("SCM"), Role::RepoName);
    let mut mid = String::from_str(" — ");
    push_decimal(&mut mid, repos as u64);
    push_str(&mut mid, " ");
    push_str(&mut mid, noun);
    push_str(&mut mid, " · ");
    put(&mut out, mid, Role::Chrome);
    let mut d = decimal_of(dirty as u64);
    push_str(&mut d, " dirty");
    put(&mut out, d, if dirty > 0 { Role::DirtyCount } else { Role::Chrome });
    assert(segs_view(out@) =~= title_spec(repos as nat, dirty as nat));
    out
}

/// The expansion marker.
pub open spec fn marker_spec(collapsed: bool) -> Seq<char> {
    if collapsed {
        seq!['▸', ' ']
    } else {
        seq!['▾', ' ']
    }
}

fn marker(collapsed: bool) -> (r: String)
    ensures
        r@ == marker_spec(collapsed),
{
    let mut s = String::new();
    push_char(&mut s, if collapsed { '▸' } else { '▾' });
    push_char(&mut s, ' ');
    assert(s@ =~= marker_spec(collapsed));
    s
}

/// The two-space separator between a repo row's fields.
pub open spec fn gap_spec() -> SegV {
    sv("  "@, Role::Chrome)
}

/// Lit when there is something to act on, receded when level with the upstream.
pub open spec fn sync_role(n: u32) -> Role {
    if n > 0 {
        Role::Sync
    } else {
        Role::SyncIdle
    }
}

/// A group row: its title and how many files it holds.
pub open spec fn group_line_spec(kind: crate::model::GroupKind, files: nat, collapsed: bool) -> Seq<SegV> {
    seq![
        sv(marker_spec(collapsed), Role::Marker),
        sv(group_title(kind), Role::GroupTitle),
        sv("  "@, Role::Chrome),
        sv(decimal(files), Role::GroupCount),
    ]
}

/// A group row: its title and how many files it holds.
pub fn group_line(group: &StatusGroup, collapsed: bool) -> (r: Vec<Segment>)
    ensures
        segs_view(r@) == group_line_spec(group.kind, group.files@.len(), collapsed),
{
    let mut out: Vec<Segment> = Vec::new();
    put(&mut out, marker(collapsed), Role::Marker);
    put(&mut out, String::from_str(group.kind.title()), Role::GroupTitle);
    put(&mut out, String::from_str("  "), Role::Chrome);
    put(&mut out, decimal_of(group.files.len() as u64), Role::GroupCount);
    assert(segs_view(out@) =~= group_line_spec(group.kind, group.files@.len(), collapsed));
    out
}

/// A file row: the status letter and the repo-relative path, and where a rename came from.
pub open spec fn file_line_spec(file: FileEntry) -> Seq<SegV> {
    seq![
        sv(seq![file.status], Role::Status(file.status)),
        sv(" "@, Role::Chrome),
        sv(safe_spec(file.path@), Role::Path),
    ] + match file.orig_path {
        Some(orig) => seq![sv(" ← "@, Role::Chrome), sv(safe_spec(orig@), Role::OrigPath)],
        None => Seq::empty(),
    }
}

/// A file row: the status letter and the repo-relative path.
pub fn file_line(file: &FileEntry) -> (r: Vec<Segment>)
    ensures
        segs_view(r@) == file_line_spec(*file),
{
    let mut out: Vec<Segment> = Vec::new();
    let mut letter = String::new();
    push_char(&mut letter, file.status);
    assert(letter@ =~= seq![file.status]);
    put(&mut out, letter, Role::Status(file.status));
    put(&mut out, String::from_str(" "), Role::Chrome);
    put(&mut out, safe(file.path.as_str()), Role::Path);
    if let Some(orig) = &file.orig_path {
        put(&mut out, String::from_str(" ← "), Role::Chrome);
        put(&mut out, safe(orig.as_str()), Role::OrigPath);
    }
    assert(segs_view(out@) =~= file_line_spec(*file));
    out
}

/// A row's segments prefixed with `n` spaces of tree indentation.
pub open spec fn indent_spec(n: nat, segs: Seq<SegV>) -> Seq<SegV> {
    seq![sv(Seq::new(n, |i: int| ' '), Role::Chrome)] + segs
}

/// Prefix a row's segments with `n` spaces of tree indentation.
fn indent(n: usize, segments: Vec<Segment>) -> (r: Vec<Segment>)
    ensures
        segs_view(r@) == indent_spec(n as nat, segs_view(segments@)),
{
    let mut spaces = String::new();
    let mut i: usize = 0;
    while i < n
        invariant
            i <= n,
            spaces@ == Seq::new(i as nat, |k: int| ' '),
        decreases n - i,
    {
        push_char(&mut spaces, ' ');
        assert(spaces@ =~= Seq::new((i + 1) as nat, |k: int| ' '));
        i += 1;
    }
    let mut out = segments;
    let s = seg(spaces, Role::Chrome);
    let ghost before = out@;
    out.insert(0, s);
    assert(segs_view(out@) =~= indent_spec(n as nat, segs_view(before)));
    out
}


pub open spec fn rel_part(repo: RepoEntry) -> Seq<SegV> {
    if repo.rel_path@.len() > 0 {
        seq![gap_spec(), sv(safe_spec(repo.rel_path@), Role::RelPath)]
    } else {
        Seq::empty()
    }
}

pub open spec fn branch_part(repo: RepoEntry) -> Seq<SegV> {
    match repo.branch {
        Some(b) => seq![gap_spec(), sv(safe_spec(b@), Role::Branch)],
        None => Seq::empty(),
    }
}

pub open spec fn sync_part(repo: RepoEntry) -> Seq<SegV> {
    match (repo.ahead, repo.behind) {
        (Some(a), Some(b)) => seq![
            gap_spec(),
            sv("↑"@ + decimal(a as nat), sync_role(a)),
            sv(" "@, Role::Chrome),
            sv("↓"@ + decimal(b as nat), sync_role(b)),
        ],
        _ => Seq::empty(),
    }
}

pub open spec fn stale_part(repo: RepoEntry) -> Seq<SegV> {
    if repo.stale {
        seq![gap_spec(), sv("stale"@, Role::Stale)]
    } else {
        Seq::empty()
    }
}

pub open spec fn error_part(repo: RepoEntry) -> Seq<SegV> {
    match repo.error {
        Some(e) => seq![gap_spec(), sv("! "@ + safe_spec(e@), Role::Error)],
        None => Seq::empty(),
    }
}

pub open spec fn dirty_part(repo: RepoEntry) -> Seq<SegV> {
    if file_count(repo.groups@) > 0 {
        seq![gap_spec(), sv(decimal(file_count(repo.groups@)), Role::DirtyCount)]
    } else {
        Seq::empty()
    }
}

/// A repo row: marker, name, relative path (except at the scan start), branch, ahead/behind
/// (only when there is an upstream; each side lit on its own), kind, stale and error marks, and
/// the changed-file count when there is one.
pub open spec fn repo_line_spec(repo: RepoEntry, collapsed: bool) -> Seq<SegV> {
    seq![sv(marker_spec(collapsed), Role::Marker), sv(safe_spec(repo.display_name@), Role::RepoName)]
        + rel_part(repo) + branch_part(repo) + sync_part(repo) + seq![
        gap_spec(),
        sv(kind_label(repo.kind), Role::Kind),
    ] + stale_part(repo) + error_part(repo) + dirty_part(repo)
}

fn push_rel(out: &mut Vec<Segment>, repo: &RepoEntry)
    ensures
        segs_view(final(out)@) == segs_view(old(out)@) + rel_part(*repo),
{
    let ghost a = segs_view(out@);
    if !repo.rel_path.as_str().is_empty() {
        put(out, String::from_str("  "), Role::Chrome);
        put(out, safe(repo.rel_path.as_str()), Role::RelPath);
    }
    assert(segs_view(out@) =~= a + rel_part(*repo));
}

fn push_branch(out: &mut Vec<Segment>, repo: &RepoEntry)
    ensures
        segs_view(final(out)@) == segs_view(old(out)@) + branch_part(*repo),
{
    let ghost a = segs_view(out@);
    if let Some(branch) = &repo.branch {
        put(out, String::from_str("  "), Role::Chrome);
        put(out, safe(branch.as_str()), Role::Branch);
    }
    assert(segs_view(out@) =~= a + branch_part(*repo));
}

fn push_sync(out: &mut Vec<Segment>, repo: &RepoEntry)
    ensures
        segs_view(final(out)@) == segs_view(old(out)@) + sync_part(*repo),
{
    let ghost a = segs_view(out@);
    // No upstream means no arrows at all; `↑0 ↓0` means level with one.
    if let (Some(ahead), Some(behind)) = (repo.ahead, repo.behind) {
        put(out, String::from_str("  "), Role::Chrome);
        let up = concat("↑", decimal_of(ahead as u64).as_str());
        put(out, up, if ahead > 0 { Role::Sync } else { Role::SyncIdle });
        put(out, String::from_str(" "), Role::Chrome);
        let down = concat("↓", decimal_of(behind as u64).as_str());
        put(out, down, if behind > 0 { Role::Sync } else { Role::SyncIdle });
    }
    assert(segs_view(out@) =~= a + sync_part(*repo));
}

fn push_kind(out: &mut Vec<Segment>, repo: &RepoEntry)
    ensures
        segs_view(final(out)@) == segs_view(old(out)@) + seq![
            gap_spec(),
            sv(kind_label(repo.kind), Role::Kind),
        ],
{
    let ghost a = segs_view(out@);
    put(out, String::from_str("  "), Role::Chrome);
    put(out, String::from_str(repo.kind.label()), Role::Kind);
    assert(segs_view(out@) =~= a + seq![gap_spec(), sv(kind_label(repo.kind), Role::Kind)]);
}

fn push_stale(out: &mut Vec<Segment>, repo: &RepoEntry)
    ensures
        segs_view(final(out)@) == segs_view(old(out)@) + stale_part(*repo),
{
    let ghost a = segs_view(out@);
    if repo.stale {
        put(out, String::from_str("  "), Role::Chrome);
        put(out, String::from_str("stale"), Role::Stale);
    }
    assert(segs_view(out@) =~= a + stale_part(*repo));
}

fn push_error(out: &mut Vec<Segment>, repo: &RepoEntry)
    ensures
        segs_view(final(out)@) == segs_view(old(out)@) + error_part(*repo),
{
    let ghost a = segs_view(out@);
    if let Some(error) = &repo.error {
        put(out, String::from_str("  "), Role::Chrome);
        let se = safe(error.as_str());
        let e = concat("! ", se.as_str());
        put(out, e, Role::Error);
    }
    assert(segs_view(out@) =~= a + error_part(*repo));
}

fn push_dirty(out: &mut Vec<Segment>, repo: &RepoEntry)
    requires
        file_count(repo.groups@) <= usize::MAX,
    ensures
        segs_view(final(out)@) == segs_view(old(out)@) + dirty_part(*repo),
{
    let ghost a = segs_view(out@);
    let count = repo.dirty_count();
    if count > 0 {
        put(out, String::from_str("  "), Role::Chrome);
        put(out, decimal_of(count as u64), Role::DirtyCount);
    }
    assert(segs_view(out@) =~= a + dirty_part(*repo));
}

/// A repo row.
pub fn repo_line(repo: &RepoEntry, collapsed: bool) -> (r: Vec<Segment>)
    requires
        file_count(repo.groups@) <= usize::MAX,
    ensures
        segs_view(r@) == repo_line_spec(*repo, collapsed),
{
    let mut out: Vec<Segment> = Vec::new();
    put(&mut out, marker(collapsed), Role::Marker);
    put(&mut out, safe(repo.display_name.as_str()), Role::RepoName);
    push_rel(&mut out, repo);
    push_branch(&mut out, repo);
    push_sync(&mut out, repo);
    push_kind(&mut out, repo);
    push_stale(&mut out, repo);
    push_error(&mut out, repo);
    push_dirty(&mut out, repo);
    assert(segs_view(out@) =~= repo_line_spec(*repo, collapsed));
    out
}

/// The empty state: why it is empty, where we looked, and how to retry.
pub open spec fn empty_state_spec(roots: Seq<Seq<char>>) -> Seq<Seq<char>> {
    seq!["No git repositories found in this workspace."@, Seq::<char>::empty(), "Scanned from:"@]
        + (if roots.len() == 0 {
        seq!["  (no scan start could be determined)"@]
    } else {
        roots.map_values(|r: Seq<char>| "  "@ + safe_spec(r))
    }) + seq![Seq::<char>::empty(), "Press r to scan again."@]
}

/// The empty state: why it is empty, where we looked, and how to retry.
pub fn empty_state_lines(scan_roots: &[String]) -> (r: Vec<String>)
    ensures
        crate::text::views_of(r@) == empty_state_spec(crate::text::views_of(scan_roots@)),
{
    let mut lines: Vec<String> = Vec::new();
    lines.push(String::from_str("No git repositories found in this workspace."));
    lines.push(String::new());
    lines.push(String::from_str("Scanned from:"));
    let ghost head = crate::text::views_of(lines@);
    assert(head =~= seq!["No git repositories found in this workspace."@, Seq::<char>::empty(), "Scanned from:"@]);
    let ghost roots = crate::text::views_of(scan_roots@);
    let ghost middle: Seq<Seq<char>> = if roots.len() == 0 {
        seq!["  (no scan start could be determined)"@]
    } else {
        roots.map_values(|r: Seq<char>| "  "@ + safe_spec(r))
    };
    if scan_roots.len() == 0 {
        lines.push(String::from_str("  (no scan start could be determined)"));
        assert(crate::text::views_of(lines@) =~= head + middle);
    } else {
        let mut i: usize = 0;
        while i < scan_roots.len()
            invariant
                i <= scan_roots@.len(),
                roots == crate::text::views_of(scan_roots@),
                crate::text::views_of(lines@) == head + roots.take(i as int).map_values(
                    |r: Seq<char>| "  "@ + safe_spec(r),
                ),
            decreases scan_roots.len() - i,
        {
            let mut l = String::from_str("  ");
            let sr = safe(scan_roots[i].as_str());
            push_str(&mut l, sr.as_str());
            let ghost before = crate::text::views_of(lines@);
            lines.push(l);
            assert(crate::text::views_of(lines@) =~= before.push(l@));
            assert(roots.take(i + 1).map_values(|r: Seq<char>| "  "@ + safe_spec(r))
                =~= roots.take(i as int).map_values(|r: Seq<char>| "  "@ + safe_spec(r)).push(
                "  "@ + safe_spec(roots[i as int])));
            i += 1;
        }
        assert(roots.take(i as int) =~= roots);
        assert(crate::text::views_of(lines@) =~= head + middle);
    }
    let ghost mid_lines = crate::text::views_of(lines@);
    lines.push(String::new());
    lines.push(String::from_str("Press r to scan again."));
    assert(crate::text::views_of(lines@) =~= mid_lines + seq![Seq::<char>::empty(), "Press r to scan again."@]);
    assert(crate::text::views_of(lines@) =~= empty_state_spec(crate::text::views_of(scan_roots@)));
    lines
}

/// Keep the last `width` characters, marking the cut with a leading `…`.
pub open spec fn truncate_left_spec(t: Seq<char>, width: nat) -> Seq<char> {
    if t.len() <= width {
        t
    } else if width == 0 {
        Seq::empty()
    } else if width == 1 {
        seq!['…']
    } else {
        seq!['…'] + t.skip(t.len() - (width - 1))
    }
}

/// Keep the last `width` characters, marking the cut with a leading `…`.
fn truncate_left(text: &str, width: usize) -> (r: String)
    ensures
        r@ == truncate_left_spec(text@, width as nat),
{
    let cs = chars_of(text);
    let count = cs.len();
    if count <= width {
        return String::from_str(text);
    }
    if width == 0 {
        return String::new();
    }
    let mut out = String::new();
    push_char(&mut out, '…');
    if width > 1 {
        let tail = crate::text::sub_vec(cs.as_slice(), count - (width - 1), count);
        let ts = string_of(tail.as_slice());
        push_str(&mut out, ts.as_str());
    }
    assert(out@ =~= truncate_left_spec(text@, width as nat));
    out
}


/// The diff region's title: the selected file's path, or for a repo or group row its repo's
/// name (empty when that repo no longer resolves), or a note that nothing is selected —
/// truncated from the LEFT, because the file name matters more than the directories above it.
pub open spec fn diff_title_spec(selected: Option<Row>, repos: Seq<RepoEntry>, width: nat) -> Seq<char> {
    let text = match selected {
        Some(row) => match row.id {
            RowId::File { path, .. } => safe_spec(path@),
            _ => if row.repo_idx < repos.len() {
                safe_spec(repos[row.repo_idx as int].display_name@)
            } else {
                Seq::empty()
            },
        },
        None => "no file selected"@,
    };
    truncate_left_spec(text, width)
}

/// The diff region's title: which file (or repo) the patch below belongs to.
pub fn diff_title(selected: Option<&Row>, repos: &[RepoEntry], width: u16) -> (r: String)
    ensures
        r@ == diff_title_spec(
            match selected {
                Some(row) => Some(*row),
                None => None,
            },
            repos@,
            width as nat,
        ),
{
    let text = match selected {
        Some(row) => match &row.id {
            RowId::File { path, .. } => safe(path.as_str()),
            // A repo or group row has no diff of its own; naming the repo is more use than
            // saying nothing.
            _ => if row.repo_idx < repos.len() {
                safe(repos[row.repo_idx].display_name.as_str())
            } else {
                String::new()
            },
        },
        None => String::from_str("no file selected"),
    };
    truncate_left(text.as_str(), width as usize)
}

/// `s` padded with spaces to at least `w` characters (`{:<w}`).
pub open spec fn pad_right(s: Seq<char>, w: nat) -> Seq<char> {
    if s.len() >= w {
        s
    } else {
        s + Seq::new((w - s.len()) as nat, |i: int| ' ')
    }
}

/// Whether `ks` is what [`Bindings::keys_for`] gives for `intent`: every key bound to it, once
/// each, ordered by label.
pub open spec fn keys_listing(map: Seq<(crate::input::KeyCode, Intent)>, intent: Intent, ks: Seq<crate::input::KeyCode>) -> bool {
    &&& forall|k: crate::input::KeyCode| #[trigger] ks.contains(k) == (lookup(map, k) == Some(intent))
    &&& ks.no_duplicates()
    &&& labels_sorted(ks)
}

proof fn lemma_sorted_listing_unique(a: Seq<crate::input::KeyCode>, b: Seq<crate::input::KeyCode>)
    requires
        a.no_duplicates(),
        b.no_duplicates(),
        labels_sorted(a),
        labels_sorted(b),
        forall|k: crate::input::KeyCode| a.contains(k) == b.contains(k),
    ensures
        a == b,
    decreases a.len(),
{
    if a.len() == 0 {
        if b.len() > 0 {
            assert(b.contains(b[0]));
        }
        assert(a =~= b);
    } else {
        assert(a.contains(a[0]));
        assert(b.len() > 0);
        assert(b.contains(b[0]));
        let i = choose|i: int| 0 <= i < a.len() && a[i] == b[0];
        let j = choose|j: int| 0 <= j < b.len() && b[j] == a[0];
        if i != 0 && j != 0 {
            assert(!seq_lt(label_of(a[i]), label_of(a[0])));
            assert(!seq_lt(label_of(b[j]), label_of(b[0])));
            crate::text::lemma_lt_trichotomy(label_of(a[0]), label_of(b[0]), 0);
            assert(label_of(a[0]) =~= label_of(b[0]));
            crate::input::lemma_label_injective(a[0], b[0]);
        }
        assert(a[0] == b[0]);
        let a1 = a.drop_first();
        let b1 = b.drop_first();
        assert forall|k: crate::input::KeyCode| a1.contains(k) == b1.contains(k) by {
            if a1.contains(k) {
                let p = choose|p: int| 0 <= p < a1.len() && a1[p] == k;
                assert(a[p + 1] == k);
                assert(k != a[0]);
                assert(a.contains(k));
                let q = choose|q: int| 0 <= q < b.len() && b[q] == k;
                assert(q != 0);
                assert(b1[q - 1] == k);
            }
            if b1.contains(k) {
                let p = choose|p: int| 0 <= p < b1.len() && b1[p] == k;
                assert(b[p + 1] == k);
                assert(k != b[0]);
                assert(b.contains(k));
                let q = choose|q: int| 0 <= q < a.len() && a[q] == k;
                assert(q != 0);
                assert(a1[q - 1] == k);
            }
        }
        assert forall|x: int, y: int| 0 <= x < y < a1.len() implies !seq_lt(label_of(#[trigger] a1[y]), label_of(#[trigger] a1[x])) by {
            assert(a1[x] == a[x + 1] && a1[y] == a[y + 1]);
        }
        assert forall|x: int, y: int| 0 <= x < y < b1.len() implies !seq_lt(label_of(#[trigger] b1[y]), label_of(#[trigger] b1[x])) by {
            assert(b1[x] == b[x + 1] && b1[y] == b[y + 1]);
        }
        assert(a1.no_duplicates()) by {
            assert forall|x: int, y: int| 0 <= x < a1.len() && 0 <= y < a1.len() && x != y implies a1[x] != a1[y] by {
                assert(a1[x] == a[x + 1] && a1[y] == a[y + 1]);
            }
        }
        assert(b1.no_duplicates()) by {
            assert forall|x: int, y: int| 0 <= x < b1.len() && 0 <= y < b1.len() && x != y implies b1[x] != b1[y] by {
                assert(b1[x] == b[x + 1] && b1[y] == b[y + 1]);
            }
        }
        lemma_sorted_listing_unique(a1, b1);
        assert(a =~= seq![a[0]] + a1);
        assert(b =~= seq![b[0]] + b1);
    }
}

/// Law: the bindings determine the key listing of an action completely — there is exactly one
/// sequence that lists an action's keys, once each, in label order — so each help line is one
/// definite string.
pub proof fn law_key_listing_is_unique(
    map: Seq<(crate::input::KeyCode, Intent)>,
    intent: Intent,
    a: Seq<crate::input::KeyCode>,
    b: Seq<crate::input::KeyCode>,
)
    requires
        keys_listing(map, intent, a),
        keys_listing(map, intent, b),
    ensures
        a == b,
{
    assert forall|k: crate::input::KeyCode| a.contains(k) == b.contains(k) by {
        assert(a.contains(k) == (lookup(map, k) == Some(intent)));
        assert(b.contains(k) == (lookup(map, k) == Some(intent)));
    }
    lemma_sorted_listing_unique(a, b);
}

/// Whether `line` is the help line of `row`: its keys are what [`Bindings::keys_for`] gives.
pub open spec fn help_line_ok(map: Seq<(crate::input::KeyCode, Intent)>, row: RowSpec, line: Seq<char>) -> bool {
    exists|ks: Seq<crate::input::KeyCode>|
        #[trigger] keys_listing(map, row.intent, ks) && line == help_line_spec(ks, row.description)
}

/// One help line: the keys' labels joined with ` / `, padded to 12 columns, then the
/// description.
pub open spec fn help_line_spec(ks: Seq<crate::input::KeyCode>, description: Seq<char>) -> Seq<char> {
    pad_right(crate::text::join_with(ks.map_values(|k: crate::input::KeyCode| label_of(k)), " / "@), 12)
        + "  "@ + description
}

fn spaces(n: usize) -> (r: String)
    ensures
        r@ == Seq::new(n as nat, |i: int| ' '),
{
    let mut s = String::new();
    let mut i: usize = 0;
    while i < n
        invariant
            i <= n,
            s@ == Seq::new(i as nat, |k: int| ' '),
        decreases n - i,
    {
        push_char(&mut s, ' ');
        assert(s@ =~= Seq::new((i + 1) as nat, |k: int| ' '));
        i += 1;
    }
    s
}

/// The help overlay: every action, in registry order, with its effective keys.
pub fn help_lines(bindings: &Bindings) -> (r: Vec<String>)
    ensures
        r@.len() == registry_spec().len(),
        forall|i: int| 0 <= i < r@.len() ==> help_line_ok(bindings@.map, registry_spec()[i], #[trigger] r@[i]@),
{
    let reg = registry();
    let mut out: Vec<String> = Vec::new();
    let mut i: usize = 0;
    while i < reg.len()
        invariant
            registry_view(reg@) == registry_spec(),
            i <= reg@.len(),
            out@.len() == i,
            forall|j: int| 0 <= j < i ==> help_line_ok(bindings@.map, registry_spec()[j], #[trigger] out@[j]@),
        decreases reg.len() - i,
    {
        assert(reg@[i as int]@ == registry_spec()[i as int]);
        let ks = bindings.keys_for(reg[i].intent);
        let mut labels: Vec<String> = Vec::new();
        let mut k: usize = 0;
        while k < ks.len()
            invariant
                k <= ks@.len(),
                crate::text::views_of(labels@) == ks@.take(k as int).map_values(|c: crate::input::KeyCode| label_of(c)),
            decreases ks.len() - k,
        {
            let l = key_label(ks[k]);
            let ghost before = crate::text::views_of(labels@);
            labels.push(l);
            assert(crate::text::views_of(labels@) =~= before.push(label_of(ks@[k as int])));
            assert(ks@.take(k + 1).map_values(|c: crate::input::KeyCode| label_of(c)) =~= ks@.take(k as int).map_values(
                |c: crate::input::KeyCode| label_of(c),
            ).push(label_of(ks@[k as int])));
            k += 1;
        }
        assert(ks@.take(k as int) =~= ks@);
        let joined = crate::text::join_prefix(labels.as_slice(), labels.len(), " / ");
        assert(crate::text::views_of(labels@).take(labels@.len() as int) =~= crate::text::views_of(labels@));
        let jl = chars_of(joined.as_str()).len();
        let mut line = joined;
        if jl < 12 {
            let pad = spaces(12 - jl);
            push_str(&mut line, pad.as_str());
        }
        push_str(&mut line, "  ");
        push_str(&mut line, reg[i].description);
        let ghost lv = line@;
        assert(lv =~= help_line_spec(ks@, registry_spec()[i as int].description));
        assert(keys_listing(bindings@.map, registry_spec()[i as int].intent, ks@));
        out.push(line);
        assert forall|j: int| 0 <= j < i + 1 implies help_line_ok(bindings@.map, registry_spec()[j], #[trigger] out@[j]@) by {
            if j == i {
                assert(out@[j]@ == lv);
            }
        }
        i += 1;
    }
    out
}

/// The widest of `lines`, in characters.
pub open spec fn widest(lines: Seq<Seq<char>>) -> nat
    decreases lines.len(),
{
    if lines.len() == 0 {
        0
    } else if lines.last().len() > widest(lines.drop_last()) {
        lines.last().len()
    } else {
        widest(lines.drop_last())
    }
}

/// The help overlay's width: as wide as its widest line plus borders and padding, never wider
/// than the pane can hold, and never zero.
pub open spec fn help_width_spec(lines: Seq<Seq<char>>, available: u16) -> u16 {
    let content = ((widest(lines) + 4) as u16);
    let room: u16 = if available >= 2 {
        (available - 2) as u16
    } else {
        0
    };
    let w = if content < room {
        content
    } else {
        room
    };
    if w < 1 {
        1
    } else {
        w
    }
}

/// The help overlay's width: as wide as its widest line, never wider than the pane can hold.
///
/// `+ 4` covers the two borders and a column of padding each side.
pub fn help_width(lines: &[String], available: u16) -> (r: u16)
    ensures
        r == help_width_spec(crate::text::views_of(lines@), available),
{
    let mut content: usize = 0;
    let mut i: usize = 0;
    while i < lines.len()
        invariant
            i <= lines@.len(),
            content == widest(crate::text::views_of(lines@).take(i as int)),
        decreases lines.len() - i,
    {
        let n = chars_of(lines[i].as_str()).len();
        assert(crate::text::views_of(lines@).take(i + 1).drop_last() =~= crate::text::views_of(lines@).take(i as int));
        if n > content {
            content = n;
        }
        i += 1;
    }
    assert(crate::text::views_of(lines@).take(i as int) =~= crate::text::views_of(lines@));
    let total: u128 = content as u128 + 4;
    let c = total as u16;
    let room: u16 = if available >= 2 {
        available - 2
    } else {
        0
    };
    let w = if c < room {
        c
    } else {
        room
    };
    if w < 1 {
        1
    } else {
        w
    }
}

/// The bottom line: what just happened on the left, where the cursor is on the right.
///
/// The position `cursor+1/total` always survives, cut to the width when nothing else fits;
/// otherwise the notice (made safe) fills what is left of the row but one column of gap, and
/// spaces pad the middle. Character counts, not display widths.
pub open spec fn status_bar_spec(notice: Option<Seq<char>>, cursor: nat, total: nat, width: nat) -> Seq<char> {
    let position = decimal(cursor + 1) + "/"@ + decimal(total);
    if width == 0 {
        Seq::empty()
    } else if position.len() >= width {
        position.take(width as int)
    } else {
        let left_room = width - position.len() - 1;
        let safe_notice = match notice {
            Some(n) => safe_spec(n),
            None => Seq::empty(),
        };
        let left = if safe_notice.len() <= left_room {
            safe_notice
        } else {
            safe_notice.take(left_room)
        };
        left + Seq::new((width - position.len() - left.len()) as nat, |i: int| ' ') + position
    }
}

/// The bottom line: what just happened on the left, where the cursor is on the right.
pub fn status_bar_line(notice: Option<&str>, cursor: usize, total: usize, width: u16) -> (r: String)
    requires
        cursor < usize::MAX,
    ensures
        r@ == status_bar_spec(
            match notice {
                Some(n) => Some(n@),
                None => None,
            },
            cursor as nat,
            total as nat,
            width as nat,
        ),
{
    let width = width as usize;
    if width == 0 {
        return String::new();
    }
    let mut position = decimal_of((cursor + 1) as u64);
    push_str(&mut position, "/");
    let tot = decimal_of(total as u64);
    push_str(&mut position, tot.as_str());
    let pc = chars_of(position.as_str());
    if pc.len() >= width {
        // No room for both: the position is the part that is always true.
        let r = string_of(crate::text::sub_vec(pc.as_slice(), 0, width).as_slice());
        assert(r@ =~= position@.take(width as int));
        return r;
    }
    // One column of gap so a full-width notice cannot run into the position.
    let left_room = width - pc.len() - 1;
    let sn = match notice {
        Some(n) => safe(n),
        None => String::new(),
    };
    let nc = chars_of(sn.as_str());
    let keep = if nc.len() <= left_room {
        nc.len()
    } else {
        left_room
    };
    let left = string_of(crate::text::sub_vec(nc.as_slice(), 0, keep).as_slice());
    let pad = spaces(width - pc.len() - keep);
    let mut out = left;
    push_str(&mut out, pad.as_str());
    push_str(&mut out, position.as_str());
    proof {
        let sn_spec = match notice {
            Some(n) => safe_spec(n@),
            None => Seq::<char>::empty(),
        };
        assert(sn@ == sn_spec);
        if nc@.len() <= left_room {
            assert(nc@.subrange(0, keep as int) =~= sn_spec);
        } else {
            assert(nc@.subrange(0, keep as int) =~= sn_spec.take(left_room as int));
        }
    }
    out
}

/// Law: the status bar is exactly as wide as its row, whatever the notice; and when the row can
/// hold the position, the position sits flush against the right edge.
pub proof fn law_status_bar_fills_its_row_and_keeps_the_position(
    notice: Option<Seq<char>>,
    cursor: nat,
    total: nat,
    width: nat,
)
    ensures
        status_bar_spec(notice, cursor, total, width).len() == width,
        (decimal(cursor + 1) + "/"@ + decimal(total)).len() < width ==> status_bar_spec(
            notice,
            cursor,
            total,
            width,
        ).subrange(width - (decimal(cursor + 1) + "/"@ + decimal(total)).len(), width as int) == decimal(
            cursor + 1,
        ) + "/"@ + decimal(total),
{
    let position = decimal(cursor + 1) + "/"@ + decimal(total);
    let r = status_bar_spec(notice, cursor, total, width);
    if width > 0 && position.len() < width {
        let left_room = width - position.len() - 1;
        let safe_notice = match notice {
            Some(n) => safe_spec(n),
            None => Seq::<char>::empty(),
        };
        let left = if safe_notice.len() <= left_room {
            safe_notice
        } else {
            safe_notice.take(left_room as int)
        };
        let pad = Seq::new((width - position.len() - left.len()) as nat, |i: int| ' ');
        assert(r == left + pad + position);
        assert(r.subrange(width - position.len(), width as int) =~= position);
    }
}

/// How many rows of context to keep above and below the cursor.
pub const SCROLLOFF: usize = 3;

/// Where a `height`-tall window over `total` rows should start, given where it started on the
/// previous frame: it holds still while the cursor stays at least `scrolloff` rows (capped so
/// both margins can hold in a short window) from either edge, otherwise moves the minimum needed
/// to restore that margin, and never starts past `total - height`.
pub open spec fn window_start_spec(prev: int, total: int, cursor: int, height: int, scrolloff: int) -> int {
    if height == 0 || total <= height {
        0
    } else {
        let max_first = total - height;
        let off = if scrolloff < (height - 1) / 2 {
            scrolloff
        } else {
            (height - 1) / 2
        };
        let start = if prev < max_first {
            prev
        } else {
            max_first
        };
        let first = if cursor < start + off {
            if cursor >= off {
                cursor - off
            } else {
                0
            }
        } else if cursor + off + 1 > start + height {
            cursor + off + 1 - height
        } else {
            start
        };
        if first < max_first {
            first
        } else {
            max_first
        }
    }
}

/// Where a `height`-tall window should start, given where it started on the previous frame.
///
/// vim's scrolloff rule. The final clamp is load-bearing rather than defensive: the panel
/// re-polls every few seconds and `total` shrinks under the user, so a remembered `prev` is
/// routinely out of range by the next frame.
pub fn window_start(prev: usize, total: usize, cursor: usize, height: usize, scrolloff: usize) -> (r: usize)
    ensures
        r == window_start_spec(prev as int, total as int, cursor as int, height as int, scrolloff as int),
{
    if height == 0 || total <= height {
        return 0;
    }
    let max_first = total - height;
    // Capped so the top and bottom margins can both hold in a short window.
    let cap = (height - 1) / 2;
    let off = if scrolloff < cap {
        scrolloff
    } else {
        cap
    };
    let mut first = if prev < max_first {
        prev
    } else {
        max_first
    };
    // `cursor + off + 1 > first + height`, without overflow: `first + height <= total`.
    let reach = height - off - 1;
    if cursor < first + off {
        first = if cursor >= off {
            cursor - off
        } else {
            0
        };
    } else if cursor - first > reach {
        first = cursor - reach;
    }
    if first < max_first {
        first
    } else {
        max_first
    }
}

/// Law: the window always shows the cursor's row when the cursor is on a row, and never starts
/// so late that rows go missing at the bottom.
pub proof fn law_window_keeps_the_cursor_visible(prev: int, total: int, cursor: int, height: int, scrolloff: int)
    requires
        0 <= prev,
        0 <= cursor < total,
        0 < height,
        0 <= scrolloff,
    ensures
        window_start_spec(prev, total, cursor, height, scrolloff) <= cursor < window_start_spec(prev, total, cursor, height, scrolloff) + height,
        total > height ==> window_start_spec(prev, total, cursor, height, scrolloff) + height <= total,
{
}

// ---- the tree's window ---------------------------------------------------------------------------

/// Which slice of the row list to draw, where it lands on screen, and how the cursor row should
/// look.
#[derive(Debug, Clone, Copy)]
pub struct Window {
    /// Index of the first row to draw.
    pub first: usize,
    /// Index of the cursor within the row list.
    pub cursor: usize,
    /// How many rows fit.
    pub height: usize,
    /// The screen row the window's first drawn line lands on.
    pub base_y: u16,
    /// Whether the TREE has focus, which decides the cursor row's treatment.
    pub focused: bool,
}

/// A row's segments, when its indices resolve against `repos`.
pub open spec fn row_segs(row: Row, repos: Seq<RepoEntry>, c: Seq<RowKey>) -> Option<Seq<SegV>> {
    if row.repo_idx >= repos.len() {
        None
    } else {
        let repo = repos[row.repo_idx as int];
        match row.id {
            RowId::Repo { .. } => Some(repo_line_spec(repo, c.contains(row.id@))),
            RowId::Group { .. } => match row.group_idx {
                Some(g) => if g < repo.groups@.len() {
                    Some(
                        indent_spec(
                            2,
                            group_line_spec(
                                repo.groups@[g as int].kind,
                                repo.groups@[g as int].files@.len(),
                                c.contains(row.id@),
                            ),
                        ),
                    )
                } else {
                    None
                },
                None => None,
            },
            RowId::File { .. } => match (row.group_idx, row.file_idx) {
                (Some(g), Some(f)) => if g < repo.groups@.len() && f
                    < repo.groups@[g as int].files@.len() {
                    Some(indent_spec(4, file_line_spec(repo.groups@[g as int].files@[f as int])))
                } else {
                    None
                },
                _ => None,
            },
        }
    }
}

/// The drawn lines of rows `first..first+n`, each with its row index; a row whose indices do not
/// resolve is skipped.
pub open spec fn drawn_rows(rows: Seq<Row>, repos: Seq<RepoEntry>, c: Seq<RowKey>, first: int, n: int) -> Seq<(Seq<SegV>, int)>
    decreases n,
{
    if n <= 0 {
        Seq::empty()
    } else {
        let prev = drawn_rows(rows, repos, c, first, n - 1);
        match row_segs(rows[first + n - 1], repos, c) {
            Some(segs) => prev.push((segs, first + n - 1)),
            None => prev,
        }
    }
}

/// How many rows a window shows.
pub open spec fn window_len(total: int, win: Window) -> int {
    let avail = if win.first < total {
        total - win.first
    } else {
        0
    };
    if (win.height as int) < avail {
        win.height as int
    } else {
        avail
    }
}

/// Every repo's changed-file count fits a `usize`.
pub open spec fn counts_fit(repos: Seq<RepoEntry>) -> bool {
    forall|i: int| 0 <= i < repos.len() ==> file_count(#[trigger] repos[i].groups@) <= usize::MAX
}

/// The pure heart of drawing the tree: which rows are visible in the window, formatted, each
/// flagged when it is the cursor's, alongside the screen row and row index of every drawn line.
///
/// A row whose indices do not resolve against `repos` is skipped — and skipping never lets a
/// reported screen row diverge from the line's actual one: the lines are packed from `base_y`.
#[verifier::spinoff_prover]
pub fn windowed_rows(rows: &[Row], repos: &[RepoEntry], win: Window, tree: &Tree) -> (r: (
    Vec<(Vec<Segment>, bool)>,
    Vec<(u16, usize)>,
))
    requires
        counts_fit(repos@),
        win.base_y + win.height <= u16::MAX,
    ensures
        ({
            let d = drawn_rows(rows@, repos@, tree@.collapsed, win.first as int, window_len(rows@.len() as int, win));
            &&& r.0@.len() == d.len()
            &&& r.1@.len() == d.len()
            &&& forall|k: int|
                0 <= k < d.len() ==> {
                    &&& segs_view((#[trigger] r.0@[k]).0@) == d[k].0
                    &&& r.0@[k].1 == (d[k].1 == win.cursor)
                    &&& r.1@[k] == ((win.base_y + k) as u16, d[k].1 as usize)
                }
        }),
{
    let ghost c = tree@.collapsed;
    let avail = if win.first < rows.len() {
        rows.len() - win.first
    } else {
        0
    };
    let n = if win.height < avail {
        win.height
    } else {
        avail
    };
    let mut lines: Vec<(Vec<Segment>, bool)> = Vec::new();
    let mut hits: Vec<(u16, usize)> = Vec::new();
    let mut offset: usize = 0;
    while offset < n
        invariant
            c == tree@.collapsed,
            counts_fit(repos@),
            win.base_y + win.height <= u16::MAX,
            n == window_len(rows@.len() as int, win),
            n <= win.height,
            n == 0 || win.first + n <= rows@.len(),
            offset <= n,
            ({
                let d = drawn_rows(rows@, repos@, c, win.first as int, offset as int);
                &&& lines@.len() == d.len()
                &&& hits@.len() == d.len()
                &&& d.len() <= offset
                &&& forall|k: int|
                    0 <= k < d.len() ==> {
                        &&& segs_view((#[trigger] lines@[k]).0@) == d[k].0
                        &&& lines@[k].1 == (d[k].1 == win.cursor)
                        &&& hits@[k] == ((win.base_y + k) as u16, d[k].1 as usize)
                    }
            }),
        decreases n - offset,
    {
        let index = win.first + offset;
        let row = &rows[index];
        let ghost d0 = drawn_rows(rows@, repos@, c, win.first as int, offset as int);
        let segments: Option<Vec<Segment>> = if row.repo_idx < repos.len() {
            let repo = &repos[row.repo_idx];
            assert(file_count(repos@[row.repo_idx as int].groups@) <= usize::MAX);
            match &row.id {
                RowId::Repo { .. } => Some(repo_line(repo, tree.is_collapsed(&row.id))),
                RowId::Group { .. } => match row.group_idx {
                    Some(g) => if g < repo.groups.len() {
                        Some(indent(2, group_line(&repo.groups[g], tree.is_collapsed(&row.id))))
                    } else {
                        None
                    },
                    None => None,
                },
                RowId::File { .. } => match (row.group_idx, row.file_idx) {
                    (Some(g), Some(f)) => if g < repo.groups.len() && f < repo.groups[g].files.len() {
                        Some(indent(4, file_line(&repo.groups[g].files[f])))
                    } else {
                        None
                    },
                    _ => None,
                },
            }
        } else {
            None
        };
        proof {
            assert(rows@[win.first + (offset + 1) - 1] == *row);
        }
        match segments {
            Some(segs) => {
                // Derived from what has actually been pushed so far, not from `offset`, which
                // counts skipped rows too.
                let y = win.base_y + lines.len() as u16;
                let ghost sv_ = segs_view(segs@);
                hits.push((y, index));
                lines.push((segs, index == win.cursor));
                proof {
                    let d1 = drawn_rows(rows@, repos@, c, win.first as int, offset + 1);
                    assert(d1 == d0.push((sv_, index as int)));
                    assert forall|k: int| 0 <= k < d1.len() implies {
                        &&& segs_view((#[trigger] lines@[k]).0@) == d1[k].0
                        &&& lines@[k].1 == (d1[k].1 == win.cursor)
                        &&& hits@[k] == ((win.base_y + k) as u16, d1[k].1 as usize)
                    } by {
                        if k < d0.len() {
                            assert(d1[k] == d0[k]);
                        }
                    }
                }
            },
            None => {
                proof {
                    let d1 = drawn_rows(rows@, repos@, c, win.first as int, offset + 1);
                    assert(d1 == d0);
                }
            },
        }
        offset += 1;
    }
    (lines, hits)
}
// ---- the frame ---------------------------------------------------------------------------------

/// Where a frame's parts go: a title row, the body, and a status bar row when the pane can spare
/// one.
#[derive(Debug, Clone, Copy, PartialEq, Eq, Structural)]
pub struct FrameLayout {
    pub title: Rect,
    pub body: Rect,
    pub status: Option<Rect>,
}

/// The frame's parts: one row of title, one of status bar, the rest for the body. The status
/// bar costs a row, so it is only carved out when the pane can spare one (title + status + three
/// rows of content); on a one-row pane the title wins. Nothing for an empty pane.
pub open spec fn frame_layout_spec(area: Rect) -> Option<FrameLayout> {
    if area.width == 0 || area.height == 0 {
        None
    } else {
        let status_rows: int = if area.height >= 5 {
            1
        } else {
            0
        };
        Some(
            FrameLayout {
                title: Rect { x: area.x, y: area.y, width: area.width, height: 1 },
                body: Rect {
                    x: area.x,
                    y: (area.y + 1) as u16,
                    width: area.width,
                    height: (area.height - 1 - status_rows) as u16,
                },
                status: if status_rows == 1 {
                    Some(Rect { x: area.x, y: (area.y + area.height - 1) as u16, width: area.width, height: 1 })
                } else {
                    None
                },
            },
        )
    }
}

/// Where a frame's parts go; `None` for an empty pane.
pub fn frame_layout(area: Rect) -> (r: Option<FrameLayout>)
    requires
        rect_ok(area),
    ensures
        r == frame_layout_spec(area),
{
    if area.width == 0 || area.height == 0 {
        return None;
    }
    let status_rows: u16 = if area.height >= 5 {
        1
    } else {
        0
    };
    Some(
        FrameLayout {
            title: Rect { x: area.x, y: area.y, width: area.width, height: 1 },
            body: Rect { x: area.x, y: area.y + 1, width: area.width, height: area.height - 1 - status_rows },
            status: if status_rows == 1 {
                Some(Rect { x: area.x, y: area.y + area.height - 1, width: area.width, height: 1 })
            } else {
                None
            },
        },
    )
}

/// The bottom row of a pane too short for a status bar, where a notice overlays the content;
/// nothing below two rows.
pub fn notice_row(area: Rect) -> (r: Option<Rect>)
    requires
        rect_ok(area),
    ensures
        r == (if area.height < 2 {
            None
        } else {
            Some(Rect { x: area.x, y: (area.y + area.height - 1) as u16, width: area.width, height: 1 })
        }),
{
    if area.height < 2 {
        None
    } else {
        Some(Rect { x: area.x, y: area.y + area.height - 1, width: area.width, height: 1 })
    }
}

/// The help overlay's box: `width` wide, tall enough for `lines` plus its borders (never taller
/// than the pane), centered in `area`.
pub open spec fn help_area_spec(area: Rect, width: u16, lines: nat) -> Rect {
    let want = lines + 2;
    let height: int = if want < area.height {
        want as int
    } else {
        area.height as int
    };
    let spare_w: int = if area.width >= width {
        area.width - width
    } else {
        0
    };
    let spare_h: int = if area.height >= height {
        area.height - height
    } else {
        0
    };
    Rect { x: (area.x + spare_w / 2) as u16, y: (area.y + spare_h / 2) as u16, width, height: height as u16 }
}

/// The help overlay's box, centered in `area`.
pub fn help_area(area: Rect, width: u16, lines: usize) -> (r: Rect)
    requires
        rect_ok(area),
        width <= area.width,
    ensures
        r == help_area_spec(area, width, lines as nat),
        rect_ok(r),
{
    let height: u16 = if lines < area.height as usize && lines + 2 < area.height as usize {
        (lines + 2) as u16
    } else {
        area.height
    };
    let spare_w = area.width - width;
    let spare_h = area.height - height;
    Rect { x: area.x + spare_w / 2, y: area.y + spare_h / 2, width, height }
}

} // verus!
