//! What the panel asks herdr and what it makes of the answers.
//!
//! Running herdr is the caller's part; this module decides which arguments are safe to pass and
//! reads the pane list once it has been parsed. Read-only with respect to files and git: the
//! panel runs herdr *queries* plus the occasional host **layout** command (`pane zoom`).
use vstd::prelude::*;
use crate::config::strings_view;
use crate::input::strs_view;
use crate::path::{is_abs, same_path, same_place};
use crate::text::{chars_of, is_ctrl, is_ws, is_control, is_whitespace, str_eq, views_of};

verus! {

/// Whether a host-supplied id is safe to pass as a CLI argument: non-empty, no leading `-`
/// (which would option-inject), no whitespace or control characters.
pub open spec fn flag_safe(s: Seq<char>) -> bool {
    s.len() > 0 && s[0] != '-' && forall|i: int| 0 <= i < s.len() ==> !is_ws(#[trigger] s[i]) && !is_ctrl(s[i])
}

/// Whether a host-supplied id is safe to pass as a CLI argument: non-empty, no leading `-`
/// (which would option-inject), no whitespace or control characters.
pub fn is_flag_safe(s: &str) -> (r: bool)
    ensures
        r == flag_safe(s@),
{
    let cs = chars_of(s);
    if cs.len() == 0 || cs[0] == '-' {
        return false;
    }
    let mut i: usize = 0;
    while i < cs.len()
        invariant
            cs@ == s@,
            i <= cs@.len(),
            forall|k: int| 0 <= k < i ==> !is_ws(#[trigger] cs@[k]) && !is_ctrl(cs@[k]),
        decreases cs.len() - i,
    {
        if is_whitespace(cs[i]) || is_control(cs[i]) {
            return false;
        }
        i += 1;
    }
    true
}

/// The `herdr pane list` arguments: scoped to the workspace server-side when its id is safe to
/// pass, otherwise everything (filtered here afterwards). No `--json` flag: herdr already emits
/// JSON and rejects the flag.
pub open spec fn pane_list_argv(workspace_id: Option<Seq<char>>) -> Seq<Seq<char>> {
    match workspace_id {
        Some(id) => if flag_safe(id) {
            seq!["pane"@, "list"@, "--workspace"@, id]
        } else {
            seq!["pane"@, "list"@]
        },
        None => seq!["pane"@, "list"@],
    }
}

/// The `herdr pane list` arguments for a workspace.
pub fn pane_list_args<'a>(workspace_id: Option<&'a str>) -> (r: Vec<&'a str>)
    ensures
        strs_view(r@) == pane_list_argv(
            match workspace_id {
                Some(w) => Some(w@),
                None => None,
            },
        ),
{
    let mut args: Vec<&'a str> = Vec::new();
    args.push("pane");
    args.push("list");
    if let Some(id) = workspace_id {
        if is_flag_safe(id) {
            args.push("--workspace");
            args.push(id);
        }
    }
    assert(strs_view(args@) =~= pane_list_argv(
        match workspace_id {
            Some(w) => Some(w@),
            None => None,
        },
    ));
    args
}

/// The arguments that toggle this pane's herdr zoom.
pub open spec fn zoom_argv() -> Seq<Seq<char>> {
    seq!["pane"@, "zoom"@, "--current"@, "--toggle"@]
}

/// The arguments that toggle this pane's herdr zoom (the `Z` key).
pub fn zoom_args() -> (r: Vec<&'static str>)
    ensures
        strs_view(r@) == zoom_argv(),
{
    let mut args: Vec<&'static str> = Vec::new();
    args.push("pane");
    args.push("zoom");
    args.push("--current");
    args.push("--toggle");
    assert(strs_view(args@) =~= zoom_argv());
    args
}

/// One entry of a `herdr pane list` payload, as far as the scan cares.
#[derive(Debug, Clone, Default, PartialEq, Eq)]
pub struct PaneRecord {
    pub cwd: Option<String>,
    pub foreground_cwd: Option<String>,
    pub workspace_id: Option<String>,
    pub focused: bool,
}

pub open spec fn ov(o: Option<String>) -> Option<Seq<char>> {
    match o {
        Some(s) => Some(s@),
        None => None,
    }
}

/// The workspace the scan is scoped to: the given id, else the focused pane's.
pub open spec fn scope_of(panes: Seq<PaneRecord>, workspace_id: Option<Seq<char>>) -> Option<Seq<char>> {
    match workspace_id {
        Some(w) => Some(w),
        None => match first_focused(panes, 0) {
            Some(i) => ov(panes[i].workspace_id),
            None => None,
        },
    }
}

/// The first focused pane at or after `i`.
pub open spec fn first_focused(panes: Seq<PaneRecord>, i: int) -> Option<int>
    decreases panes.len() - i,
{
    if i < 0 || i >= panes.len() {
        None
    } else if panes[i].focused {
        Some(i)
    } else {
        first_focused(panes, i + 1)
    }
}

/// A pane's directory: its `cwd`, else its `foreground_cwd`; kept only when non-empty and
/// absolute.
pub open spec fn pane_dir(p: PaneRecord) -> Option<Seq<char>> {
    let d = match p.cwd {
        Some(c) => Some(c@),
        None => ov(p.foreground_cwd),
    };
    match d {
        Some(s) => if s.len() > 0 && is_abs(s) {
            Some(s)
        } else {
            None
        },
        None => None,
    }
}

/// Whether `dirs` already names the place `d` (`Path`'s `==`: the same components).
pub open spec fn has_place(dirs: Seq<Seq<char>>, d: Seq<char>) -> bool {
    exists|j: int| 0 <= j < dirs.len() && #[trigger] same_path(dirs[j], d)
}

/// The directories of the first `n` panes in workspace `scope`, de-duplicated by place,
/// first-seen order preserved.
pub open spec fn scoped_dirs(panes: Seq<PaneRecord>, scope: Seq<char>, n: int) -> Seq<Seq<char>>
    decreases n,
{
    if n <= 0 {
        Seq::empty()
    } else {
        let prev = scoped_dirs(panes, scope, n - 1);
        let p = panes[n - 1];
        if ov(p.workspace_id) == Some(scope) && pane_dir(p) is Some && !has_place(prev, pane_dir(p)->0) {
            prev.push(pane_dir(p)->0)
        } else {
            prev
        }
    }
}

/// The scan-start candidates from a pane list (`None`: it did not parse): the directory of every
/// pane in our workspace, de-duplicated, first-seen order preserved. Without a workspace id the
/// focused pane's workspace is used; with neither, nothing — aggregating across workspaces is
/// out of scope, and an empty result is what makes the caller fall back to `workspace_cwd`.
pub open spec fn pane_cwds_spec(panes: Option<Seq<PaneRecord>>, workspace_id: Option<Seq<char>>) -> Seq<Seq<char>> {
    match panes {
        None => Seq::empty(),
        Some(ps) => match scope_of(ps, workspace_id) {
            Some(scope) => scoped_dirs(ps, scope, ps.len() as int),
            None => Seq::empty(),
        },
    }
}

fn opt_eq(a: &Option<String>, b: &str) -> (r: bool)
    ensures
        r == (ov(*a) == Some(b@)),
{
    match a {
        Some(s) => str_eq(s.as_str(), b),
        None => false,
    }
}

fn holds_place(v: &Vec<String>, x: &str) -> (r: bool)
    ensures
        r == has_place(views_of(v@), x@),
{
    let mut i: usize = 0;
    while i < v.len()
        invariant
            i <= v@.len(),
            forall|k: int| 0 <= k < i ==> !same_path(#[trigger] views_of(v@)[k], x@),
        decreases v.len() - i,
    {
        if same_place(v[i].as_str(), x) {
            assert(same_path(views_of(v@)[i as int], x@));
            return true;
        }
        i += 1;
    }
    false
}

/// The first focused pane.
fn find_focused(panes: &[PaneRecord]) -> (r: Option<usize>)
    ensures
        match r {
            Some(f) => first_focused(panes@, 0) == Some(f as int) && f < panes@.len(),
            None => first_focused(panes@, 0) is None,
        },
{
    let mut i: usize = 0;
    while i < panes.len()
        invariant
            i <= panes@.len(),
            first_focused(panes@, 0) == first_focused(panes@, i as int),
        decreases panes.len() - i,
    {
        if panes[i].focused {
            return Some(i);
        }
        i += 1;
    }
    None
}

/// The scan-start candidates from a parsed `herdr pane list` payload (`None`: it did not parse).
pub fn pane_cwds(panes: Option<&[PaneRecord]>, workspace_id: Option<&str>) -> (r: Vec<String>)
    ensures
        views_of(r@) == pane_cwds_spec(
            match panes {
                Some(p) => Some(p@),
                None => None,
            },
            match workspace_id {
                Some(w) => Some(w@),
                None => None,
            },
        ),
{
    let panes = match panes {
        Some(p) => p,
        None => {
            let out: Vec<String> = Vec::new();
            assert(views_of(out@) =~= Seq::<Seq<char>>::empty());
            return out;
        },
    };
    let scope: String = match workspace_id {
        Some(w) => String::from_str(w),
        None => {
            let found = find_focused(panes);
            match found {
                Some(f) => {
                    match &panes[f].workspace_id {
                        Some(w) => w.clone(),
                        None => {
                            let out: Vec<String> = Vec::new();
                            assert(views_of(out@) =~= Seq::<Seq<char>>::empty());
                            return out;
                        },
                    }
                },
                None => {
                    let out: Vec<String> = Vec::new();
                    assert(views_of(out@) =~= Seq::<Seq<char>>::empty());
                    return out;
                },
            }
        },
    };
    let ghost sc = scope@;
    let mut out: Vec<String> = Vec::new();
    let mut i: usize = 0;
    while i < panes.len()
        invariant
            i <= panes@.len(),
            sc == scope@,
            views_of(out@) == scoped_dirs(panes@, sc, i as int),
        decreases panes.len() - i,
    {
        let p = &panes[i];
        if opt_eq(&p.workspace_id, scope.as_str()) {
            // `cwd`, else `foreground_cwd` for a pane that reports only the latter.
            let dir: Option<&String> = match &p.cwd {
                Some(c) => Some(c),
                None => match &p.foreground_cwd {
                    Some(f) => Some(f),
                    None => None,
                },
            };
            if let Some(d) = dir {
                let dc = chars_of(d.as_str());
                if dc.len() > 0 && dc[0] == '/' && !holds_place(&out, d.as_str()) {
                    let ghost before = views_of(out@);
                    out.push(d.clone());
                    assert(views_of(out@) =~= before.push(d@));
                }
            }
        }
        i += 1;
    }
    out
}

/// The herdr binary: `$HERDR_BIN_PATH` when set and non-empty, else `herdr` on `$PATH`.
pub fn resolve_program(var: Option<String>) -> (r: String)
    ensures
        r@ == match var {
            Some(v) => if v@.len() > 0 {
                v@
            } else {
                "herdr"@
            },
            None => "herdr"@,
        },
{
    match var {
        Some(v) => {
            if chars_of(v.as_str()).len() > 0 {
                v
            } else {
                String::from_str("herdr")
            }
        },
        None => String::from_str("herdr"),
    }
}

} // verus!
