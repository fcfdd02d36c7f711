//! The launcher's OPEN / FOCUS / CLOSE / SWITCHTAB decision, computed in-process so it is unit
//! tested and the ids it emits are validated flag-safe before a shell script passes them to
//! `herdr pane zoom|close` / `herdr tab focus`.
use vstd::prelude::*;
use crate::herdr::{flag_safe, is_flag_safe, ov};
use crate::text::{chars_of, find_char, find_char_from, lemma_find_char_bounds, push_str, seq_eq, str_eq, string_of, sub_vec};

verus! {

/// The pane label herdr reports for our pane: the plugin's declared pane title.
pub const PANE_LABEL: &'static str = "SCM";

/// One entry of a `herdr pane list` payload, as far as the launcher cares.
#[derive(Debug, Clone, Default, PartialEq, Eq)]
pub struct Pane {
    pub pane_id: Option<String>,
    pub label: Option<String>,
    pub tab_id: Option<String>,
    pub focused: bool,
}

/// Whether a pane is ours.
pub open spec fn is_ours(p: Pane) -> bool {
    ov(p.label) == Some(PANE_LABEL@)
}

/// The first focused pane at or after `i`.
pub open spec fn focused_from(ps: Seq<Pane>, i: int) -> Option<int>
    decreases ps.len() - i,
{
    if i < 0 || i >= ps.len() {
        None
    } else if ps[i].focused {
        Some(i)
    } else {
        focused_from(ps, i + 1)
    }
}

/// The first of our panes at or after `i` in tab `tab`.
pub open spec fn ours_in_tab(ps: Seq<Pane>, tab: Option<Seq<char>>, i: int) -> Option<int>
    decreases ps.len() - i,
{
    if i < 0 || i >= ps.len() {
        None
    } else if is_ours(ps[i]) && ov(ps[i].tab_id) == tab {
        Some(i)
    } else {
        ours_in_tab(ps, tab, i + 1)
    }
}

/// The workspace a tab id belongs to: the text before its first `:`.
pub open spec fn workspace_spec(tab: Option<Seq<char>>) -> Option<Seq<char>> {
    match tab {
        Some(t) => {
            let c = find_char_from(t, ':', 0);
            if c < t.len() {
                Some(t.subrange(0, c))
            } else {
                None
            }
        },
        None => None,
    }
}

/// The first of our panes at or after `i` in workspace `ws`.
pub open spec fn ours_in_workspace(ps: Seq<Pane>, ws: Option<Seq<char>>, i: int) -> Option<int>
    decreases ps.len() - i,
{
    if i < 0 || i >= ps.len() {
        None
    } else if is_ours(ps[i]) && workspace_spec(ov(ps[i].tab_id)) == ws {
        Some(i)
    } else {
        ours_in_workspace(ps, ws, i + 1)
    }
}

/// Toggle off when our pane IS the focused pane, focus it otherwise; an id that is not safe to
/// pass means opening a fresh panel instead.
pub open spec fn act_on_spec(ours: Pane, focused: Pane) -> Seq<char> {
    match ov(ours.pane_id) {
        Some(id) => if !flag_safe(id) {
            "OPEN"@
        } else if Some(id) == ov(focused.pane_id) {
            "CLOSE "@ + id
        } else {
            "FOCUS "@ + id
        },
        None => "OPEN"@,
    }
}

/// The split launcher's decision, scoped to the CURRENT TAB. Unparseable input (`None`) or no
/// focused pane (we cannot tell which tab is current) degrades to `OPEN`.
pub open spec fn decision_spec(panes: Option<Seq<Pane>>) -> Seq<char> {
    match panes {
        None => "OPEN"@,
        Some(ps) => match focused_from(ps, 0) {
            None => "OPEN"@,
            Some(fi) => match ours_in_tab(ps, ov(ps[fi].tab_id), 0) {
                None => "OPEN"@,
                Some(oi) => act_on_spec(ps[oi], ps[fi]),
            },
        },
    }
}

/// The tab launcher's decision, scoped to the CURRENT WORKSPACE: our pane in the focused tab is
/// acted on; else one in another tab of this workspace is switched to (when its tab id is safe
/// to pass); one in another workspace is left alone.
pub open spec fn decision_tab_spec(panes: Option<Seq<Pane>>) -> Seq<char> {
    match panes {
        None => "OPEN"@,
        Some(ps) => match focused_from(ps, 0) {
            None => "OPEN"@,
            Some(fi) => match ours_in_tab(ps, ov(ps[fi].tab_id), 0) {
                Some(oi) => act_on_spec(ps[oi], ps[fi]),
                None => {
                    let ws = workspace_spec(ov(ps[fi].tab_id));
                    if ws is None {
                        "OPEN"@
                    } else {
                        match ours_in_workspace(ps, ws, 0) {
                            Some(ei) => match ov(ps[ei].tab_id) {
                                Some(t) => if flag_safe(t) {
                                    "SWITCHTAB "@ + t
                                } else {
                                    "OPEN"@
                                },
                                None => "OPEN"@,
                            },
                            None => "OPEN"@,
                        }
                    }
                },
            },
        },
    }
}

fn open() -> (r: String)
    ensures
        r@ == "OPEN"@,
{
    String::from_str("OPEN")
}

fn opt_str_eq(a: &Option<String>, b: &Option<String>) -> (r: bool)
    ensures
        r == (ov(*a) == ov(*b)),
{
    match (a, b) {
        (Some(x), Some(y)) => str_eq(x.as_str(), y.as_str()),
        (None, None) => true,
        _ => false,
    }
}

fn ours(p: &Pane) -> (r: bool)
    ensures
        r == is_ours(*p),
{
    match &p.label {
        Some(l) => str_eq(l.as_str(), PANE_LABEL),
        None => false,
    }
}

fn find_focused(ps: &[Pane]) -> (r: Option<usize>)
    ensures
        match r {
            Some(i) => focused_from(ps@, 0) == Some(i as int) && i < ps@.len(),
            None => focused_from(ps@, 0) is None,
        },
{
    let mut i: usize = 0;
    while i < ps.len()
        invariant
            i <= ps@.len(),
            focused_from(ps@, 0) == focused_from(ps@, i as int),
        decreases ps.len() - i,
    {
        if ps[i].focused {
            return Some(i);
        }
        i += 1;
    }
    None
}

fn find_ours_in_tab(ps: &[Pane], tab: &Option<String>) -> (r: Option<usize>)
    ensures
        match r {
            Some(i) => ours_in_tab(ps@, ov(*tab), 0) == Some(i as int) && i < ps@.len(),
            None => ours_in_tab(ps@, ov(*tab), 0) is None,
        },
{
    let mut i: usize = 0;
    while i < ps.len()
        invariant
            i <= ps@.len(),
            ours_in_tab(ps@, ov(*tab), 0) == ours_in_tab(ps@, ov(*tab), i as int),
        decreases ps.len() - i,
    {
        if ours(&ps[i]) && opt_str_eq(&ps[i].tab_id, tab) {
            return Some(i);
        }
        i += 1;
    }
    None
}

/// The workspace a pane belongs to, taken from the prefix of the id we would act on rather than
/// a separate field a malformed payload could disagree with.
fn workspace_of(tab: &Option<String>) -> (r: Option<String>)
    ensures
        ov(r) == workspace_spec(ov(*tab)),
{
    match tab {
        Some(t) => {
            let cs = chars_of(t.as_str());
            let c = find_char(cs.as_slice(), ':', 0);
            proof {
                lemma_find_char_bounds(cs@, ':', 0);
            }
            if c < cs.len() {
                Some(string_of(sub_vec(cs.as_slice(), 0, c).as_slice()))
            } else {
                None
            }
        },
        None => None,
    }
}

fn find_ours_in_workspace(ps: &[Pane], ws: &Option<String>) -> (r: Option<usize>)
    ensures
        match r {
            Some(i) => ours_in_workspace(ps@, ov(*ws), 0) == Some(i as int) && i < ps@.len(),
            None => ours_in_workspace(ps@, ov(*ws), 0) is None,
        },
{
    let mut i: usize = 0;
    while i < ps.len()
        invariant
            i <= ps@.len(),
            ours_in_workspace(ps@, ov(*ws), 0) == ours_in_workspace(ps@, ov(*ws), i as int),
        decreases ps.len() - i,
    {
        if ours(&ps[i]) {
            let w = workspace_of(&ps[i].tab_id);
            if opt_str_eq(&w, ws) {
                return Some(i);
            }
        }
        i += 1;
    }
    None
}

/// Toggle off when it IS the focused pane, focus it otherwise.
fn act_on(ours: &Pane, focused: &Pane) -> (r: String)
    ensures
        r@ == act_on_spec(*ours, *focused),
{
    let id = match &ours.pane_id {
        Some(id) => id,
        None => {
            return open();
        },
    };
    if !is_flag_safe(id.as_str()) {
        return open();
    }
    let same = match &focused.pane_id {
        Some(f) => str_eq(f.as_str(), id.as_str()),
        None => false,
    };
    let mut out = if same {
        String::from_str("CLOSE ")
    } else {
        String::from_str("FOCUS ")
    };
    push_str(&mut out, id.as_str());
    out
}

/// The split launcher's decision, scoped to the CURRENT TAB, from a parsed pane list (`None`:
/// the payload did not parse).
///
/// Unparseable input, or no focused pane (we cannot tell which tab is current), degrades to
/// `OPEN`: spawning a fresh panel is always safe, acting on a pane in an unknown tab is not.
pub fn launch_decision(panes: Option<&[Pane]>) -> (r: String)
    ensures
        r@ == decision_spec(
            match panes {
                Some(p) => Some(p@),
                None => None,
            },
        ),
{
    let ps = match panes {
        Some(p) => p,
        None => {
            return open();
        },
    };
    let fi = match find_focused(ps) {
        Some(i) => i,
        None => {
            return open();
        },
    };
    let focused = &ps[fi];
    match find_ours_in_tab(ps, &focused.tab_id) {
        Some(oi) => act_on(&ps[oi], focused),
        None => open(),
    }
}

/// The tab launcher's decision, scoped to the CURRENT WORKSPACE: a panel in another tab here is
/// switched to rather than duplicated; one in another workspace is left alone.
pub fn launch_decision_tab(panes: Option<&[Pane]>) -> (r: String)
    ensures
        r@ == decision_tab_spec(
            match panes {
                Some(p) => Some(p@),
                None => None,
            },
        ),
{
    let ps = match panes {
        Some(p) => p,
        None => {
            return open();
        },
    };
    let fi = match find_focused(ps) {
        Some(i) => i,
        None => {
            return open();
        },
    };
    let focused = &ps[fi];
    if let Some(here) = find_ours_in_tab(ps, &focused.tab_id) {
        return act_on(&ps[here], focused);
    }
    let workspace = workspace_of(&focused.tab_id);
    if workspace.is_none() {
        return open();
    }
    match find_ours_in_workspace(ps, &workspace) {
        Some(ei) => match &ps[ei].tab_id {
            Some(tab) => if is_flag_safe(tab.as_str()) {
                let mut out = String::from_str("SWITCHTAB ");
                push_str(&mut out, tab.as_str());
                out
            } else {
                open()
            },
            None => open(),
        },
        None => open(),
    }
}

/// Whether a decision is one a launcher script can pass on safely: `OPEN`, or a verb followed by
/// an id that cannot option-inject.
pub open spec fn safe_decision(d: Seq<char>) -> bool {
    ||| d == "OPEN"@
    ||| exists|id: Seq<char>| #[trigger] flag_safe(id) && (d == "CLOSE "@ + id || d == "FOCUS "@ + id || d == "SWITCHTAB "@ + id)
}

/// Law: whatever the pane list holds, every id the split launcher emits is flag-safe.
pub proof fn law_split_decision_is_safe(panes: Option<Seq<Pane>>)
    ensures
        safe_decision(decision_spec(panes)),
{
    match panes {
        Some(ps) => match focused_from(ps, 0) {
            Some(fi) => match ours_in_tab(ps, ov(ps[fi].tab_id), 0) {
                Some(oi) => lemma_act_on_safe(ps[oi], ps[fi]),
                None => {},
            },
            None => {},
        },
        None => {},
    }
}

/// Law: whatever the pane list holds, every id the tab launcher emits is flag-safe.
pub proof fn law_tab_decision_is_safe(panes: Option<Seq<Pane>>)
    ensures
        safe_decision(decision_tab_spec(panes)),
{
    match panes {
        Some(ps) => match focused_from(ps, 0) {
            Some(fi) => match ours_in_tab(ps, ov(ps[fi].tab_id), 0) {
                Some(oi) => lemma_act_on_safe(ps[oi], ps[fi]),
                None => {
                    let ws = workspace_spec(ov(ps[fi].tab_id));
                    if ws is Some {
                        match ours_in_workspace(ps, ws, 0) {
                            Some(ei) => match ov(ps[ei].tab_id) {
                                Some(t) => if flag_safe(t) {
                                    assert(flag_safe(t));
                                },
                                None => {},
                            },
                            None => {},
                        }
                    }
                },
            },
            None => {},
        },
        None => {},
    }
}

proof fn lemma_act_on_safe(ours: Pane, focused: Pane)
    ensures
        safe_decision(act_on_spec(ours, focused)),
{
    match ov(ours.pane_id) {
        Some(id) => if flag_safe(id) {
            assert(flag_safe(id));
        },
        None => {},
    }
}

} // verus!
