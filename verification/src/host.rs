//! Host adapter — what the injected `HERDR_PLUGIN_CONTEXT_JSON` makes of the launch context.
//!
//! Defensive by contract: a missing, malformed or wrong-typed payload is read as an empty one
//! (every field absent) by the caller that parses it, and degrades here to a minimal `{ cwd }`
//! context.
use vstd::prelude::*;
use crate::context::LaunchContext;
use crate::herdr::ov;

verus! {

/// The shape of the injected JSON. Every field optional so a partial object still parses.
#[derive(Debug, Clone, Default, PartialEq, Eq)]
pub struct RawContext {
    pub focused_pane_cwd: Option<String>,
    pub workspace_cwd: Option<String>,
    pub cwd: Option<String>,
    pub workspace_id: Option<String>,
}

/// A value that counts: an empty string is a malformed host value, not a path.
pub open spec fn present(v: Option<String>) -> Option<Seq<char>> {
    match v {
        Some(s) => if s@.len() > 0 {
            Some(s@)
        } else {
            None
        },
        None => None,
    }
}

fn keep_present(v: Option<String>) -> (r: Option<String>)
    ensures
        ov(r) == present(v),
{
    match v {
        Some(s) => if s.as_str().is_empty() {
            None
        } else {
            Some(s)
        },
        None => None,
    }
}

/// The launch context a payload gives: the cwd is the first present of `focused_pane_cwd`,
/// `workspace_cwd` and `cwd`, else the process's own; the workspace fields are kept when present.
pub fn parse_context(raw: RawContext, fallback_cwd: String) -> (c: LaunchContext)
    ensures
        ov(c.workspace_cwd) == present(raw.workspace_cwd),
        ov(c.workspace_id) == present(raw.workspace_id),
        c.cwd@ == match present(raw.focused_pane_cwd) {
            Some(f) => f,
            None => match present(raw.workspace_cwd) {
                Some(w) => w,
                None => match present(raw.cwd) {
                    Some(d) => d,
                    None => fallback_cwd@,
                },
            },
        },
{
    let workspace_cwd = keep_present(raw.workspace_cwd);
    let cwd = match keep_present(raw.focused_pane_cwd) {
        Some(f) => f,
        None => match &workspace_cwd {
            Some(w) => w.clone(),
            None => match keep_present(raw.cwd) {
                Some(d) => d,
                None => fallback_cwd,
            },
        },
    };
    LaunchContext { cwd, workspace_cwd, workspace_id: keep_present(raw.workspace_id) }
}

} // verus!
