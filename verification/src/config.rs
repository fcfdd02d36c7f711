//! Config resolution — the `config > env > default` precedence and the clamping of every
//! value into range. Reading and parsing the file is the caller's part; a file that does not
//! parse degrades the whole document to the defaults.
use vstd::prelude::*;
use crate::path::{is_abs, join, join_spec};
use crate::text::{chars_of, string_of, trim, trim_chars};

verus! {

/// A `[keys]` value: one key (`refresh = "r"`) or several (`nav_up = ["w", "Up"]`).
#[derive(Debug, Clone, PartialEq, Eq)]
pub enum KeySpec {
    One(String),
    Many(Vec<String>),
}

/// The key specs a `[keys]` value lists, in order.
pub open spec fn spec_strings(k: KeySpec) -> Seq<Seq<char>> {
    match k {
        KeySpec::One(s) => seq![s@],
        KeySpec::Many(v) => v@.map_values(|s: String| s@),
    }
}

/// A `[keys]` table as plain values: each entry's name and its key specs.
pub open spec fn entries_view(keys: Seq<(String, KeySpec)>) -> Seq<(Seq<char>, Seq<Seq<char>>)> {
    keys.map_values(|e: (String, KeySpec)| (e.0@, spec_strings(e.1)))
}


/// The plugin id, used to namespace the XDG fallback config directory.
pub const PLUGIN_ID: &'static str = "herdr-scm";

pub const DEFAULT_POLL_INTERVAL_SECS: u64 = 3;
/// A ceiling so a typo cannot turn the panel into a manual-only tool by accident. One hour.
pub const MAX_POLL_INTERVAL_SECS: u64 = 3600;
pub const DEFAULT_RESCAN_EVERY: u32 = 10;
pub const DEFAULT_SCAN_DEPTH: usize = 4;
/// Depth 1 still finds a repo directly under a scan start, so it is the meaningful floor.
pub const MIN_SCAN_DEPTH: usize = 1;
/// Past this the walk cost stops being bounded in any useful sense on a real tree.
pub const MAX_SCAN_DEPTH: usize = 12;
pub const DEFAULT_DIFF_TOOL: &'static str = "delta";
pub const DEFAULT_SPLIT_THRESHOLD_COLS: u16 = 120;
/// Below this no two-column layout is readable, so the threshold itself has a floor.
pub const MIN_SPLIT_THRESHOLD_COLS: u16 = 40;
/// Above this the threshold would never be met on a real terminal — i.e. "always stacked".
pub const MAX_SPLIT_THRESHOLD_COLS: u16 = 400;

/// The env var that lets a user switch or disable the external diff renderer without touching
/// the config file. The only env var in the `config > env > default` chain.
pub const ENV_DIFF_TOOL: &'static str = "HERDR_SCM_DIFF_TOOL";

/// The directory names a scan skips unless the config says otherwise.
pub open spec fn default_excludes_spec() -> Seq<Seq<char>> {
    seq!["node_modules"@, "target"@, "vendor"@, ".venv"@, "dist"@]
}

/// The directory names a scan skips unless the config says otherwise.
pub fn default_scan_excludes() -> (r: Vec<String>)
    ensures
        strings_view(r@) == default_excludes_spec(),
{
    let mut v: Vec<String> = Vec::new();
    v.push(String::from_str("node_modules"));
    v.push(String::from_str("target"));
    v.push(String::from_str("vendor"));
    v.push(String::from_str(".venv"));
    v.push(String::from_str("dist"));
    assert(strings_view(v@) =~= default_excludes_spec());
    v
}

pub open spec fn strings_view(v: Seq<String>) -> Seq<Seq<char>> {
    v.map_values(|s: String| s@)
}

/// The file's shape. Every field optional, so a partial or forward-looking config still loads
/// what it can.
#[derive(Debug, Clone, Default, PartialEq, Eq)]
pub struct RawConfig {
    pub poll_interval_secs: Option<u64>,
    pub rescan_every: Option<u32>,
    pub scan_depth: Option<usize>,
    pub scan_excludes: Option<Vec<String>>,
    pub diff_tool: Option<String>,
    pub split_threshold_cols: Option<u16>,
    /// The `[keys]` table, ordered by name.
    pub keys: Vec<(String, KeySpec)>,
}

/// The resolved, clamped settings the rest of the app reads. No `Option`s: every question has
/// an answer by the time anything else sees it.
#[derive(Debug, Clone, PartialEq, Eq)]
pub struct Settings {
    /// Seconds between snapshot rounds. `0` means polling is OFF (manual `r` only) — a
    /// meaning, not an out-of-range value, so it is never clamped up.
    pub poll_interval_secs: u64,
    /// Re-walk the filesystem for the repo list every N poll rounds. Never 0.
    pub rescan_every: u32,
    pub scan_depth: usize,
    pub scan_excludes: Vec<String>,
    /// The external diff renderer's program name; empty means plain text.
    pub diff_tool: String,
    pub split_threshold_cols: u16,
    pub keys: Vec<(String, KeySpec)>,
}

/// [`Settings`] as plain values.
pub struct SettingsV {
    pub poll_interval_secs: u64,
    pub rescan_every: u32,
    pub scan_depth: usize,
    pub scan_excludes: Seq<Seq<char>>,
    pub diff_tool: Seq<char>,
    pub split_threshold_cols: u16,
    pub keys: Seq<(Seq<char>, Seq<Seq<char>>)>,
}

impl View for Settings {
    type V = SettingsV;

    open spec fn view(&self) -> SettingsV {
        SettingsV {
            poll_interval_secs: self.poll_interval_secs,
            rescan_every: self.rescan_every,
            scan_depth: self.scan_depth,
            scan_excludes: strings_view(self.scan_excludes@),
            diff_tool: self.diff_tool@,
            split_threshold_cols: self.split_threshold_cols,
            keys: entries_view(self.keys@),
        }
    }
}

/// The documented defaults.
pub open spec fn default_settings() -> SettingsV {
    SettingsV {
        poll_interval_secs: DEFAULT_POLL_INTERVAL_SECS,
        rescan_every: DEFAULT_RESCAN_EVERY,
        scan_depth: DEFAULT_SCAN_DEPTH,
        scan_excludes: default_excludes_spec(),
        diff_tool: DEFAULT_DIFF_TOOL@,
        split_threshold_cols: DEFAULT_SPLIT_THRESHOLD_COLS,
        keys: Seq::empty(),
    }
}

impl Default for Settings {
    fn default() -> (s: Settings)
        ensures
            s@ == default_settings(),
    {
        let s = Settings {
            poll_interval_secs: DEFAULT_POLL_INTERVAL_SECS,
            rescan_every: DEFAULT_RESCAN_EVERY,
            scan_depth: DEFAULT_SCAN_DEPTH,
            scan_excludes: default_scan_excludes(),
            diff_tool: String::from_str(DEFAULT_DIFF_TOOL),
            split_threshold_cols: DEFAULT_SPLIT_THRESHOLD_COLS,
            keys: Vec::new(),
        };
        assert(entries_view(s.keys@) =~= Seq::empty());
        s
    }
}

/// The excludes list trimmed, blank entries dropped.
pub open spec fn nonblank_trimmed(list: Seq<Seq<char>>) -> Seq<Seq<char>>
    decreases list.len(),
{
    if list.len() == 0 {
        Seq::empty()
    } else if trim(list.last()).len() > 0 {
        nonblank_trimmed(list.drop_last()).push(trim(list.last()))
    } else {
        nonblank_trimmed(list.drop_last())
    }
}

pub open spec fn clamp_u64(v: u64, lo: u64, hi: u64) -> u64 {
    if v < lo {
        lo
    } else if v > hi {
        hi
    } else {
        v
    }
}

/// The settings a config resolves to, given what the environment says of the diff tool.
///
/// `config > env > default`, each value clamped into range. An explicitly empty excludes list
/// is honored (only an ABSENT key takes the defaults), and an empty diff tool at either level
/// is a real value ("plain text").
pub open spec fn settings_of(raw: RawConfig, env_tool: Option<String>) -> SettingsV {
    let d = default_settings();
    SettingsV {
        poll_interval_secs: match raw.poll_interval_secs {
            Some(v) => if v > MAX_POLL_INTERVAL_SECS {
                MAX_POLL_INTERVAL_SECS
            } else {
                v
            },
            None => d.poll_interval_secs,
        },
        rescan_every: match raw.rescan_every {
            Some(v) => if v < 1 {
                1
            } else {
                v
            },
            None => d.rescan_every,
        },
        scan_depth: match raw.scan_depth {
            Some(v) => clamp_u64(v as u64, MIN_SCAN_DEPTH as u64, MAX_SCAN_DEPTH as u64) as usize,
            None => d.scan_depth,
        },
        scan_excludes: match raw.scan_excludes {
            Some(list) => nonblank_trimmed(strings_view(list@)),
            None => d.scan_excludes,
        },
        diff_tool: match raw.diff_tool {
            Some(t) => t@,
            None => match env_tool {
                Some(t) => t@,
                None => d.diff_tool,
            },
        },
        split_threshold_cols: match raw.split_threshold_cols {
            Some(v) => clamp_u64(
                v as u64,
                MIN_SPLIT_THRESHOLD_COLS as u64,
                MAX_SPLIT_THRESHOLD_COLS as u64,
            ) as u16,
            None => d.split_threshold_cols,
        },
        keys: entries_view(raw.keys@),
    }
}

fn nonblank_trimmed_exec(list: &Vec<String>) -> (r: Vec<String>)
    ensures
        strings_view(r@) == nonblank_trimmed(strings_view(list@)),
{
    let mut out: Vec<String> = Vec::new();
    let mut i: usize = 0;
    while i < list.len()
        invariant
            i <= list@.len(),
            strings_view(out@) == nonblank_trimmed(strings_view(list@.take(i as int))),
        decreases list.len() - i,
    {
        assert(strings_view(list@.take(i + 1)).drop_last() =~= strings_view(list@.take(i as int)));
        let cs = chars_of(list[i].as_str());
        let t = trim_chars(cs.as_slice());
        if t.len() > 0 {
            let s = string_of(t.as_slice());
            let ghost before = out@;
            out.push(s);
            assert(strings_view(out@) =~= strings_view(before).push(s@));
        }
        i += 1;
    }
    assert(list@.take(i as int) =~= list@);
    out
}

/// Apply the `config > env > default` precedence and clamp everything into range, given what
/// the environment holds for [`ENV_DIFF_TOOL`].
pub fn resolve_with(raw: RawConfig, env_tool: Option<String>) -> (s: Settings)
    ensures
        s@ == settings_of(raw, env_tool),
{
    let d = Settings::default();
    let poll_interval_secs = match raw.poll_interval_secs {
        Some(v) => if v > MAX_POLL_INTERVAL_SECS {
            MAX_POLL_INTERVAL_SECS
        } else {
            v
        },
        None => d.poll_interval_secs,
    };
    // Clamped up to 1: this is a modulo divisor on the poll counter.
    let rescan_every = match raw.rescan_every {
        Some(v) => if v < 1 {
            1
        } else {
            v
        },
        None => d.rescan_every,
    };
    let scan_depth = match raw.scan_depth {
        Some(v) => if v < MIN_SCAN_DEPTH {
            MIN_SCAN_DEPTH
        } else if v > MAX_SCAN_DEPTH {
            MAX_SCAN_DEPTH
        } else {
            v
        },
        None => d.scan_depth,
    };
    let scan_excludes = match &raw.scan_excludes {
        Some(list) => nonblank_trimmed_exec(list),
        None => d.scan_excludes,
    };
    let diff_tool = match raw.diff_tool {
        Some(t) => t,
        None => match env_tool {
            Some(t) => t,
            None => d.diff_tool,
        },
    };
    let split_threshold_cols = match raw.split_threshold_cols {
        Some(v) => if v < MIN_SPLIT_THRESHOLD_COLS {
            MIN_SPLIT_THRESHOLD_COLS
        } else if v > MAX_SPLIT_THRESHOLD_COLS {
            MAX_SPLIT_THRESHOLD_COLS
        } else {
            v
        },
        None => d.split_threshold_cols,
    };
    Settings {
        poll_interval_secs,
        rescan_every,
        scan_depth,
        scan_excludes,
        diff_tool,
        split_threshold_cols,
        keys: raw.keys,
    }
}

/// Apply the `config > env > default` precedence and clamp everything into range. `env` is
/// asked for [`ENV_DIFF_TOOL`] only when the config does not name a diff tool itself.
pub fn resolve<E: Fn(&str) -> Option<String>>(raw: RawConfig, env: &E) -> (s: Settings)
    requires
        forall|k: &str| #[trigger] call_requires(*env, (k,)),
    ensures
        exists|v: Option<String>|
            (raw.diff_tool is None ==> call_ensures(*env, (ENV_DIFF_TOOL,), v)) && s@
                == #[trigger] settings_of(raw, v),
{
    if raw.diff_tool.is_some() {
        let s = resolve_with(raw, None);
        assert(s@ == settings_of(raw, None));
        s
    } else {
        let v = env(ENV_DIFF_TOOL);
        let s = resolve_with(raw, v);
        assert(s@ == settings_of(raw, v));
        s
    }
}

// ---- where the file lives ----------------------------------------------------------------------

/// A value that counts: present and not empty.
pub open spec fn non_empty(v: Option<String>) -> Option<Seq<char>> {
    match v {
        Some(s) => if s@.len() > 0 {
            Some(s@)
        } else {
            None
        },
        None => None,
    }
}

/// Where the config file lives, given `$HERDR_PLUGIN_CONFIG_DIR`, `$XDG_CONFIG_HOME` and
/// `$HOME`: the first that is set and non-empty decides; `None` when none does or when the
/// result is relative.
pub open spec fn config_path_spec(dir: Option<String>, xdg: Option<String>, home: Option<String>) -> Option<Seq<char>> {
    let path = match non_empty(dir) {
        Some(d) => Some(join_spec(d, "config.toml"@)),
        None => match non_empty(xdg) {
            Some(x) => Some(join_spec(join_spec(x, PLUGIN_ID@), "config.toml"@)),
            None => match non_empty(home) {
                Some(h) => Some(
                    join_spec(join_spec(join_spec(h, ".config"@), PLUGIN_ID@), "config.toml"@),
                ),
                None => None,
            },
        },
    };
    match path {
        Some(p) => if is_abs(p) {
            Some(p)
        } else {
            None
        },
        None => None,
    }
}

fn non_empty_exec(v: &Option<String>) -> (r: bool)
    ensures
        r == (non_empty(*v) is Some),
{
    match v {
        Some(s) => chars_of(s.as_str()).len() > 0,
        None => false,
    }
}

/// Where the config file lives, from the three environment values.
pub fn config_path_from(dir: Option<String>, xdg: Option<String>, home: Option<String>) -> (r: Option<String>)
    ensures
        match r {
            Some(p) => config_path_spec(dir, xdg, home) == Some(p@),
            None => config_path_spec(dir, xdg, home) is None,
        },
{
    let path = if non_empty_exec(&dir) {
        let d = dir.unwrap();
        join(d.as_str(), "config.toml")
    } else if non_empty_exec(&xdg) {
        let x = xdg.unwrap();
        let base = join(x.as_str(), PLUGIN_ID);
        join(base.as_str(), "config.toml")
    } else if non_empty_exec(&home) {
        let h = home.unwrap();
        let a = join(h.as_str(), ".config");
        let b = join(a.as_str(), PLUGIN_ID);
        join(b.as_str(), "config.toml")
    } else {
        return None;
    };
    let cs = chars_of(path.as_str());
    if cs.len() > 0 && cs[0] == '/' {
        Some(path)
    } else {
        None
    }
}

/// Where the config file lives: `$HERDR_PLUGIN_CONFIG_DIR/config.toml` outright, else
/// `$XDG_CONFIG_HOME/herdr-scm/config.toml`, else `$HOME/.config/herdr-scm/config.toml`.
///
/// `None` when no base resolves, or when the resolved base is relative. The pane process starts
/// in the PLUGIN root, so a cwd-relative fallback would read a file the user never wrote —
/// reading nothing is the correct answer. `env` is asked for each variable in turn, only while
/// none before it has decided.
pub fn config_path<E: Fn(&str) -> Option<String>>(env: &E) -> (r: Option<String>)
    requires
        forall|k: &str| #[trigger] call_requires(*env, (k,)),
    ensures
        exists|d: Option<String>, x: Option<String>, h: Option<String>|
            {
                &&& call_ensures(*env, ("HERDR_PLUGIN_CONFIG_DIR",), d)
                &&& (non_empty(d) is None ==> call_ensures(*env, ("XDG_CONFIG_HOME",), x))
                &&& (non_empty(d) is None && non_empty(x) is None ==> call_ensures(
                    *env,
                    ("HOME",),
                    h,
                ))
                &&& #[trigger] config_path_spec(d, x, h) == match r {
                    Some(p) => Some(p@),
                    None => None,
                }
            },
{
    let d = env("HERDR_PLUGIN_CONFIG_DIR");
    if non_empty_exec(&d) {
        let r = config_path_from(d, None, None);
        return r;
    }
    let x = env("XDG_CONFIG_HOME");
    if non_empty_exec(&x) {
        let r = config_path_from(d, x, None);
        return r;
    }
    let h = env("HOME");
    config_path_from(d, x, h)
}

// ---- laws --------------------------------------------------------------------------------------

/// Every resolved setting is inside its documented range; a zero poll interval survives as
/// "polling off".
pub open spec fn in_range(s: SettingsV) -> bool {
    &&& s.poll_interval_secs <= MAX_POLL_INTERVAL_SECS
    &&& s.rescan_every >= 1
    &&& MIN_SCAN_DEPTH <= s.scan_depth <= MAX_SCAN_DEPTH
    &&& MIN_SPLIT_THRESHOLD_COLS <= s.split_threshold_cols <= MAX_SPLIT_THRESHOLD_COLS
}

/// Law: whatever the config and the environment hold, the resolved settings are in range.
pub proof fn law_resolved_settings_in_range(raw: RawConfig, env_tool: Option<String>)
    ensures
        in_range(settings_of(raw, env_tool)),
{
}

/// Law: the diff tool follows `config > env > default`, an empty string counting as a value at
/// either level.
pub proof fn law_diff_tool_precedence(raw: RawConfig, env_tool: Option<String>)
    ensures
        raw.diff_tool matches Some(t) ==> settings_of(raw, env_tool).diff_tool == t@,
        raw.diff_tool is None && env_tool is Some ==> settings_of(raw, env_tool).diff_tool
            == env_tool->0@,
        raw.diff_tool is None && env_tool is None ==> settings_of(raw, env_tool).diff_tool
            == DEFAULT_DIFF_TOOL@,
{
}

/// Law: a configured number already inside its range is kept exactly as configured; one outside
/// is pulled to the nearest end of the range; an absent one takes its default.
pub proof fn law_settings_keep_what_is_in_range(raw: RawConfig, env_tool: Option<String>)
    ensures
        raw.poll_interval_secs matches Some(v) ==> settings_of(raw, env_tool).poll_interval_secs == (if v
            <= MAX_POLL_INTERVAL_SECS {
            v
        } else {
            MAX_POLL_INTERVAL_SECS
        }),
        raw.poll_interval_secs is None ==> settings_of(raw, env_tool).poll_interval_secs == DEFAULT_POLL_INTERVAL_SECS,
        raw.rescan_every matches Some(v) ==> settings_of(raw, env_tool).rescan_every == (if v >= 1 {
            v
        } else {
            1
        }),
        raw.rescan_every is None ==> settings_of(raw, env_tool).rescan_every == DEFAULT_RESCAN_EVERY,
        raw.scan_depth matches Some(v) ==> settings_of(raw, env_tool).scan_depth == (if v < MIN_SCAN_DEPTH {
            MIN_SCAN_DEPTH
        } else if v > MAX_SCAN_DEPTH {
            MAX_SCAN_DEPTH
        } else {
            v
        }),
        raw.scan_depth is None ==> settings_of(raw, env_tool).scan_depth == DEFAULT_SCAN_DEPTH,
        raw.split_threshold_cols matches Some(v) ==> settings_of(raw, env_tool).split_threshold_cols == (if v
            < MIN_SPLIT_THRESHOLD_COLS {
            MIN_SPLIT_THRESHOLD_COLS
        } else if v > MAX_SPLIT_THRESHOLD_COLS {
            MAX_SPLIT_THRESHOLD_COLS
        } else {
            v
        }),
        raw.split_threshold_cols is None ==> settings_of(raw, env_tool).split_threshold_cols
            == DEFAULT_SPLIT_THRESHOLD_COLS,
{
}

/// Law: a config path, when there is one, is absolute.
pub proof fn law_config_path_is_absolute(dir: Option<String>, xdg: Option<String>, home: Option<String>)
    ensures
        config_path_spec(dir, xdg, home) matches Some(p) ==> is_abs(p),
{
}
} // verus!
