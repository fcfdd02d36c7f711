//! The keybinding registry, its config overrides, and the key -> [`Intent`] dispatcher.
//!
//! One registry row per intent, so "every action has a key" is a test rather than a hope. A
//! `[keys]` entry REPLACES that intent's key set and displaces whichever default held the key;
//! `Esc` is then re-pinned to [`Intent::Close`] so no configuration can lock the user inside an
//! overlay.
use vstd::prelude::*;
use crate::config::{KeySpec, spec_strings, entries_view};
use crate::intent::Intent;
use crate::text::{
    chars_eq, chars_of, decimal, lemma_decimal_injective, lemma_decimal_shape, lemma_le_trans, lemma_lt_asym, less_than, owned,
    parse_u32, parse_u32_range, push_char, push_decimal, seq_lt, trim, trim_chars,
};

verus! {

/// A key, as the terminal reports it.
#[derive(Debug, Clone, Copy, PartialEq, Eq, Hash, Structural)]
pub enum KeyCode {
    Char(char),
    F(u8),
    Up,
    Down,
    Left,
    Right,
    Enter,
    Tab,
    BackTab,
    Esc,
    Backspace,
    Delete,
    Insert,
    Home,
    End,
    PageUp,
    PageDown,
}

/// What happened to the key.
#[derive(Debug, Clone, Copy, PartialEq, Eq, Structural)]
pub enum KeyEventKind {
    Press,
    Repeat,
    Release,
}

/// No modifier held.
pub const MOD_NONE: u8 = 0;
pub const MOD_SHIFT: u8 = 1;
pub const MOD_CONTROL: u8 = 2;
pub const MOD_ALT: u8 = 4;
pub const MOD_SUPER: u8 = 8;
pub const MOD_HYPER: u8 = 16;
pub const MOD_META: u8 = 32;

/// One key event: the key, the modifiers held (a bit set of the `MOD_` flags) and its kind.
#[derive(Debug, Clone, Copy, PartialEq, Eq)]
pub struct KeyEvent {
    pub code: KeyCode,
    pub modifiers: u8,
    pub kind: KeyEventKind,
}

impl KeyEvent {
    /// A key press.
    pub fn new(code: KeyCode, modifiers: u8) -> (e: KeyEvent)
        ensures
            e.code == code,
            e.modifiers == modifiers,
            e.kind == KeyEventKind::Press,
    {
        KeyEvent { code, modifiers, kind: KeyEventKind::Press }
    }
}

// ---- key specs --------------------------------------------------------------------------------

/// ASCII lowercase of one character.
pub open spec fn lower_char(c: char) -> char {
    if 65 <= (c as u32) <= 90 {
        ((c as u32) + 32) as char
    } else {
        c
    }
}

/// `str::to_ascii_lowercase`.
pub open spec fn ascii_lower(s: Seq<char>) -> Seq<char> {
    s.map_values(|c: char| lower_char(c))
}

/// A function key `f1`..`f12` (already lowercased).
pub open spec fn f_key(l: Seq<char>) -> Option<u8> {
    if l.len() > 0 && l[0] == 'f' {
        match parse_u32(l.subrange(1, l.len() as int)) {
            Some(n) => if 1 <= n <= 12 {
                Some(n as u8)
            } else {
                None
            },
            None => None,
        }
    } else {
        None
    }
}

/// A named key (already lowercased).
pub open spec fn named_key(l: Seq<char>) -> Option<KeyCode> {
    if l == "up"@ {
        Some(KeyCode::Up)
    } else if l == "down"@ {
        Some(KeyCode::Down)
    } else if l == "left"@ {
        Some(KeyCode::Left)
    } else if l == "right"@ {
        Some(KeyCode::Right)
    } else if l == "enter"@ || l == "return"@ {
        Some(KeyCode::Enter)
    } else if l == "space"@ {
        Some(KeyCode::Char(' '))
    } else if l == "tab"@ {
        Some(KeyCode::Tab)
    } else if l == "backtab"@ {
        Some(KeyCode::BackTab)
    } else if l == "esc"@ || l == "escape"@ {
        Some(KeyCode::Esc)
    } else if l == "backspace"@ {
        Some(KeyCode::Backspace)
    } else if l == "delete"@ || l == "del"@ {
        Some(KeyCode::Delete)
    } else if l == "insert"@ || l == "ins"@ {
        Some(KeyCode::Insert)
    } else if l == "home"@ {
        Some(KeyCode::Home)
    } else if l == "end"@ {
        Some(KeyCode::End)
    } else if l == "pageup"@ || l == "pgup"@ {
        Some(KeyCode::PageUp)
    } else if l == "pagedown"@ || l == "pgdn"@ {
        Some(KeyCode::PageDown)
    } else {
        None
    }
}

/// One key spec: trimmed; a single character is taken literally (case-sensitive); otherwise a
/// function key `F1`..`F12` or a named key, case-insensitively.
pub open spec fn parse_key(s: Seq<char>) -> Option<KeyCode> {
    let t = trim(s);
    if t.len() == 0 {
        None
    } else if t.len() == 1 {
        Some(KeyCode::Char(t[0]))
    } else {
        let l = ascii_lower(t);
        match f_key(l) {
            Some(n) => Some(KeyCode::F(n)),
            None => named_key(l),
        }
    }
}

fn ascii_lowercase(s: &[char]) -> (r: Vec<char>)
    ensures
        r@ == ascii_lower(s@),
{
    let mut out: Vec<char> = Vec::new();
    let mut i: usize = 0;
    while i < s.len()
        invariant
            i <= s@.len(),
            out@ == ascii_lower(s@.take(i as int)),
        decreases s.len() - i,
    {
        let c = s[i];
        let u = c as u32;
        let d = if 65 <= u && u <= 90 {
            ((u + 32) as u8) as char
        } else {
            c
        };
        assert(d == lower_char(c));
        out.push(d);
        assert(ascii_lower(s@.take(i + 1)) =~= ascii_lower(s@.take(i as int)).push(lower_char(c)));
        i += 1;
    }
    assert(s@.take(i as int) =~= s@);
    out
}

fn named_key_exec(l: &[char]) -> (r: Option<KeyCode>)
    ensures
        r == named_key(l@),
{
    if chars_eq(l, "up") {
        Some(KeyCode::Up)
    } else if chars_eq(l, "down") {
        Some(KeyCode::Down)
    } else if chars_eq(l, "left") {
        Some(KeyCode::Left)
    } else if chars_eq(l, "right") {
        Some(KeyCode::Right)
    } else if chars_eq(l, "enter") || chars_eq(l, "return") {
        Some(KeyCode::Enter)
    } else if chars_eq(l, "space") {
        Some(KeyCode::Char(' '))
    } else if chars_eq(l, "tab") {
        Some(KeyCode::Tab)
    } else if chars_eq(l, "backtab") {
        Some(KeyCode::BackTab)
    } else if chars_eq(l, "esc") || chars_eq(l, "escape") {
        Some(KeyCode::Esc)
    } else if chars_eq(l, "backspace") {
        Some(KeyCode::Backspace)
    } else if chars_eq(l, "delete") || chars_eq(l, "del") {
        Some(KeyCode::Delete)
    } else if chars_eq(l, "insert") || chars_eq(l, "ins") {
        Some(KeyCode::Insert)
    } else if chars_eq(l, "home") {
        Some(KeyCode::Home)
    } else if chars_eq(l, "end") {
        Some(KeyCode::End)
    } else if chars_eq(l, "pageup") || chars_eq(l, "pgup") {
        Some(KeyCode::PageUp)
    } else if chars_eq(l, "pagedown") || chars_eq(l, "pgdn") {
        Some(KeyCode::PageDown)
    } else {
        None
    }
}

/// Parse one key spec. A single character is taken literally and IS case-sensitive (`Z` is not
/// `z`); named keys are case-insensitive.
pub fn parse_key_spec(spec: &str) -> (r: Option<KeyCode>)
    ensures
        r == parse_key(spec@),
{
    let chars = chars_of(spec);
    let t = trim_chars(chars.as_slice());
    if t.len() == 0 {
        return None;
    }
    if t.len() == 1 {
        return Some(KeyCode::Char(t[0]));
    }
    let lower = ascii_lowercase(t.as_slice());
    if lower[0] == 'f' {
        if let Some(n) = parse_u32_range(lower.as_slice(), 1, lower.len()) {
            if 1 <= n && n <= 12 {
                return Some(KeyCode::F(n as u8));
            }
        }
    }
    named_key_exec(lower.as_slice())
}

/// The key a label names: the inverse of [`label_of`].
pub open spec fn key_of_label(l: Seq<char>) -> KeyCode {
    if l == "Space"@ {
        KeyCode::Char(' ')
    } else if l.len() == 1 {
        KeyCode::Char(l[0])
    } else if l == "Up"@ {
        KeyCode::Up
    } else if l == "Down"@ {
        KeyCode::Down
    } else if l == "Left"@ {
        KeyCode::Left
    } else if l == "Right"@ {
        KeyCode::Right
    } else if l == "Enter"@ {
        KeyCode::Enter
    } else if l == "Tab"@ {
        KeyCode::Tab
    } else if l == "BackTab"@ {
        KeyCode::BackTab
    } else if l == "Esc"@ {
        KeyCode::Esc
    } else if l == "Backspace"@ {
        KeyCode::Backspace
    } else if l == "Delete"@ {
        KeyCode::Delete
    } else if l == "Insert"@ {
        KeyCode::Insert
    } else if l == "Home"@ {
        KeyCode::Home
    } else if l == "End"@ {
        KeyCode::End
    } else if l == "PageUp"@ {
        KeyCode::PageUp
    } else if l == "PageDown"@ {
        KeyCode::PageDown
    } else {
        KeyCode::F(f_number(l))
    }
}

/// The number of an `F` key's label.
pub open spec fn f_number(l: Seq<char>) -> u8 {
    choose|n: u8| "F"@ + decimal(n as nat) == l
}

proof fn lemma_key_of_label(k: KeyCode)
    ensures
        key_of_label(label_of(k)) == k,
{
    reveal_strlit("Space");
    reveal_strlit("F");
    reveal_strlit("Up");
    reveal_strlit("Down");
    reveal_strlit("Left");
    reveal_strlit("Right");
    reveal_strlit("Enter");
    reveal_strlit("Tab");
    reveal_strlit("BackTab");
    reveal_strlit("Esc");
    reveal_strlit("Backspace");
    reveal_strlit("Delete");
    reveal_strlit("Insert");
    reveal_strlit("Home");
    reveal_strlit("End");
    reveal_strlit("PageUp");
    reveal_strlit("PageDown");
    let l = label_of(k);
    assert("Down"@[0] != "Left"@[0]);
    assert("Right"@[0] != "Space"@[0]);
    assert("Enter"@[0] != "Space"@[0]);
    assert("Enter"@[0] != "Right"@[0]);
    assert("Esc"@[0] != "Tab"@[0]);
    assert("Insert"@[0] != "Delete"@[0]);
    assert("Home"@[0] != "Down"@[0]);
    assert("Home"@[0] != "Left"@[0]);
    assert("End"@[0] != "Tab"@[0]);
    assert("End"@[1] != "Esc"@[1]);
    assert("PageUp"@[0] != "Delete"@[0]);
    assert("PageUp"@[0] != "Insert"@[0]);
    match k {
        KeyCode::F(n) => {
            lemma_decimal_shape(n as nat);
            assert(l[0] == 'F');
            assert(l.len() >= 2);
            assert(l.len() <= 4) by {
                if n >= 100 {
                    assert(decimal(n as nat / 10).len() == 2) by {
                        lemma_decimal_shape(n as nat / 100);
                        lemma_decimal_shape(n as nat / 10);
                    }
                } else if n >= 10 {
                    lemma_decimal_shape(n as nat / 10);
                }
            }
            assert(l[1] == decimal(n as nat)[0]);
            assert(l != "Space"@) by {
                assert("Space"@[0] != 'F');
            }
            assert(l != "Up"@) by {
                assert("Up"@[0] != 'F');
            }
            assert(l != "Down"@) by {
                assert("Down"@[0] != 'F');
            }
            assert(l != "Left"@) by {
                assert("Left"@[0] != 'F');
            }
            assert(l != "Right"@) by {
                assert("Right"@[0] != 'F');
            }
            assert(l != "Enter"@) by {
                assert("Enter"@[0] != 'F');
            }
            assert(l != "Tab"@) by {
                assert("Tab"@[0] != 'F');
            }
            assert(l != "BackTab"@) by {
                assert("BackTab"@[0] != 'F');
            }
            assert(l != "Esc"@) by {
                assert("Esc"@[0] != 'F');
            }
            assert(l != "Backspace"@) by {
                assert("Backspace"@[0] != 'F');
            }
            assert(l != "Delete"@) by {
                assert("Delete"@[0] != 'F');
            }
            assert(l != "Insert"@) by {
                assert("Insert"@[0] != 'F');
            }
            assert(l != "Home"@) by {
                assert("Home"@[0] != 'F');
            }
            assert(l != "End"@) by {
                assert("End"@[0] != 'F');
            }
            assert(l != "PageUp"@) by {
                assert("PageUp"@[0] != 'F');
            }
            assert(l != "PageDown"@) by {
                assert("PageDown"@[0] != 'F');
            }
            assert("F"@ + decimal(n as nat) == l);
            let m = f_number(l);
            assert("F"@ + decimal(m as nat) == l);
            assert(("F"@ + decimal(m as nat)).subrange(1, l.len() as int) =~= decimal(m as nat));
            assert(l.subrange(1, l.len() as int) =~= decimal(n as nat));
            lemma_decimal_injective(m as nat, n as nat);
        },
        KeyCode::Char(c) => {},
        _ => {},
    }
}

/// Different keys have different labels, so ordering keys by label orders them completely.
pub proof fn lemma_label_injective(a: KeyCode, b: KeyCode)
    requires
        label_of(a) == label_of(b),
    ensures
        a == b,
{
    lemma_key_of_label(a);
    lemma_key_of_label(b);
}

/// A key's human label, for the help overlay.
pub open spec fn label_of(code: KeyCode) -> Seq<char> {
    match code {
        KeyCode::Char(c) => if c == ' ' {
            "Space"@
        } else {
            seq![c]
        },
        KeyCode::F(n) => "F"@ + decimal(n as nat),
        KeyCode::Up => "Up"@,
        KeyCode::Down => "Down"@,
        KeyCode::Left => "Left"@,
        KeyCode::Right => "Right"@,
        KeyCode::Enter => "Enter"@,
        KeyCode::Tab => "Tab"@,
        KeyCode::BackTab => "BackTab"@,
        KeyCode::Esc => "Esc"@,
        KeyCode::Backspace => "Backspace"@,
        KeyCode::Delete => "Delete"@,
        KeyCode::Insert => "Insert"@,
        KeyCode::Home => "Home"@,
        KeyCode::End => "End"@,
        KeyCode::PageUp => "PageUp"@,
        KeyCode::PageDown => "PageDown"@,
    }
}

/// A key's human label, for the help overlay.
pub fn key_label(code: KeyCode) -> (r: String)
    ensures
        r@ == label_of(code),
{
    match code {
        KeyCode::Char(c) => {
            if c == ' ' {
                owned("Space")
            } else {
                let mut s = String::new();
                push_char(&mut s, c);
                assert(s@ =~= seq![c]);
                s
            }
        },
        KeyCode::F(n) => {
            let mut s = owned("F");
            push_decimal(&mut s, n as u64);
            s
        },
        KeyCode::Up => owned("Up"),
        KeyCode::Down => owned("Down"),
        KeyCode::Left => owned("Left"),
        KeyCode::Right => owned("Right"),
        KeyCode::Enter => owned("Enter"),
        KeyCode::Tab => owned("Tab"),
        KeyCode::BackTab => owned("BackTab"),
        KeyCode::Esc => owned("Esc"),
        KeyCode::Backspace => owned("Backspace"),
        KeyCode::Delete => owned("Delete"),
        KeyCode::Insert => owned("Insert"),
        KeyCode::Home => owned("Home"),
        KeyCode::End => owned("End"),
        KeyCode::PageUp => owned("PageUp"),
        KeyCode::PageDown => owned("PageDown"),
    }
}


// ---- the registry ----------------------------------------------------------------------------

/// One action's registry entry: its config key name, its default keys, and its help text.
pub struct RegistryRow {
    pub intent: Intent,
    /// The `[keys]` name that overrides this row.
    pub name: &'static str,
    pub default_keys: &'static [&'static str],
    pub description: &'static str,
}

/// A registry row as plain values.
pub struct RowSpec {
    pub intent: Intent,
    pub name: Seq<char>,
    pub keys: Seq<Seq<char>>,
    pub description: Seq<char>,
}

pub open spec fn strs_view(v: Seq<&str>) -> Seq<Seq<char>> {
    v.map_values(|s: &str| s@)
}

impl View for RegistryRow {
    type V = RowSpec;

    open spec fn view(&self) -> RowSpec {
        RowSpec {
            intent: self.intent,
            name: self.name@,
            keys: strs_view(self.default_keys@),
            description: self.description@,
        }
    }
}

pub open spec fn row_spec(intent: Intent, name: &str, keys: Seq<&str>, description: &str) -> RowSpec {
    RowSpec { intent, name: name@, keys: strs_view(keys), description: description@ }
}

/// Every action, its config name, and its default keys, in help order.
pub open spec fn registry_spec() -> Seq<RowSpec> {
    seq![
        row_spec(Intent::NavDown, "nav_down", seq!["j", "Down"], "Move the cursor down"),
        row_spec(Intent::NavUp, "nav_up", seq!["k", "Up"], "Move the cursor up"),
        row_spec(Intent::Activate, "activate", seq!["Enter", "Space"], "Expand or collapse the selected repo or group"),
        row_spec(Intent::FocusToggle, "focus_toggle", seq!["Tab"], "Move focus between the tree and the diff"),
        row_spec(Intent::NextChange, "next_change", seq!["]"], "Jump to the next changed file, across repos"),
        row_spec(Intent::PrevChange, "prev_change", seq!["["], "Jump to the previous changed file, across repos"),
        row_spec(Intent::Refresh, "refresh", seq!["r"], "Re-scan now, including the repo list"),
        row_spec(Intent::ToggleAll, "toggle_all", seq!["a"], "Expand or collapse everything"),
        row_spec(Intent::Zoom, "zoom", seq!["Z"], "Toggle this pane's full-screen zoom"),
        row_spec(Intent::CopyPath, "copy_path", seq!["y"], "Copy repo:path for the selected file"),
        row_spec(Intent::OpenEditor, "open_editor", seq!["e"], "Open the selected file in $EDITOR"),
        row_spec(Intent::Help, "help", seq!["?"], "Show this help"),
        row_spec(Intent::Close, "close", seq!["Esc"], "Close the overlay"),
        row_spec(Intent::Quit, "quit", seq!["q"], "Quit"),
    ]
}

pub open spec fn registry_view(rows: Seq<RegistryRow>) -> Seq<RowSpec> {
    rows.map_values(|r: RegistryRow| r@)
}

fn row(intent: Intent, name: &'static str, keys: &'static [&'static str], description: &'static str) -> (r: RegistryRow)
    ensures
        r@ == row_spec(intent, name, keys@, description),
{
    RegistryRow { intent, name, default_keys: keys, description }
}

/// Every action, its config name, and its default keys, in help order.
pub fn registry() -> (r: Vec<RegistryRow>)
    ensures
        registry_view(r@) == registry_spec(),
{
    let mut v: Vec<RegistryRow> = Vec::new();
    let k: &'static [&'static str] = &["j", "Down"];
    assert(k@ =~= seq!["j", "Down"]);
    v.push(row(Intent::NavDown, "nav_down", k, "Move the cursor down"));
    let k: &'static [&'static str] = &["k", "Up"];
    assert(k@ =~= seq!["k", "Up"]);
    v.push(row(Intent::NavUp, "nav_up", k, "Move the cursor up"));
    let k: &'static [&'static str] = &["Enter", "Space"];
    assert(k@ =~= seq!["Enter", "Space"]);
    v.push(row(Intent::Activate, "activate", k, "Expand or collapse the selected repo or group"));
    let k: &'static [&'static str] = &["Tab"];
    assert(k@ =~= seq!["Tab"]);
    v.push(row(Intent::FocusToggle, "focus_toggle", k, "Move focus between the tree and the diff"));
    let k: &'static [&'static str] = &["]"];
    assert(k@ =~= seq!["]"]);
    v.push(row(Intent::NextChange, "next_change", k, "Jump to the next changed file, across repos"));
    let k: &'static [&'static str] = &["["];
    assert(k@ =~= seq!["["]);
    v.push(row(Intent::PrevChange, "prev_change", k, "Jump to the previous changed file, across repos"));
    let k: &'static [&'static str] = &["r"];
    assert(k@ =~= seq!["r"]);
    v.push(row(Intent::Refresh, "refresh", k, "Re-scan now, including the repo list"));
    let k: &'static [&'static str] = &["a"];
    assert(k@ =~= seq!["a"]);
    v.push(row(Intent::ToggleAll, "toggle_all", k, "Expand or collapse everything"));
    let k: &'static [&'static str] = &["Z"];
    assert(k@ =~= seq!["Z"]);
    v.push(row(Intent::Zoom, "zoom", k, "Toggle this pane's full-screen zoom"));
    let k: &'static [&'static str] = &["y"];
    assert(k@ =~= seq!["y"]);
    v.push(row(Intent::CopyPath, "copy_path", k, "Copy repo:path for the selected file"));
    let k: &'static [&'static str] = &["e"];
    assert(k@ =~= seq!["e"]);
    v.push(row(Intent::OpenEditor, "open_editor", k, "Open the selected file in $EDITOR"));
    let k: &'static [&'static str] = &["?"];
    assert(k@ =~= seq!["?"]);
    v.push(row(Intent::Help, "help", k, "Show this help"));
    let k: &'static [&'static str] = &["Esc"];
    assert(k@ =~= seq!["Esc"]);
    v.push(row(Intent::Close, "close", k, "Close the overlay"));
    let k: &'static [&'static str] = &["q"];
    assert(k@ =~= seq!["q"]);
    v.push(row(Intent::Quit, "quit", k, "Quit"));
    assert(registry_view(v@) =~= registry_spec());
    v
}



// ---- resolution --------------------------------------------------------------------------------

/// The keys a list of specs parses to, unparseable ones dropped, in order.
pub open spec fn parse_all(specs: Seq<Seq<char>>) -> Seq<KeyCode>
    decreases specs.len(),
{
    if specs.len() == 0 {
        Seq::empty()
    } else {
        match parse_key(specs.last()) {
            Some(k) => parse_all(specs.drop_last()).push(k),
            None => parse_all(specs.drop_last()),
        }
    }
}

/// The first of the first `n` registry rows named `name`.
pub open spec fn row_named_upto(name: Seq<char>, n: int) -> Option<int>
    decreases n,
{
    if n <= 0 {
        None
    } else {
        match row_named_upto(name, n - 1) {
            Some(i) => Some(i),
            None => if registry_spec()[n - 1].name == name {
                Some(n - 1)
            } else {
                None
            },
        }
    }
}

/// The registry row a `[keys]` name overrides.
pub open spec fn row_named(name: Seq<char>) -> Option<int> {
    row_named_upto(name, registry_spec().len() as int)
}

/// The keys of the last of the first `n` entries that overrides row `i` with at least one
/// parseable key.
pub open spec fn override_for(entries: Seq<(Seq<char>, Seq<Seq<char>>)>, n: int, i: int) -> Option<
    Seq<KeyCode>,
>
    decreases n,
{
    if n <= 0 {
        None
    } else if row_named(entries[n - 1].0) == Some(i) && parse_all(entries[n - 1].1).len() > 0 {
        Some(parse_all(entries[n - 1].1))
    } else {
        override_for(entries, n - 1, i)
    }
}

/// A registry row's effective keys and whether they came from the config.
pub struct EffRow {
    pub intent: Intent,
    pub codes: Seq<KeyCode>,
    pub custom: bool,
}

/// Row `i` after the first `n` entries of the config.
pub open spec fn eff_row_upto(entries: Seq<(Seq<char>, Seq<Seq<char>>)>, n: int, i: int) -> EffRow {
    match override_for(entries, n, i) {
        Some(c) => EffRow { intent: registry_spec()[i].intent, codes: c, custom: true },
        None => EffRow {
            intent: registry_spec()[i].intent,
            codes: parse_all(registry_spec()[i].keys),
            custom: false,
        },
    }
}

/// Every registry row after the whole config.
pub open spec fn eff_rows(entries: Seq<(Seq<char>, Seq<Seq<char>>)>) -> Seq<EffRow> {
    Seq::new(registry_spec().len(), |i: int| eff_row_upto(entries, entries.len() as int, i))
}

/// The intent of the last of the first `n` customized rows holding `k`.
pub open spec fn claimed_custom(eff: Seq<EffRow>, n: int, k: KeyCode) -> Option<Intent>
    decreases n,
{
    if n <= 0 {
        None
    } else if eff[n - 1].custom && eff[n - 1].codes.contains(k) {
        Some(eff[n - 1].intent)
    } else {
        claimed_custom(eff, n - 1, k)
    }
}

/// The intent of the first of the first `n` default rows holding `k`.
pub open spec fn claimed_default(eff: Seq<EffRow>, n: int, k: KeyCode) -> Option<Intent>
    decreases n,
{
    if n <= 0 {
        None
    } else {
        match claimed_default(eff, n - 1, k) {
            Some(x) => Some(x),
            None => if !eff[n - 1].custom && eff[n - 1].codes.contains(k) {
                Some(eff[n - 1].intent)
            } else {
                None
            },
        }
    }
}

/// What a key fires once a config is layered over the defaults: `Esc` closes; otherwise a
/// customized row's key wins outright (the later row when two claim it), then the first default
/// row that still holds it.
pub open spec fn resolved_key(entries: Seq<(Seq<char>, Seq<Seq<char>>)>, k: KeyCode) -> Option<
    Intent,
> {
    let eff = eff_rows(entries);
    if k == KeyCode::Esc {
        Some(Intent::Close)
    } else {
        match claimed_custom(eff, eff.len() as int, k) {
            Some(x) => Some(x),
            None => claimed_default(eff, eff.len() as int, k),
        }
    }
}

/// Whether a config customizes `intent`.
pub open spec fn is_custom(entries: Seq<(Seq<char>, Seq<Seq<char>>)>, intent: Intent) -> bool {
    exists|i: int|
        0 <= i < registry_spec().len() && #[trigger] eff_rows(entries)[i].custom
            && eff_rows(entries)[i].intent == intent
}

// ---- the key map -----------------------------------------------------------------------------

/// No key occurs twice.
pub open spec fn keys_distinct(m: Seq<(KeyCode, Intent)>) -> bool {
    forall|i: int, j: int| 0 <= i < j < m.len() ==> (#[trigger] m[i]).0 != (#[trigger] m[j]).0
}

/// Whether `m` has an entry for `k`.
pub open spec fn has_entry(m: Seq<(KeyCode, Intent)>, k: KeyCode) -> bool {
    exists|i: int| 0 <= i < m.len() && (#[trigger] m[i]).0 == k
}

/// The intent `m` maps `k` to.
pub open spec fn lookup(m: Seq<(KeyCode, Intent)>, k: KeyCode) -> Option<Intent> {
    if has_entry(m, k) {
        Some(m[choose|i: int| 0 <= i < m.len() && (#[trigger] m[i]).0 == k].1)
    } else {
        None
    }
}

proof fn lemma_lookup_at(m: Seq<(KeyCode, Intent)>, i: int)
    requires
        keys_distinct(m),
        0 <= i < m.len(),
    ensures
        lookup(m, m[i].0) == Some(m[i].1),
{
    let k = m[i].0;
    assert(has_entry(m, k));
    let j = choose|j: int| 0 <= j < m.len() && (#[trigger] m[j]).0 == k;
    if j != i {
        if j < i {
            assert(m[j].0 != m[i].0);
        } else {
            assert(m[i].0 != m[j].0);
        }
    }
}

/// Map `k` to `v`, replacing any earlier mapping of `k`.
fn map_insert(m: &mut Vec<(KeyCode, Intent)>, k: KeyCode, v: Intent)
    requires
        keys_distinct(old(m)@),
    ensures
        keys_distinct(final(m)@),
        forall|x: KeyCode| #[trigger] lookup(final(m)@, x) == if x == k {
            Some(v)
        } else {
            lookup(old(m)@, x)
        },
{
    let ghost m0 = m@;
    let mut i: usize = 0;
    while i < m.len()
        invariant
            i <= m@.len(),
            m@ == m0,
            m0 == old(m)@,
            keys_distinct(m0),
            forall|j: int| 0 <= j < i ==> (#[trigger] m@[j]).0 != k,
        decreases m.len() - i,
    {
        if m[i].0 == k {
            m.set(i, (k, v));
            proof {
                let m1 = m@;
                assert(keys_distinct(m1)) by {
                    assert forall|a: int, b: int| 0 <= a < b < m1.len() implies (#[trigger] m1[a]).0
                        != (#[trigger] m1[b]).0 by {
                        assert(m1[a].0 == m0[a].0 && m1[b].0 == m0[b].0);
                    }
                }
                assert forall|x: KeyCode| #[trigger] lookup(m1, x) == if x == k {
                    Some(v)
                } else {
                    lookup(m0, x)
                } by {
                    if x == k {
                        lemma_lookup_at(m1, i as int);
                    } else {
                        if has_entry(m0, x) {
                            let j = choose|j: int| 0 <= j < m0.len() && (#[trigger] m0[j]).0 == x;
                            lemma_lookup_at(m0, j);
                            assert(m1[j] == m0[j]);
                            lemma_lookup_at(m1, j);
                        } else {
                            assert(!has_entry(m1, x)) by {
                                if has_entry(m1, x) {
                                    let j = choose|j: int| 0 <= j < m1.len() && (#[trigger] m1[j]).0 == x;
                                    assert(m0[j].0 == x);
                                }
                            }
                        }
                    }
                }
            }
            return;
        }
        i += 1;
    }
    m.push((k, v));
    proof {
        let m1 = m@;
        assert(keys_distinct(m1)) by {
            assert forall|a: int, b: int| 0 <= a < b < m1.len() implies (#[trigger] m1[a]).0 != (
            #[trigger] m1[b]).0 by {
                if b < m0.len() {
                    assert(m1[a] == m0[a] && m1[b] == m0[b]);
                } else {
                    assert(m1[a] == m0[a]);
                }
            }
        }
        assert forall|x: KeyCode| #[trigger] lookup(m1, x) == if x == k {
            Some(v)
        } else {
            lookup(m0, x)
        } by {
            if x == k {
                lemma_lookup_at(m1, m0.len() as int);
            } else {
                if has_entry(m0, x) {
                    let j = choose|j: int| 0 <= j < m0.len() && (#[trigger] m0[j]).0 == x;
                    lemma_lookup_at(m0, j);
                    assert(m1[j] == m0[j]);
                    lemma_lookup_at(m1, j);
                } else {
                    assert(!has_entry(m1, x)) by {
                        if has_entry(m1, x) {
                            let j = choose|j: int| 0 <= j < m1.len() && (#[trigger] m1[j]).0 == x;
                            if j < m0.len() {
                                assert(m0[j].0 == x);
                            }
                        }
                    }
                }
            }
        }
    }
}

/// The intent `m` maps `k` to.
fn map_get(m: &Vec<(KeyCode, Intent)>, k: KeyCode) -> (r: Option<Intent>)
    requires
        keys_distinct(m@),
    ensures
        r == lookup(m@, k),
{
    let mut i: usize = 0;
    while i < m.len()
        invariant
            i <= m@.len(),
            keys_distinct(m@),
            forall|j: int| 0 <= j < i ==> (#[trigger] m@[j]).0 != k,
        decreases m.len() - i,
    {
        if m[i].0 == k {
            proof {
                lemma_lookup_at(m@, i as int);
            }
            return Some(m[i].1);
        }
        i += 1;
    }
    assert(!has_entry(m@, k));
    None
}

/// The resolved key -> intent map plus which intents the user customized.
pub struct Bindings {
    map: Vec<(KeyCode, Intent)>,
    customized: Vec<Intent>,
}

/// [`Bindings`] as plain values.
pub struct BindingsV {
    pub map: Seq<(KeyCode, Intent)>,
    pub customized: Seq<Intent>,
}

impl View for Bindings {
    type V = BindingsV;

    closed spec fn view(&self) -> BindingsV {
        BindingsV { map: self.map@, customized: self.customized@ }
    }
}

impl Bindings {
    #[verifier::type_invariant]
    spec fn inv(self) -> bool {
        keys_distinct(self.map@)
    }

    /// The intent this key fires, or `None` when it is unbound.
    pub fn intent_for(&self, code: KeyCode) -> (r: Option<Intent>)
        ensures
            r == lookup(self@.map, code),
    {
        proof {
            use_type_invariant(self);
        }
        map_get(&self.map, code)
    }

    /// The effective keys for an intent, ordered by their rendered label so the help overlay is
    /// stable across runs.
    pub fn keys_for(&self, intent: Intent) -> (r: Vec<KeyCode>)
        ensures
            forall|k: KeyCode| #[trigger] r@.contains(k) == (lookup(self@.map, k) == Some(intent)),
            r@.no_duplicates(),
            labels_sorted(r@),
    {
        proof {
            use_type_invariant(self);
        }
        let ghost m = self.map@;
        let mut out: Vec<KeyCode> = Vec::new();
        let mut i: usize = 0;
        while i < self.map.len()
            invariant
                m == self.map@,
                keys_distinct(m),
                i <= m.len(),
                out@.no_duplicates(),
                labels_sorted(out@),
                forall|k: KeyCode| #[trigger] out@.contains(k) == exists|j: int|
                    0 <= j < i && #[trigger] m[j] == (k, intent),
            decreases self.map.len() - i,
        {
            let (k, v) = self.map[i];
            if v == intent {
                proof {
                    assert(!out@.contains(k)) by {
                        if out@.contains(k) {
                            let j = choose|j: int| 0 <= j < i && #[trigger] m[j] == (k, intent);
                            assert(m[j].0 != m[i as int].0);
                        }
                    }
                }
                let ghost before = out@;
                insert_by_label(&mut out, k);
                proof {
                    assert forall|x: KeyCode| #[trigger] out@.contains(x) == exists|j: int|
                        0 <= j < i + 1 && #[trigger] m[j] == (x, intent) by {
                        if exists|j: int| 0 <= j < i + 1 && #[trigger] m[j] == (x, intent) {
                            let j = choose|j: int| 0 <= j < i + 1 && #[trigger] m[j] == (x, intent);
                            if j < i {
                                assert(before.contains(x));
                            }
                        }
                    }
                }
            } else {
                proof {
                    assert forall|x: KeyCode| #[trigger] out@.contains(x) == exists|j: int|
                        0 <= j < i + 1 && #[trigger] m[j] == (x, intent) by {
                        if exists|j: int| 0 <= j < i + 1 && #[trigger] m[j] == (x, intent) {
                            let j = choose|j: int| 0 <= j < i + 1 && #[trigger] m[j] == (x, intent);
                            assert(j < i);
                        }
                    }
                }
            }
            i += 1;
        }
        proof {
            assert forall|k: KeyCode| #[trigger] out@.contains(k) == (lookup(m, k) == Some(intent)) by {
                if exists|j: int| 0 <= j < m.len() && #[trigger] m[j] == (k, intent) {
                    let j = choose|j: int| 0 <= j < m.len() && #[trigger] m[j] == (k, intent);
                    lemma_lookup_at(m, j);
                }
                if lookup(m, k) == Some(intent) {
                    let j = choose|j: int| 0 <= j < m.len() && (#[trigger] m[j]).0 == k;
                    lemma_lookup_at(m, j);
                    assert(m[j] == (k, intent));
                }
            }
        }
        out
    }

    /// Whether this intent's keys came from the user's config.
    pub fn is_customized(&self, intent: Intent) -> (r: bool)
        ensures
            r == self@.customized.contains(intent),
    {
        let mut i: usize = 0;
        while i < self.customized.len()
            invariant
                i <= self.customized@.len(),
                forall|j: int| 0 <= j < i ==> self.customized@[j] != intent,
            decreases self.customized.len() - i,
        {
            if self.customized[i] == intent {
                return true;
            }
            i += 1;
        }
        false
    }
}

/// No key's label sorts before the label of a key ahead of it.
pub open spec fn labels_sorted(keys: Seq<KeyCode>) -> bool {
    forall|i: int, j: int|
        0 <= i < j < keys.len() ==> !seq_lt(label_of(#[trigger] keys[j]), label_of(#[trigger] keys[i]))
}

/// The label of `k`, as characters.
fn label_chars(k: KeyCode) -> (r: Vec<char>)
    ensures
        r@ == label_of(k),
{
    let l = key_label(k);
    chars_of(l.as_str())
}

/// Insert `k` after every key whose label does not sort after its own.
fn insert_by_label(v: &mut Vec<KeyCode>, k: KeyCode)
    requires
        labels_sorted(old(v)@),
        old(v)@.no_duplicates(),
        !old(v)@.contains(k),
    ensures
        labels_sorted(final(v)@),
        final(v)@.no_duplicates(),
        forall|x: KeyCode| #[trigger] final(v)@.contains(x) == (old(v)@.contains(x) || x == k),
{
    let ghost s = v@;
    let lk = label_chars(k);
    let mut j = v.len();
    while j > 0 && less_than(lk.as_slice(), label_chars(v[j - 1]).as_slice())
        invariant
            j <= v@.len(),
            s == v@,
            lk@ == label_of(k),
            forall|b: int| j <= b < v@.len() ==> seq_lt(label_of(k), label_of(#[trigger] v@[b])),
        decreases j,
    {
        j -= 1;
    }
    v.insert(j, k);
    proof {
        let t = v@;
        assert(t =~= s.take(j as int) + seq![k] + s.skip(j as int));
        assert forall|a: int, b: int| 0 <= a < b < t.len() implies !seq_lt(
            label_of(#[trigger] t[b]),
            label_of(#[trigger] t[a]),
        ) by {
            if b < j {
                assert(t[a] == s[a] && t[b] == s[b]);
            } else if b == j {
                assert(t[a] == s[a]);
                assert(!seq_lt(label_of(k), label_of(s[j - 1])));
                if a < j - 1 {
                    assert(!seq_lt(label_of(s[j - 1]), label_of(s[a])));
                    lemma_le_trans(label_of(s[a]), label_of(s[j - 1]), label_of(k), 0);
                }
            } else if a == j {
                assert(t[b] == s[b - 1]);
                lemma_lt_asym(label_of(k), label_of(s[b - 1]), 0);
            } else if a < j {
                assert(t[a] == s[a] && t[b] == s[b - 1]);
            } else {
                assert(t[a] == s[a - 1] && t[b] == s[b - 1]);
            }
        }
        assert forall|a: int, b: int| 0 <= a < b < t.len() implies t[a] != t[b] by {
            if b < j {
                assert(t[a] == s[a] && t[b] == s[b]);
            } else if b == j {
                assert(t[a] == s[a]);
            } else if a == j {
                assert(t[b] == s[b - 1]);
            } else if a < j {
                assert(t[a] == s[a] && t[b] == s[b - 1]);
            } else {
                assert(t[a] == s[a - 1] && t[b] == s[b - 1]);
            }
        }
        assert forall|x: KeyCode| #[trigger] t.contains(x) == (s.contains(x) || x == k) by {
            if t.contains(x) {
                let a = choose|a: int| 0 <= a < t.len() && t[a] == x;
                if a < j {
                    assert(s[a] == x);
                } else if a > j {
                    assert(s[a - 1] == x);
                }
            }
            if s.contains(x) {
                let a = choose|a: int| 0 <= a < s.len() && s[a] == x;
                if a < j {
                    assert(t[a] == x);
                } else {
                    assert(t[a + 1] == x);
                }
            }
            if x == k {
                assert(t[j as int] == x);
            }
        }
    }
}

/// The keys a list of specs parses to, unparseable ones dropped.
fn parse_each(specs: &Vec<&str>) -> (r: Vec<KeyCode>)
    ensures
        r@ == parse_all(strs_view(specs@)),
{
    let mut out: Vec<KeyCode> = Vec::new();
    let mut i: usize = 0;
    while i < specs.len()
        invariant
            i <= specs@.len(),
            out@ == parse_all(strs_view(specs@.take(i as int))),
        decreases specs.len() - i,
    {
        assert(strs_view(specs@.take(i + 1)).drop_last() =~= strs_view(specs@.take(i as int)));
        if let Some(k) = parse_key_spec(specs[i]) {
            out.push(k);
        }
        i += 1;
    }
    assert(specs@.take(i as int) =~= specs@);
    out
}

/// The specs of a `[keys]` value, borrowed.
fn spec_strs(spec: &KeySpec) -> (r: Vec<&str>)
    ensures
        strs_view(r@) == spec_strings(*spec),
{
    let mut out: Vec<&str> = Vec::new();
    match spec {
        KeySpec::One(s) => {
            out.push(s.as_str());
            assert(strs_view(out@) =~= seq![s@]);
        },
        KeySpec::Many(v) => {
            let mut i: usize = 0;
            while i < v.len()
                invariant
                    i <= v@.len(),
                    strs_view(out@) == v@.take(i as int).map_values(|s: String| s@),
                decreases v.len() - i,
            {
                let ghost prev = out@;
                let si = v[i].as_str();
                assert(si@ == v@[i as int]@);
                out.push(si);
                assert(strs_view(out@) =~= strs_view(prev).push(si@));
                assert(v@.take(i + 1).map_values(|s: String| s@) =~= v@.take(i as int).map_values(
                    |s: String| s@,
                ).push(v@[i as int]@));
                i += 1;
            }
            assert(v@.take(i as int) =~= v@);
        },
    }
    out
}

/// The first registry row called `name`.
fn find_row_named(reg: &Vec<RegistryRow>, name: &str) -> (r: Option<usize>)
    requires
        registry_view(reg@) == registry_spec(),
    ensures
        match r {
            Some(i) => row_named(name@) == Some(i as int),
            None => row_named(name@) is None,
        },
{
    let mut i: usize = 0;
    while i < reg.len()
        invariant
            i <= reg@.len(),
            registry_view(reg@) == registry_spec(),
            row_named_upto(name@, i as int) is None,
        decreases reg.len() - i,
    {
        assert(reg@[i as int]@ == registry_spec()[i as int]);
        if crate::text::str_eq(reg[i].name, name) {
            proof {
                lemma_row_named_prefix(name@, i + 1, registry_spec().len() as int);
            }
            return Some(i);
        }
        i += 1;
    }
    None
}

proof fn lemma_row_named_range(name: Seq<char>, n: int)
    ensures
        match row_named_upto(name, n) {
            Some(i) => 0 <= i < n,
            None => true,
        },
    decreases n,
{
    if n > 0 {
        lemma_row_named_range(name, n - 1);
    }
}

proof fn lemma_row_named_prefix(name: Seq<char>, n: int, m: int)
    requires
        n <= m,
        row_named_upto(name, n) is Some,
    ensures
        row_named_upto(name, m) == row_named_upto(name, n),
    decreases m - n,
{
    if n < m {
        lemma_row_named_prefix(name, n, m - 1);
    }
}

/// A registry row's working state while a config is layered over it.
struct Eff {
    intent: Intent,
    codes: Vec<KeyCode>,
    custom: bool,
}

spec fn eff_view(v: Seq<Eff>) -> Seq<EffRow> {
    v.map_values(|e: Eff| EffRow { intent: e.intent, codes: e.codes@, custom: e.custom })
}

/// Layer a `[keys]` config over the registry defaults.
///
/// A recognized entry with at least one parseable key REPLACES that intent's key set and wins
/// the key outright, displacing whichever default held it. Unknown names, unparseable keys and
/// empty lists leave the default in place. Finally `Esc` is pinned to [`Intent::Close`].
pub fn resolve_bindings(keys: &Vec<(String, KeySpec)>) -> (b: Bindings)
    ensures
        forall|k: KeyCode| #[trigger] lookup(b@.map, k) == resolved_key(entries_view(keys@), k),
        forall|x: Intent| #[trigger] b@.customized.contains(x) == is_custom(entries_view(keys@), x),
{
    let ghost entries = entries_view(keys@);
    let reg = registry();
    let ghost n = registry_spec().len() as int;
    let mut effective: Vec<Eff> = Vec::new();
    let mut r: usize = 0;
    while r < reg.len()
        invariant
            registry_view(reg@) == registry_spec(),
            r <= reg@.len(),
            eff_view(effective@).len() == r,
            forall|i: int| 0 <= i < r ==> #[trigger] eff_view(effective@)[i] == eff_row_upto(entries, 0, i),
        decreases reg.len() - r,
    {
        assert(reg@[r as int]@ == registry_spec()[r as int]);
        let mut ks: Vec<&str> = Vec::new();
        let mut j: usize = 0;
        let dk = reg[r].default_keys;
        while j < dk.len()
            invariant
                j <= dk@.len(),
                ks@ == dk@.take(j as int),
            decreases dk.len() - j,
        {
            ks.push(dk[j]);
            assert(ks@ =~= dk@.take(j + 1));
            j += 1;
        }
        assert(ks@ =~= dk@);
        let codes = parse_each(&ks);
        let ghost before = effective@;
        effective.push(Eff { intent: reg[r].intent, codes, custom: false });
        assert forall|i: int| 0 <= i < r implies #[trigger] eff_view(effective@)[i] == eff_row_upto(entries, 0, i) by {
            assert(effective@[i] == before[i]);
            assert(eff_view(before)[i] == eff_row_upto(entries, 0, i));
        }
        assert(strs_view(ks@) == registry_spec()[r as int].keys);
        assert(eff_view(effective@)[r as int] == eff_row_upto(entries, 0, r as int));
        r += 1;
    }
    // The config's entries, in order; a later entry for the same row wins.
    let mut e: usize = 0;
    while e < keys.len()
        invariant
            registry_view(reg@) == registry_spec(),
            entries == entries_view(keys@),
            e <= keys@.len(),
            n == registry_spec().len(),
            effective@.len() == n,
            eff_view(effective@).len() == n,
            forall|i: int| 0 <= i < n ==> #[trigger] eff_view(effective@)[i] == eff_row_upto(entries, e as int, i),
        decreases keys.len() - e,
    {
        let ghost before = effective@;
        let pos = find_row_named(&reg, keys[e].0.as_str());
        let specs = spec_strs(&keys[e].1);
        let codes = parse_each(&specs);
        assert(entries[e as int] == (keys@[e as int].0@, spec_strings(keys@[e as int].1)));
        match pos {
            Some(p) => {
                proof {
                    lemma_row_named_range(keys@[e as int].0@, registry_spec().len() as int);
                }
                if codes.len() > 0 {
                    let intent = effective[p].intent;
                    effective.set(p, Eff { intent, codes, custom: true });
                    proof {
                        assert forall|i: int| 0 <= i < n implies #[trigger] eff_view(effective@)[i]
                            == eff_row_upto(entries, e + 1, i) by {
                            if i != p {
                                assert(effective@[i] == before[i]);
                                assert(eff_view(before)[i] == eff_row_upto(entries, e as int, i));
                            } else {
                                assert(eff_view(before)[i] == eff_row_upto(entries, e as int, i));
                                assert(before[i].intent == registry_spec()[i].intent);
                            }
                        }
                    }
                } else {
                    proof {
                        assert forall|i: int| 0 <= i < n implies #[trigger] eff_view(effective@)[i]
                            == eff_row_upto(entries, e + 1, i) by {
                            assert(eff_row_upto(entries, e + 1, i) == eff_row_upto(entries, e as int, i));
                        }
                    }
                }
            },
            None => {
                proof {
                    assert forall|i: int| 0 <= i < n implies #[trigger] eff_view(effective@)[i]
                        == eff_row_upto(entries, e + 1, i) by {
                        assert(eff_row_upto(entries, e + 1, i) == eff_row_upto(entries, e as int, i));
                    }
                }
            },
        }
        e += 1;
    }
    let ghost eff = eff_view(effective@);
    assert(eff =~= eff_rows(entries));
    // Customized intents claim their keys first, so a custom binding displaces a default.
    let mut map: Vec<(KeyCode, Intent)> = Vec::new();
    let mut r: usize = 0;
    while r < effective.len()
        invariant
            eff == eff_view(effective@),
            r <= effective@.len(),
            keys_distinct(map@),
            forall|k: KeyCode| #[trigger] lookup(map@, k) == claimed_custom(eff, r as int, k),
        decreases effective.len() - r,
    {
        if effective[r].custom {
            let codes = &effective[r].codes;
            let intent = effective[r].intent;
            let mut c: usize = 0;
            while c < codes.len()
                invariant
                    eff == eff_view(effective@),
                    r < effective@.len(),
                    codes@ == eff[r as int].codes,
                    intent == eff[r as int].intent,
                    eff[r as int].custom,
                    c <= codes@.len(),
                    keys_distinct(map@),
                    forall|k: KeyCode| #[trigger] lookup(map@, k) == if codes@.take(c as int).contains(k) {
                        Some(intent)
                    } else {
                        claimed_custom(eff, r as int, k)
                    },
                decreases codes.len() - c,
            {
                let ghost m0 = map@;
                map_insert(&mut map, codes[c], intent);
                proof {
                    assert forall|k: KeyCode| #[trigger] lookup(map@, k) == if codes@.take(c + 1).contains(k) {
                        Some(intent)
                    } else {
                        claimed_custom(eff, r as int, k)
                    } by {
                        lemma_take_contains(codes@, c as int, k);
                        assert(lookup(m0, k) == lookup(m0, k));
                    }
                }
                c += 1;
            }
            assert(codes@.take(c as int) =~= codes@);
        }
        r += 1;
    }
    // Defaults fill in only the keys nobody claimed yet.
    let mut r: usize = 0;
    while r < effective.len()
        invariant
            eff == eff_view(effective@),
            r <= effective@.len(),
            keys_distinct(map@),
            forall|k: KeyCode| #[trigger] lookup(map@, k) == match claimed_custom(eff, eff.len() as int, k) {
                Some(x) => Some(x),
                None => claimed_default(eff, r as int, k),
            },
        decreases effective.len() - r,
    {
        if !effective[r].custom {
            let codes = &effective[r].codes;
            let intent = effective[r].intent;
            let mut c: usize = 0;
            while c < codes.len()
                invariant
                    eff == eff_view(effective@),
                    r < effective@.len(),
                    codes@ == eff[r as int].codes,
                    intent == eff[r as int].intent,
                    !eff[r as int].custom,
                    c <= codes@.len(),
                    keys_distinct(map@),
                    forall|k: KeyCode| #[trigger] lookup(map@, k) == match claimed_custom(eff, eff.len() as int, k) {
                        Some(x) => Some(x),
                        None => match claimed_default(eff, r as int, k) {
                            Some(y) => Some(y),
                            None => if codes@.take(c as int).contains(k) {
                                Some(intent)
                            } else {
                                None
                            },
                        },
                    },
                decreases codes.len() - c,
            {
                let code = codes[c];
                let ghost m0 = map@;
                if map_get(&map, code).is_none() {
                    map_insert(&mut map, code, intent);
                }
                proof {
                    assert forall|k: KeyCode| #[trigger] lookup(map@, k) == match claimed_custom(eff, eff.len() as int, k) {
                        Some(x) => Some(x),
                        None => match claimed_default(eff, r as int, k) {
                            Some(y) => Some(y),
                            None => if codes@.take(c + 1).contains(k) {
                                Some(intent)
                            } else {
                                None
                            },
                        },
                    } by {
                        lemma_take_contains(codes@, c as int, k);
                        assert(lookup(m0, k) == lookup(m0, k));
                    }
                }
                c += 1;
            }
            assert(codes@.take(c as int) =~= codes@);
        }
        r += 1;
    }
    // The no-lockout floor: Esc always closes an overlay.
    map_insert(&mut map, KeyCode::Esc, Intent::Close);
    let mut customized: Vec<Intent> = Vec::new();
    let mut r: usize = 0;
    while r < effective.len()
        invariant
            eff == eff_view(effective@),
            r <= effective@.len(),
            customized@ == custom_intents(eff, r as int),
        decreases effective.len() - r,
    {
        if effective[r].custom {
            customized.push(effective[r].intent);
        }
        r += 1;
    }
    proof {
        assert forall|x: Intent| #[trigger] customized@.contains(x) == is_custom(entries, x) by {
            lemma_custom_intents(eff, eff.len() as int, x);
        }
    }
    Bindings { map, customized }
}

/// The intents of the customized rows among the first `n`, in order.
pub open spec fn custom_intents(eff: Seq<EffRow>, n: int) -> Seq<Intent>
    decreases n,
{
    if n <= 0 {
        Seq::empty()
    } else if eff[n - 1].custom {
        custom_intents(eff, n - 1).push(eff[n - 1].intent)
    } else {
        custom_intents(eff, n - 1)
    }
}

proof fn lemma_custom_intents(eff: Seq<EffRow>, n: int, x: Intent)
    requires
        0 <= n <= eff.len(),
    ensures
        custom_intents(eff, n).contains(x) == exists|i: int|
            0 <= i < n && #[trigger] eff[i].custom && eff[i].intent == x,
    decreases n,
{
    if n > 0 {
        lemma_custom_intents(eff, n - 1, x);
        let prev = custom_intents(eff, n - 1);
        if eff[n - 1].custom {
            if prev.push(eff[n - 1].intent).contains(x) {
                let j = choose|j: int| 0 <= j < prev.len() + 1 && #[trigger] prev.push(eff[n - 1].intent)[j] == x;
                if j < prev.len() {
                    assert(prev[j] == x);
                } else {
                    assert(eff[n - 1].custom && eff[n - 1].intent == x);
                }
            }
            if exists|i: int| 0 <= i < n && #[trigger] eff[i].custom && eff[i].intent == x {
                let i = choose|i: int| 0 <= i < n && #[trigger] eff[i].custom && eff[i].intent == x;
                if i < n - 1 {
                    let j = choose|j: int| 0 <= j < prev.len() && prev[j] == x;
                    assert(prev.push(eff[n - 1].intent)[j] == x);
                } else {
                    assert(prev.push(eff[n - 1].intent)[prev.len() as int] == x);
                }
            }
        } else {
            if exists|i: int| 0 <= i < n && #[trigger] eff[i].custom && eff[i].intent == x {
                let i = choose|i: int| 0 <= i < n && #[trigger] eff[i].custom && eff[i].intent == x;
                assert(i < n - 1);
            }
        }
    }
}

proof fn lemma_take_contains(s: Seq<KeyCode>, c: int, k: KeyCode)
    requires
        0 <= c < s.len(),
    ensures
        s.take(c + 1).contains(k) == (s.take(c).contains(k) || s[c] == k),
{
    if s.take(c + 1).contains(k) {
        let j = choose|j: int| 0 <= j < c + 1 && #[trigger] s.take(c + 1)[j] == k;
        if j < c {
            assert(s.take(c)[j] == k);
        }
    }
    if s.take(c).contains(k) {
        let j = choose|j: int| 0 <= j < c && #[trigger] s.take(c)[j] == k;
        assert(s.take(c + 1)[j] == k);
    }
    if s[c] == k {
        assert(s.take(c + 1)[c] == k);
    }
}

/// The registry's defaults, with no config applied.
pub fn default_bindings() -> (b: Bindings)
    ensures
        forall|k: KeyCode| #[trigger] lookup(b@.map, k) == resolved_key(Seq::empty(), k),
        forall|x: Intent| #[trigger] b@.customized.contains(x) == is_custom(Seq::empty(), x),
{
    let none: Vec<(String, KeySpec)> = Vec::new();
    assert(entries_view(none@) =~= Seq::empty());
    resolve_bindings(&none)
}

/// Decode a key event into an intent.
///
/// Only key PRESSES count (a terminal that reports releases must not fire an action twice), and
/// only `Shift` is tolerated as a modifier — and only on a character, because that is how an
/// uppercase key arrives. Every other chord (Ctrl+C above all) stays the terminal's.
pub open spec fn decode_spec(ev: KeyEvent, map: Seq<(KeyCode, Intent)>) -> Option<Intent> {
    if ev.kind == KeyEventKind::Release {
        None
    } else if !(ev.modifiers == MOD_NONE || (ev.code is Char && ev.modifiers == MOD_SHIFT)) {
        None
    } else {
        lookup(map, ev.code)
    }
}

/// Decode a key event into an intent.
pub fn decode(ev: KeyEvent, bindings: &Bindings) -> (r: Option<Intent>)
    ensures
        r == decode_spec(ev, bindings@.map),
{
    if ev.kind == KeyEventKind::Release {
        return None;
    }
    let allowed: u8 = match ev.code {
        KeyCode::Char(_) => MOD_SHIFT,
        _ => MOD_NONE,
    };
    let m = ev.modifiers;
    assert((m & !1u8) == 0 <==> (m == 0 || m == 1)) by (bit_vector);
    assert((m & !0u8) == 0 <==> m == 0) by (bit_vector);
    if m & !allowed != 0 {
        return None;
    }
    bindings.intent_for(ev.code)
}

// ---- laws --------------------------------------------------------------------------------------

/// Law: whatever the config says, `Esc` closes an overlay, so no configuration can lock the
/// user inside one.
pub proof fn law_escape_always_closes(entries: Seq<(Seq<char>, Seq<Seq<char>>)>)
    ensures
        resolved_key(entries, KeyCode::Esc) == Some(Intent::Close),
{
}

/// Law: an empty config customizes nothing.
pub proof fn law_empty_config_customizes_nothing(x: Intent)
    ensures
        !is_custom(Seq::empty(), x),
{
    if is_custom(Seq::empty(), x) {
        let i = choose|i: int|
            0 <= i < registry_spec().len() && #[trigger] eff_rows(Seq::empty())[i].custom
                && eff_rows(Seq::empty())[i].intent == x;
        assert(override_for(Seq::empty(), 0, i) is None);
    }
}

proof fn lemma_claimed_custom(eff: Seq<EffRow>, n: int, i: int, k: KeyCode)
    requires
        0 <= i < n <= eff.len(),
        eff[i].custom,
        eff[i].codes.contains(k),
        forall|j: int| i < j < n ==> !(#[trigger] eff[j].custom && eff[j].codes.contains(k)),
    ensures
        claimed_custom(eff, n, k) == Some(eff[i].intent),
    decreases n,
{
    if n - 1 > i {
        lemma_claimed_custom(eff, n - 1, i, k);
    }
}

/// Law: a key that a customized row lists fires that row's intent, displacing whichever default
/// held it, unless a later customized row lists it too (or it is `Esc`).
pub proof fn law_custom_key_wins(entries: Seq<(Seq<char>, Seq<Seq<char>>)>, i: int, k: KeyCode)
    requires
        0 <= i < registry_spec().len(),
        eff_rows(entries)[i].custom,
        eff_rows(entries)[i].codes.contains(k),
        k != KeyCode::Esc,
        forall|j: int|
            i < j < registry_spec().len() ==> !(#[trigger] eff_rows(entries)[j].custom
                && eff_rows(entries)[j].codes.contains(k)),
    ensures
        resolved_key(entries, k) == Some(eff_rows(entries)[i].intent),
{
    let eff = eff_rows(entries);
    lemma_claimed_custom(eff, eff.len() as int, i, k);
}
} // verus!
