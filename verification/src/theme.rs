//! The panel's palette.
//!
//! ANSI-16 only, by design. The diff half of the pane is coloured by the external renderer plus
//! the user's terminal theme, which this crate cannot see; choosing the terminal's own semantic
//! colours rather than fixed RGB values is the only way the two halves stay in step when the user
//! switches themes. It also keeps the panel readable on a light background and over a 16-colour
//! SSH session. [`Color`] therefore has no RGB or indexed colours at all.
//!
//! Line builders emit [`Role`]s, never a [`Style`], so the palette lives in this one file.
use vstd::prelude::*;

verus! {

/// What a run of text means.
#[derive(Debug, Clone, Copy, PartialEq, Eq, Structural)]
pub enum Role {
    /// A repo's directory name — the highest-ranking text in the tree.
    RepoName,
    /// A repo's path relative to the scan start.
    RelPath,
    /// The `root` / `submodule` / `worktree` / `nested` marker.
    Kind,
    /// The `▸` / `▾` expansion marker.
    Marker,
    /// Borders, dividers, indentation, and the punctuation between fields.
    Chrome,
    /// A branch name or short SHA.
    Branch,
    /// `↑N` or `↓N` with N > 0: there is something to act on.
    Sync,
    /// `↑0` or `↓0`: level with the upstream, so nothing to act on.
    SyncIdle,
    /// A repo's changed-file count.
    DirtyCount,
    /// `Staged` / `Changes` / `Untracked`.
    GroupTitle,
    /// How many files a group holds.
    GroupCount,
    /// A changed file's repo-relative path.
    Path,
    /// The `← old/path` half of a rename or copy.
    OrigPath,
    /// The file name above the diff.
    DiffTitle,
    /// A repo whose git query failed.
    Error,
    /// A repo whose previous round timed out.
    Stale,
    /// A porcelain status letter.
    Status(char),
}

/// One of the terminal's sixteen named colours, which follow its theme.
#[derive(Debug, Clone, Copy, PartialEq, Eq, Structural)]
pub enum Color {
    Black,
    Red,
    Green,
    Yellow,
    Blue,
    Magenta,
    Cyan,
    Gray,
    DarkGray,
    LightRed,
    LightGreen,
    LightYellow,
    LightBlue,
    LightMagenta,
    LightCyan,
    White,
}

/// The text attributes a style adds.
#[derive(Debug, Clone, Copy, PartialEq, Eq, Structural)]
pub struct Modifier {
    pub bold: bool,
    pub reversed: bool,
    pub underlined: bool,
}

/// How a run of text is drawn: `None` leaves a colour to the terminal.
#[derive(Debug, Clone, Copy, PartialEq, Eq, Structural)]
pub struct Style {
    pub fg: Option<Color>,
    pub bg: Option<Color>,
    pub add_modifier: Modifier,
}

/// No attributes.
pub open spec fn no_modifier() -> Modifier {
    Modifier { bold: false, reversed: false, underlined: false }
}

/// The terminal's own colours, no attributes.
pub open spec fn plain() -> Style {
    Style { fg: None, bg: None, add_modifier: no_modifier() }
}

/// The terminal's own colours, bold.
pub open spec fn bold() -> Style {
    Style { add_modifier: Modifier { bold: true, ..no_modifier() }, ..plain() }
}

/// A foreground colour.
pub open spec fn fg(c: Color) -> Style {
    Style { fg: Some(c), ..plain() }
}

impl Default for Style {
    fn default() -> (s: Style)
        ensures
            s == plain(),
    {
        Style { fg: None, bg: None, add_modifier: Modifier { bold: false, reversed: false, underlined: false } }
    }
}

/// The palette. Green/red/yellow are file-change semantics (aligned with the renderer's `+`
/// and `-`), cyan/magenta are git refs and sync state, dark grey is structure and information
/// that has gone to zero, and the terminal's own foreground is identity.
pub open spec fn style_spec(role: Role) -> Style {
    match role {
        Role::RepoName | Role::DiffTitle | Role::DirtyCount => bold(),
        Role::GroupTitle | Role::Path => plain(),
        Role::RelPath | Role::Kind | Role::Marker | Role::Chrome | Role::GroupCount | Role::OrigPath
        | Role::SyncIdle => fg(Color::DarkGray),
        Role::Branch => fg(Color::Cyan),
        Role::Sync => fg(Color::Magenta),
        Role::Error => Style { add_modifier: Modifier { bold: true, ..no_modifier() }, ..fg(Color::Red) },
        Role::Stale => fg(Color::Yellow),
        Role::Status(code) => status_spec(code),
    }
}

/// One porcelain status letter's colour; an unassigned letter is ordinary text, never hidden.
pub open spec fn status_spec(code: char) -> Style {
    if code == 'A' {
        fg(Color::Green)
    } else if code == 'M' {
        fg(Color::Yellow)
    } else if code == 'D' {
        fg(Color::Red)
    } else if code == 'R' || code == 'C' {
        fg(Color::Cyan)
    } else if code == 'U' {
        Style { add_modifier: Modifier { bold: true, ..no_modifier() }, ..fg(Color::Red) }
    } else if code == '?' {
        fg(Color::DarkGray)
    } else {
        plain()
    }
}

fn colored(c: Color) -> (s: Style)
    ensures
        s == fg(c),
{
    Style { fg: Some(c), bg: None, add_modifier: Modifier { bold: false, reversed: false, underlined: false } }
}

fn emphasized(s: Style) -> (r: Style)
    ensures
        r == (Style { add_modifier: Modifier { bold: true, ..s.add_modifier }, ..s }),
{
    Style { add_modifier: Modifier { bold: true, ..s.add_modifier }, ..s }
}

/// One porcelain status letter's colour.
fn status_style(code: char) -> (s: Style)
    ensures
        s == status_spec(code),
{
    if code == 'A' {
        colored(Color::Green)
    } else if code == 'M' {
        colored(Color::Yellow)
    } else if code == 'D' {
        colored(Color::Red)
    } else if code == 'R' || code == 'C' {
        colored(Color::Cyan)
    } else if code == 'U' {
        emphasized(colored(Color::Red))
    } else if code == '?' {
        colored(Color::DarkGray)
    } else {
        Style::default()
    }
}

/// The palette. It never sets a background and never uses white, so a light-background terminal
/// stays readable.
pub fn style(role: Role) -> (s: Style)
    ensures
        s == style_spec(role),
        s.bg is None,
        s.fg != Some(Color::White),
{
    match role {
        Role::RepoName | Role::DiffTitle | Role::DirtyCount => emphasized(Style::default()),
        Role::GroupTitle | Role::Path => Style::default(),
        Role::RelPath | Role::Kind | Role::Marker | Role::Chrome | Role::GroupCount | Role::OrigPath
        | Role::SyncIdle => colored(Color::DarkGray),
        Role::Branch => colored(Color::Cyan),
        Role::Sync => colored(Color::Magenta),
        Role::Error => emphasized(colored(Color::Red)),
        Role::Stale => colored(Color::Yellow),
        Role::Status(code) => status_style(code),
    }
}

/// The cursor row's style, which is also the tree's only focus cue: reversed when the tree has
/// focus, underlined when not. Neither sets a colour, so the row keeps its own.
pub fn selection(focused: bool) -> (s: Style)
    ensures
        s == (if focused {
            Style { add_modifier: Modifier { reversed: true, ..no_modifier() }, ..plain() }
        } else {
            Style { add_modifier: Modifier { underlined: true, ..no_modifier() }, ..plain() }
        }),
{
    let base = Style::default();
    if focused {
        Style { add_modifier: Modifier { reversed: true, ..base.add_modifier }, ..base }
    } else {
        Style { add_modifier: Modifier { underlined: true, ..base.add_modifier }, ..base }
    }
}

/// A pane's border glyphs: bold when focused, dark grey when not.
pub fn pane_border(focused: bool) -> (s: Style)
    ensures
        s == (if focused {
            bold()
        } else {
            fg(Color::DarkGray)
        }),
{
    if focused {
        emphasized(Style::default())
    } else {
        colored(Color::DarkGray)
    }
}

} // verus!
