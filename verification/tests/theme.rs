use herdr_scm::theme::{pane_border, selection, style, Color, Role, Style};

/// Every role the palette answers for.
fn all_roles() -> Vec<Role> {
    vec![
        Role::RepoName,
        Role::RelPath,
        Role::Kind,
        Role::Marker,
        Role::Chrome,
        Role::Branch,
        Role::Sync,
        Role::SyncIdle,
        Role::DirtyCount,
        Role::GroupTitle,
        Role::GroupCount,
        Role::Path,
        Role::OrigPath,
        Role::DiffTitle,
        Role::Error,
        Role::Stale,
        Role::Status('A'),
        Role::Status('M'),
        Role::Status('D'),
        Role::Status('R'),
        Role::Status('C'),
        Role::Status('U'),
        Role::Status('?'),
        Role::Status('T'),
    ]
}

/// The terminal's sixteen named colours.
fn named_colors() -> Vec<Color> {
    vec![
        Color::Black,
        Color::Red,
        Color::Green,
        Color::Yellow,
        Color::Blue,
        Color::Magenta,
        Color::Cyan,
        Color::Gray,
        Color::DarkGray,
        Color::LightRed,
        Color::LightGreen,
        Color::LightYellow,
        Color::LightBlue,
        Color::LightMagenta,
        Color::LightCyan,
        Color::White,
    ]
}

#[test]
fn the_palette_never_uses_white_so_a_light_background_terminal_stays_readable() {
    for role in all_roles() {
        let s = style(role);
        assert_ne!(s.fg, Some(Color::White), "{role:?}");
        assert_ne!(s.bg, Some(Color::White), "{role:?}");
    }
}

#[test]
fn the_palette_is_ansi_only_so_it_follows_the_terminal_theme() {
    for role in all_roles() {
        let s = style(role);
        for color in [s.fg, s.bg].into_iter().flatten() {
            assert!(named_colors().contains(&color), "{role:?} uses {color:?}");
        }
    }
}

#[test]
fn identity_text_leaves_the_foreground_to_the_terminal() {
    for role in [
        Role::RepoName,
        Role::GroupTitle,
        Role::Path,
        Role::DirtyCount,
    ] {
        assert_eq!(style(role).fg, None, "{role:?}");
    }
}

#[test]
fn the_status_letters_follow_deltas_plus_and_minus() {
    assert_eq!(style(Role::Status('A')).fg, Some(Color::Green));
    assert_eq!(style(Role::Status('D')).fg, Some(Color::Red));
    assert_eq!(style(Role::Status('M')).fg, Some(Color::Yellow));
    assert_eq!(style(Role::Status('R')).fg, Some(Color::Cyan));
    assert_eq!(style(Role::Status('C')).fg, Some(Color::Cyan));
    assert_eq!(style(Role::Status('?')).fg, Some(Color::DarkGray));
}

#[test]
fn a_conflict_is_the_loudest_thing_on_the_screen() {
    let s = style(Role::Status('U'));
    assert_eq!(s.fg, Some(Color::Red));
    assert!(s.add_modifier.bold);
}

#[test]
fn an_unknown_status_letter_is_still_visible() {
    assert_eq!(style(Role::Status('T')), Style::default());
}

#[test]
fn a_level_upstream_recedes_while_a_pending_one_stays_lit() {
    assert_eq!(style(Role::Sync).fg, Some(Color::Magenta));
    assert_eq!(style(Role::SyncIdle).fg, Some(Color::DarkGray));
}

#[test]
fn structure_is_dimmer_than_content() {
    for role in [
        Role::Marker,
        Role::Chrome,
        Role::RelPath,
        Role::Kind,
        Role::GroupCount,
        Role::OrigPath,
    ] {
        assert_eq!(style(role).fg, Some(Color::DarkGray), "{role:?}");
    }
}

#[test]
fn a_repo_name_outranks_a_group_title() {
    assert!(style(Role::RepoName).add_modifier.bold);
    assert!(
        !style(Role::GroupTitle)
            .add_modifier
            .bold
    );
}

#[test]
fn the_selection_bar_says_which_pane_has_focus_without_relying_on_a_background_color() {
    let (on, off) = (selection(true), selection(false));
    assert_ne!(on, off);
    assert_eq!(on.bg, None);
    assert_eq!(off.bg, None);
    assert_eq!(on.fg, None, "the row keeps its own semantic colors");
    assert_eq!(off.fg, None);
    assert!(on.add_modifier.reversed);
    assert!(off.add_modifier.underlined);
}

#[test]
fn a_focused_pane_border_is_distinguishable_from_an_unfocused_one() {
    assert_ne!(pane_border(true), pane_border(false));
    assert_eq!(pane_border(false).fg, Some(Color::DarkGray));
}
