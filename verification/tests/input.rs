use herdr_scm::config::KeySpec;
use herdr_scm::input::{
    decode, default_bindings, key_label, parse_key_spec, registry, resolve_bindings, KeyCode,
    KeyEvent, KeyEventKind, MOD_ALT, MOD_CONTROL, MOD_NONE, MOD_SHIFT,
};
use herdr_scm::intent::Intent;
use std::collections::BTreeMap;

fn key(code: KeyCode) -> KeyEvent {
    KeyEvent::new(code, MOD_NONE)
}

fn ch(c: char) -> KeyEvent {
    key(KeyCode::Char(c))
}

/// A `[keys]` table, ordered by name as the config file's table is.
fn cfg(entries: &[(&str, KeySpec)]) -> Vec<(String, KeySpec)> {
    let map: BTreeMap<String, KeySpec> = entries
        .iter()
        .map(|(k, v)| (k.to_string(), v.clone()))
        .collect();
    map.into_iter().collect()
}

#[test]
fn every_intent_appears_exactly_once_in_the_registry() {
    let rows = registry();
    let mut names: Vec<&str> = rows.iter().map(|r| r.name).collect();
    names.sort_unstable();
    let count = names.len();
    names.dedup();
    assert_eq!(names.len(), count, "duplicate registry names");
    let mut intents: Vec<Intent> = rows.iter().map(|r| r.intent).collect();
    intents.sort();
    intents.dedup();
    assert_eq!(intents.len(), rows.len(), "duplicate registry intents");
    assert_eq!(rows.len(), 14);
}

#[test]
fn every_registry_default_key_parses_and_every_row_has_one() {
    for row in registry() {
        assert!(!row.default_keys.is_empty(), "{} has no default key", row.name);
        assert!(!row.description.is_empty(), "{} has no description", row.name);
        for spec in row.default_keys {
            assert!(parse_key_spec(spec).is_some(), "{}: unparseable default key {spec:?}", row.name);
        }
    }
}

#[test]
fn no_two_registry_rows_claim_the_same_default_key() {
    let mut seen: BTreeMap<String, &str> = BTreeMap::new();
    for row in registry() {
        for spec in row.default_keys {
            if let Some(previous) = seen.insert((*spec).to_string(), row.name) {
                panic!("{spec:?} is claimed by both {previous} and {}", row.name);
            }
        }
    }
}

#[test]
fn the_default_bindings_are_exactly_the_spec_key_table() {
    let b = default_bindings();
    let expect = [
        (KeyCode::Char('j'), Intent::NavDown),
        (KeyCode::Down, Intent::NavDown),
        (KeyCode::Char('k'), Intent::NavUp),
        (KeyCode::Up, Intent::NavUp),
        (KeyCode::Enter, Intent::Activate),
        (KeyCode::Char(' '), Intent::Activate),
        (KeyCode::Tab, Intent::FocusToggle),
        (KeyCode::Char(']'), Intent::NextChange),
        (KeyCode::Char('['), Intent::PrevChange),
        (KeyCode::Char('r'), Intent::Refresh),
        (KeyCode::Char('a'), Intent::ToggleAll),
        (KeyCode::Char('Z'), Intent::Zoom),
        (KeyCode::Char('y'), Intent::CopyPath),
        (KeyCode::Char('e'), Intent::OpenEditor),
        (KeyCode::Char('?'), Intent::Help),
        (KeyCode::Esc, Intent::Close),
        (KeyCode::Char('q'), Intent::Quit),
    ];
    for (code, intent) in expect {
        assert_eq!(b.intent_for(code), Some(intent), "{code:?}");
    }
}

#[test]
fn an_unbound_key_decodes_to_nothing() {
    assert_eq!(decode(ch('§'), &default_bindings()), None);
}

#[test]
fn a_control_chord_never_fires_an_intent() {
    let ev = KeyEvent::new(KeyCode::Char('q'), MOD_CONTROL);
    assert_eq!(decode(ev, &default_bindings()), None);
}

#[test]
fn an_alt_chord_never_fires_an_intent() {
    let ev = KeyEvent::new(KeyCode::Char('j'), MOD_ALT);
    assert_eq!(decode(ev, &default_bindings()), None);
}

#[test]
fn shift_is_allowed_on_a_character_because_that_is_how_an_uppercase_key_arrives() {
    let ev = KeyEvent::new(KeyCode::Char('Z'), MOD_SHIFT);
    assert_eq!(decode(ev, &default_bindings()), Some(Intent::Zoom));
}

#[test]
fn a_key_release_event_is_ignored_so_an_action_never_fires_twice() {
    let mut ev = ch('q');
    ev.kind = KeyEventKind::Release;
    assert_eq!(decode(ev, &default_bindings()), None);
}

#[test]
fn a_single_character_spec_is_case_sensitive() {
    assert_eq!(parse_key_spec("z"), Some(KeyCode::Char('z')));
    assert_eq!(parse_key_spec("Z"), Some(KeyCode::Char('Z')));
    assert_eq!(parse_key_spec("]"), Some(KeyCode::Char(']')));
}

#[test]
fn named_keys_are_case_insensitive() {
    for (spec, code) in [
        ("Up", KeyCode::Up),
        ("down", KeyCode::Down),
        ("ENTER", KeyCode::Enter),
        ("Space", KeyCode::Char(' ')),
        ("tab", KeyCode::Tab),
        ("Esc", KeyCode::Esc),
        ("Home", KeyCode::Home),
        ("PageDown", KeyCode::PageDown),
        ("f5", KeyCode::F(5)),
    ] {
        assert_eq!(parse_key_spec(spec), Some(code), "{spec}");
    }
}

#[test]
fn an_unparseable_spec_yields_nothing_rather_than_a_wrong_key() {
    for spec in ["", "  ", "ctrl+a", "NotAKey", "F0", "F13", "up arrow"] {
        assert_eq!(parse_key_spec(spec), None, "{spec}");
    }
}

#[test]
fn a_config_entry_replaces_that_intents_default_keys_rather_than_adding_to_them() {
    let b = resolve_bindings(&cfg(&[("refresh", KeySpec::One("g".to_string()))]));
    assert_eq!(b.intent_for(KeyCode::Char('g')), Some(Intent::Refresh));
    assert_eq!(b.intent_for(KeyCode::Char('r')), None);
    assert!(b.is_customized(Intent::Refresh));
}

#[test]
fn an_array_of_keys_binds_all_of_them() {
    let b = resolve_bindings(&cfg(&[(
        "nav_up",
        KeySpec::Many(vec!["w".to_string(), "Up".to_string()]),
    )]));
    assert_eq!(b.intent_for(KeyCode::Char('w')), Some(Intent::NavUp));
    assert_eq!(b.intent_for(KeyCode::Up), Some(Intent::NavUp));
    assert_eq!(b.intent_for(KeyCode::Char('k')), None);
}

#[test]
fn a_custom_binding_displaces_the_default_that_held_that_key() {
    let b = resolve_bindings(&cfg(&[("refresh", KeySpec::One("q".to_string()))]));
    assert_eq!(b.intent_for(KeyCode::Char('q')), Some(Intent::Refresh));
    assert!(b.keys_for(Intent::Quit).is_empty());
}

#[test]
fn an_unknown_intent_name_in_the_config_is_ignored() {
    let b = resolve_bindings(&cfg(&[("not_an_intent", KeySpec::One("x".to_string()))]));
    assert_eq!(b.intent_for(KeyCode::Char('x')), None);
    assert_eq!(b.intent_for(KeyCode::Char('r')), Some(Intent::Refresh));
}

#[test]
fn an_entry_whose_keys_are_all_unparseable_keeps_the_default() {
    let b = resolve_bindings(&cfg(&[("refresh", KeySpec::One("ctrl+r".to_string()))]));
    assert_eq!(b.intent_for(KeyCode::Char('r')), Some(Intent::Refresh));
    assert!(!b.is_customized(Intent::Refresh));
}

#[test]
fn an_empty_key_array_keeps_the_default() {
    let b = resolve_bindings(&cfg(&[("refresh", KeySpec::Many(vec![]))]));
    assert_eq!(b.intent_for(KeyCode::Char('r')), Some(Intent::Refresh));
}

#[test]
fn escape_always_closes_an_overlay_even_if_the_config_rebinds_it() {
    let b = resolve_bindings(&cfg(&[("quit", KeySpec::One("Esc".to_string()))]));
    assert_eq!(b.intent_for(KeyCode::Esc), Some(Intent::Close));
}

#[test]
fn an_empty_config_resolves_to_exactly_the_defaults() {
    let default = default_bindings();
    let resolved = resolve_bindings(&Vec::new());
    for row in registry() {
        assert_eq!(resolved.keys_for(row.intent), default.keys_for(row.intent), "{}", row.name);
        assert!(!resolved.is_customized(row.intent), "{}", row.name);
    }
}

#[test]
fn keys_for_returns_a_deterministic_order_so_the_help_overlay_is_stable() {
    let b = default_bindings();
    assert_eq!(b.keys_for(Intent::NavDown), b.keys_for(Intent::NavDown));
    let labels: Vec<String> = b.keys_for(Intent::NavDown).into_iter().map(key_label).collect();
    let mut sorted = labels.clone();
    sorted.sort();
    assert_eq!(labels, sorted);
}

#[test]
fn key_labels_are_human_readable() {
    assert_eq!(key_label(KeyCode::Char(' ')), "Space");
    assert_eq!(key_label(KeyCode::Char('j')), "j");
    assert_eq!(key_label(KeyCode::Up), "Up");
    assert_eq!(key_label(KeyCode::F(5)), "F5");
}

#[test]
fn a_repeat_event_still_fires_so_a_held_key_keeps_moving() {
    let mut ev = ch('j');
    ev.kind = KeyEventKind::Repeat;
    assert_eq!(decode(ev, &default_bindings()), Some(Intent::NavDown));
}
