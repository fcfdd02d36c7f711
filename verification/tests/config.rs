use herdr_scm::config::{
    config_path, config_path_from, resolve, resolve_with, KeySpec, RawConfig, Settings,
    MAX_POLL_INTERVAL_SECS, MAX_SCAN_DEPTH, MAX_SPLIT_THRESHOLD_COLS, MIN_SCAN_DEPTH,
    MIN_SPLIT_THRESHOLD_COLS,
};

fn no_env(_: &str) -> Option<String> {
    None
}

fn resolved(raw: RawConfig) -> Settings {
    resolve(raw, &no_env)
}

fn key<'a>(s: &'a Settings, name: &str) -> Option<&'a KeySpec> {
    s.keys.iter().find(|(n, _)| n == name).map(|(_, k)| k)
}

#[test]
fn an_empty_config_yields_every_documented_default() {
    let s = resolved(RawConfig::default());
    assert_eq!(s.poll_interval_secs, 3);
    assert_eq!(s.rescan_every, 10);
    assert_eq!(s.scan_depth, 4);
    assert_eq!(
        s.scan_excludes,
        vec!["node_modules", "target", "vendor", ".venv", "dist"]
    );
    assert_eq!(s.diff_tool, "delta");
    assert_eq!(s.split_threshold_cols, 120);
    assert!(s.keys.is_empty());
}

#[test]
fn the_spec_example_config_parses_to_its_stated_values() {
    let s = resolved(RawConfig {
        poll_interval_secs: Some(3),
        rescan_every: Some(10),
        scan_depth: Some(4),
        scan_excludes: Some(vec![
            "node_modules".to_string(),
            "target".to_string(),
            "vendor".to_string(),
            ".venv".to_string(),
            "dist".to_string(),
        ]),
        diff_tool: Some("delta".to_string()),
        split_threshold_cols: Some(120),
        keys: vec![("refresh".to_string(), KeySpec::One("r".to_string()))],
    });
    assert_eq!(s.poll_interval_secs, 3);
    assert_eq!(key(&s, "refresh"), Some(&KeySpec::One("r".to_string())));
}

#[test]
fn poll_interval_zero_is_kept_because_it_means_polling_off() {
    let s = resolved(RawConfig {
        poll_interval_secs: Some(0),
        ..RawConfig::default()
    });
    assert_eq!(s.poll_interval_secs, 0);
}

#[test]
fn an_absurd_poll_interval_clamps_down() {
    let s = resolved(RawConfig {
        poll_interval_secs: Some(100000),
        ..RawConfig::default()
    });
    assert_eq!(s.poll_interval_secs, MAX_POLL_INTERVAL_SECS);
}

#[test]
fn rescan_every_zero_clamps_up_to_one_so_the_modulo_is_never_by_zero() {
    let s = resolved(RawConfig {
        rescan_every: Some(0),
        ..RawConfig::default()
    });
    assert_eq!(s.rescan_every, 1);
}

#[test]
fn scan_depth_clamps_into_range() {
    let lo = resolved(RawConfig {
        scan_depth: Some(0),
        ..RawConfig::default()
    });
    let hi = resolved(RawConfig {
        scan_depth: Some(9999),
        ..RawConfig::default()
    });
    assert_eq!(lo.scan_depth, MIN_SCAN_DEPTH);
    assert_eq!(hi.scan_depth, MAX_SCAN_DEPTH);
}

#[test]
fn split_threshold_clamps_into_range() {
    let lo = resolved(RawConfig {
        split_threshold_cols: Some(3),
        ..RawConfig::default()
    });
    let hi = resolved(RawConfig {
        split_threshold_cols: Some(5000),
        ..RawConfig::default()
    });
    assert_eq!(lo.split_threshold_cols, MIN_SPLIT_THRESHOLD_COLS);
    assert_eq!(hi.split_threshold_cols, MAX_SPLIT_THRESHOLD_COLS);
}

#[test]
fn an_explicitly_empty_excludes_list_is_honored_not_replaced_by_the_defaults() {
    let s = resolved(RawConfig {
        scan_excludes: Some(vec![]),
        ..RawConfig::default()
    });
    assert!(s.scan_excludes.is_empty());
}

#[test]
fn blank_exclude_entries_are_dropped() {
    let s = resolved(RawConfig {
        scan_excludes: Some(vec!["target".to_string(), "".to_string(), "  ".to_string()]),
        ..RawConfig::default()
    });
    assert_eq!(s.scan_excludes, vec!["target"]);
}

#[test]
fn an_empty_diff_tool_means_plain_text_and_is_preserved() {
    let s = resolved(RawConfig {
        diff_tool: Some(String::new()),
        ..RawConfig::default()
    });
    assert_eq!(s.diff_tool, "");
}

#[test]
fn the_env_diff_tool_beats_the_default_but_loses_to_the_config_file() {
    let env = |k: &str| {
        if k == "HERDR_SCM_DIFF_TOOL" {
            Some("bat".to_string())
        } else {
            None
        }
    };
    assert_eq!(resolve(RawConfig::default(), &env).diff_tool, "bat");
    let file = RawConfig {
        diff_tool: Some("riff".to_string()),
        ..RawConfig::default()
    };
    assert_eq!(resolve(file, &env).diff_tool, "riff");
}

#[test]
fn an_env_diff_tool_set_to_empty_still_beats_the_default() {
    let env = |k: &str| {
        if k == "HERDR_SCM_DIFF_TOOL" {
            Some(String::new())
        } else {
            None
        }
    };
    assert_eq!(resolve(RawConfig::default(), &env).diff_tool, "");
}

#[test]
fn the_plugin_config_dir_wins_outright() {
    let env = |k: &str| {
        if k == "HERDR_PLUGIN_CONFIG_DIR" {
            Some("/x/cfg".to_string())
        } else {
            None
        }
    };
    assert_eq!(config_path(&env), Some("/x/cfg/config.toml".to_string()));
}

#[test]
fn xdg_config_home_is_the_first_fallback_and_is_namespaced_by_the_plugin_id() {
    let env = |k: &str| {
        if k == "XDG_CONFIG_HOME" {
            Some("/x/xdg".to_string())
        } else {
            None
        }
    };
    assert_eq!(
        config_path(&env),
        Some("/x/xdg/herdr-scm/config.toml".to_string())
    );
}

#[test]
fn home_dot_config_is_the_second_fallback() {
    let env = |k: &str| {
        if k == "HOME" {
            Some("/home/u".to_string())
        } else {
            None
        }
    };
    assert_eq!(
        config_path(&env),
        Some("/home/u/.config/herdr-scm/config.toml".to_string())
    );
}

#[test]
fn an_empty_env_value_falls_through_to_the_next_candidate() {
    let env = |k: &str| match k {
        "HERDR_PLUGIN_CONFIG_DIR" => Some(String::new()),
        "HOME" => Some("/home/u".to_string()),
        _ => None,
    };
    assert_eq!(
        config_path(&env),
        Some("/home/u/.config/herdr-scm/config.toml".to_string())
    );
}

#[test]
fn with_no_resolvable_base_there_is_no_config_path_at_all() {
    assert_eq!(config_path(&no_env), None);
}

#[test]
fn a_relative_config_dir_is_rejected() {
    let env = |k: &str| {
        if k == "HERDR_PLUGIN_CONFIG_DIR" {
            Some("cfg".to_string())
        } else {
            None
        }
    };
    assert_eq!(config_path(&env), None);
}

#[test]
fn a_keys_entry_accepts_both_a_bare_string_and_an_array() {
    let s = resolved(RawConfig {
        keys: vec![
            (
                "nav_up".to_string(),
                KeySpec::Many(vec!["w".to_string(), "Up".to_string()]),
            ),
            ("refresh".to_string(), KeySpec::One("g".to_string())),
        ],
        ..RawConfig::default()
    });
    assert_eq!(key(&s, "refresh"), Some(&KeySpec::One("g".to_string())));
    assert_eq!(
        key(&s, "nav_up"),
        Some(&KeySpec::Many(vec!["w".to_string(), "Up".to_string()]))
    );
}

#[test]
fn config_path_from_takes_the_values_in_precedence_order() {
    assert_eq!(
        config_path_from(Some("/a".to_string()), Some("/b".to_string()), Some("/c".to_string())),
        Some("/a/config.toml".to_string())
    );
    assert_eq!(
        config_path_from(None, Some("/b".to_string()), Some("/c".to_string())),
        Some("/b/herdr-scm/config.toml".to_string())
    );
    assert_eq!(
        config_path_from(Some(String::new()), Some(String::new()), Some("rel".to_string())),
        None
    );
}

#[test]
fn resolve_with_an_env_value_applies_it_only_without_a_configured_tool() {
    assert_eq!(resolve_with(RawConfig::default(), Some("bat".to_string())).diff_tool, "bat");
    assert_eq!(resolve_with(RawConfig::default(), None).diff_tool, "delta");
}

#[test]
fn every_resolved_value_lands_in_range() {
    let s = resolved(RawConfig {
        poll_interval_secs: Some(u64::MAX),
        rescan_every: Some(u32::MAX),
        scan_depth: Some(usize::MAX),
        split_threshold_cols: Some(u16::MAX),
        ..RawConfig::default()
    });
    assert_eq!(s.poll_interval_secs, MAX_POLL_INTERVAL_SECS);
    assert!(s.rescan_every >= 1);
    assert_eq!(s.scan_depth, MAX_SCAN_DEPTH);
    assert_eq!(s.split_threshold_cols, MAX_SPLIT_THRESHOLD_COLS);
}
