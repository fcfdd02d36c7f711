use herdr_scm::herdr::{is_flag_safe, pane_cwds, pane_list_args, zoom_args, PaneRecord};

fn pane(cwd: &str, ws: &str, focused: bool) -> PaneRecord {
    PaneRecord {
        cwd: Some(cwd.to_string()),
        foreground_cwd: Some(cwd.to_string()),
        workspace_id: Some(ws.to_string()),
        focused,
    }
}

#[test]
fn flag_safety_rejects_leading_dashes_and_whitespace() {
    assert!(is_flag_safe("wA"));
    assert!(is_flag_safe("wA:p1"));
    assert!(!is_flag_safe(""));
    assert!(!is_flag_safe("-x"));
    assert!(!is_flag_safe("--workspace"));
    assert!(!is_flag_safe("a b"));
    assert!(!is_flag_safe("a\nb"));
}

#[test]
fn pane_cwds_keeps_only_the_panes_of_the_named_workspace() {
    let panes = [pane("/w/a", "wA", true), pane("/w/b", "wB", false), pane("/w/a/sub", "wA", false)];
    assert_eq!(pane_cwds(Some(&panes), Some("wA")), vec!["/w/a", "/w/a/sub"]);
}

#[test]
fn pane_cwds_deduplicates_while_preserving_first_seen_order() {
    let panes = [pane("/w/a", "wA", true), pane("/w/a", "wA", false), pane("/w/z", "wA", false)];
    assert_eq!(pane_cwds(Some(&panes), Some("wA")), vec!["/w/a", "/w/z"]);
}

#[test]
fn without_a_known_workspace_id_the_focused_panes_workspace_is_used() {
    let panes = [pane("/w/b", "wB", false), pane("/w/a", "wA", true)];
    assert_eq!(pane_cwds(Some(&panes), None), vec!["/w/a"]);
}

#[test]
fn with_neither_a_workspace_id_nor_a_focused_pane_nothing_is_returned() {
    let panes = [pane("/w/b", "wB", false)];
    assert!(pane_cwds(Some(&panes), None).is_empty());
}

#[test]
fn relative_and_empty_pane_cwds_are_dropped() {
    let panes = [pane("", "wA", true), pane("relative/dir", "wA", false), pane("/w/ok", "wA", false)];
    assert_eq!(pane_cwds(Some(&panes), Some("wA")), vec!["/w/ok"]);
}

#[test]
fn unparseable_pane_list_output_yields_no_cwds_rather_than_an_error() {
    assert!(pane_cwds(None, Some("wA")).is_empty());
    assert!(pane_cwds(Some(&[]), Some("wA")).is_empty());
}

#[test]
fn panes_in_workspace_scopes_the_query_server_side_when_the_id_is_flag_safe() {
    assert_eq!(pane_list_args(Some("wA")), vec!["pane", "list", "--workspace", "wA"]);
}

#[test]
fn a_workspace_id_that_could_option_inject_is_never_passed_as_a_flag_value() {
    assert_eq!(pane_list_args(Some("--exec=rm")), vec!["pane", "list"]);
    assert_eq!(pane_list_args(None), vec!["pane", "list"]);
}

#[test]
fn zoom_current_toggles_this_pane_and_ignores_failure() {
    assert_eq!(zoom_args(), vec!["pane", "zoom", "--current", "--toggle"]);
}

#[test]
fn a_pane_reporting_only_a_foreground_cwd_is_still_scanned() {
    let p = PaneRecord {
        cwd: None,
        foreground_cwd: Some("/w/fg".to_string()),
        workspace_id: Some("wA".to_string()),
        focused: false,
    };
    assert_eq!(pane_cwds(Some(&[p]), Some("wA")), vec!["/w/fg"]);
}

#[test]
fn two_spellings_of_one_directory_are_one_scan_start() {
    let panes = [pane("/w/a", "wA", true), pane("/w/a/", "wA", false), pane("/w//a", "wA", false)];
    assert_eq!(pane_cwds(Some(&panes), Some("wA")), vec!["/w/a"]);
}

#[test]
fn the_herdr_binary_comes_from_the_env_var_when_set() {
    assert_eq!(herdr_scm::herdr::resolve_program(Some("/opt/herdr".to_string())), "/opt/herdr");
}

#[test]
fn an_absent_or_empty_env_var_falls_back_to_the_name_on_path() {
    assert_eq!(herdr_scm::herdr::resolve_program(None), "herdr");
    assert_eq!(herdr_scm::herdr::resolve_program(Some(String::new())), "herdr");
}
