use herdr_scm::app::{base64_encode, build_renderer, classify, editor_argv, osc52_sequence, Dispatch};
use herdr_scm::config::Settings;

#[test]
fn base64_matches_rfc4648_including_padding() {
    assert_eq!(base64_encode(b""), "");
    assert_eq!(base64_encode(b"f"), "Zg==");
    assert_eq!(base64_encode(b"fo"), "Zm8=");
    assert_eq!(base64_encode(b"foo"), "Zm9v");
    assert_eq!(base64_encode(b"foob"), "Zm9vYg==");
    assert_eq!(base64_encode(b"fooba"), "Zm9vYmE=");
    assert_eq!(base64_encode(b"foobar"), "Zm9vYmFy");
    assert_eq!(base64_encode(b"a:src/app.rs"), "YTpzcmMvYXBwLnJz");
}

#[test]
fn the_clipboard_sequence_is_osc_52_with_a_base64_payload() {
    assert_eq!(osc52_sequence("foo"), "\x1b]52;c;Zm9v\x07");
}

#[test]
fn a_hostile_payload_cannot_break_out_of_the_clipboard_sequence() {
    let seq = osc52_sequence("evil\x1b]52;c;x\x07name");
    assert_eq!(seq.matches('\x1b').count(), 1, "{seq:?}");
    assert_eq!(seq.matches('\x07').count(), 1, "{seq:?}");
}

#[test]
fn the_editor_argv_uses_the_configured_editor() {
    assert_eq!(
        editor_argv(Some("nvim".to_string()), "/w/a.rs"),
        vec!["nvim".to_string(), "/w/a.rs".to_string()]
    );
}

#[test]
fn an_editor_with_arguments_is_split_into_program_and_arguments() {
    assert_eq!(
        editor_argv(Some("code --wait".to_string()), "/w/a.rs"),
        vec!["code".to_string(), "--wait".to_string(), "/w/a.rs".to_string()]
    );
}

#[test]
fn with_no_editor_configured_vi_is_the_fallback() {
    assert_eq!(editor_argv(None, "/w/a.rs")[0], "vi");
}

#[test]
fn an_empty_or_whitespace_editor_setting_falls_back_rather_than_spawning_nothing() {
    assert_eq!(editor_argv(Some("   ".to_string()), "/w/a.rs")[0], "vi");
}

#[test]
fn the_version_flag_is_recognized() {
    assert_eq!(
        classify(&["herdr-scm".to_string(), "--version".to_string()]),
        Dispatch::Version
    );
}

#[test]
fn an_unrecognized_invocation_now_dispatches_to_the_tui_instead_of_erroring() {
    assert_eq!(classify(&["herdr-scm".to_string()]), Dispatch::Tui);
}

#[test]
fn the_launch_decision_flags_are_recognized() {
    assert_eq!(
        classify(&["herdr-scm".to_string(), "--launch-decision".to_string()]),
        Dispatch::LaunchDecision
    );
    assert_eq!(
        classify(&["herdr-scm".to_string(), "--launch-decision-tab".to_string()]),
        Dispatch::LaunchDecisionTab
    );
    assert_eq!(
        classify(&["herdr-scm".to_string(), "--other".to_string()]),
        Dispatch::Tui
    );
}

#[test]
fn base64_output_is_only_alphabet_and_padding() {
    let all: Vec<u8> = (0u8..=255).collect();
    let enc = base64_encode(&all);
    assert_eq!(enc.len(), 344);
    assert!(enc
        .chars()
        .all(|c| c.is_ascii_alphanumeric() || c == '+' || c == '/' || c == '='));
    assert!(enc.ends_with("+/w=="));
}

#[test]
fn a_blank_diff_tool_means_plain_text() {
    let mut s = Settings::default();
    s.diff_tool = "  ".to_string();
    assert_eq!(build_renderer(&s), None);
    s.diff_tool = "delta".to_string();
    assert_eq!(build_renderer(&s), Some("delta".to_string()));
}
