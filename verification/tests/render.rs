use herdr_scm::render::{
    compose, human_bytes, is_binary, neutralize, neutralize_plain_text, prepare_patch,
    prepare_untracked_bytes, untracked_read_limit, Caps, DiffRenderer, Mode, NoRenderer, Prepared,
};

fn caps(max_bytes: u64, max_lines: usize) -> Caps {
    Caps {
        max_bytes,
        max_lines,
    }
}

/// What a renderer that prefixes its input with `out` makes of a prepared result's text.
fn styled_by(out: Option<&str>, p: &Prepared) -> Option<String> {
    out.map(|o| format!("{o}{}", p.text()))
}

#[test]
fn the_default_caps_are_the_spec_limits() {
    assert_eq!(Caps::default().max_bytes, 2 * 1024 * 1024);
    assert_eq!(Caps::default().max_lines, 5000);
}

#[test]
fn a_small_patch_is_shown_whole() {
    let p = prepare_patch(b"@@ -1 +1 @@\n-a\n+b\n", Caps::default());
    assert!(matches!(p, Prepared::Full { .. }));
    assert!(p.text().contains("+b"));
}

#[test]
fn a_patch_past_the_line_cap_is_truncated_with_a_visible_notice() {
    let big = "+line\n".repeat(20);
    let p = prepare_patch(big.as_bytes(), caps(1 << 20, 5));
    let Prepared::Truncated { text, notice } = p else {
        panic!("expected truncation");
    };
    assert_eq!(text.lines().count(), 5);
    assert!(notice.contains("5"), "{notice}");
}

#[test]
fn a_patch_past_the_byte_cap_is_truncated_with_a_visible_notice() {
    let big = "+".repeat(5000);
    let p = prepare_patch(big.as_bytes(), caps(100, 100_000));
    let Prepared::Truncated { text, notice } = p else {
        panic!("expected truncation");
    };
    assert!(text.len() <= 100, "{}", text.len());
    assert!(!notice.is_empty());
}

#[test]
fn truncation_never_splits_a_multi_byte_character() {
    let text = "＋".repeat(100);
    let p = prepare_patch(text.as_bytes(), caps(10, 100_000));
    assert!(matches!(p, Prepared::Truncated { .. }));
    assert!(p.text().chars().all(|c| c == '＋'));
}

#[test]
fn an_empty_patch_is_full_and_empty_rather_than_an_error() {
    let p = prepare_patch(b"", Caps::default());
    assert!(matches!(p, Prepared::Full { .. }));
    assert_eq!(p.text(), "");
}

#[test]
fn a_nul_byte_makes_content_binary() {
    assert!(is_binary(b"abc\0def"));
    assert!(!is_binary(b"abc\ndef\t"));
}

#[test]
fn gits_own_binary_marker_is_recognized_even_without_a_nul_byte() {
    let patch = b"diff --git a/x b/x\nBinary files a/x and b/x differ\n";
    assert!(matches!(prepare_patch(patch, Caps::default()), Prepared::Binary));
}

#[test]
fn a_git_binary_patch_body_is_recognized() {
    let patch = b"diff --git a/x b/x\nGIT binary patch\nliteral 12\n";
    assert!(matches!(prepare_patch(patch, Caps::default()), Prepared::Binary));
}

#[test]
fn a_binary_result_is_never_handed_to_the_external_renderer() {
    let (body, notice) = compose(&Prepared::Binary, Some("STYLED".to_string()), "stub");
    assert_eq!(body, "Binary file differs");
    assert!(!body.contains("STYLED"));
    assert_eq!(notice, None);
}

#[test]
fn an_untracked_file_is_rendered_as_a_synthetic_all_additions_patch() {
    let p = prepare_untracked_bytes("new.txt", Some(b"one\ntwo\n"), Caps::default());
    let text = p.text();
    assert!(text.contains("diff --git a/new.txt b/new.txt"), "{text}");
    assert!(text.contains("--- /dev/null"), "{text}");
    assert!(text.contains("+++ b/new.txt"), "{text}");
    assert!(text.contains("@@ -0,0 +1,2 @@"), "{text}");
    assert!(text.contains("+one\n+two"), "{text}");
}

#[test]
fn an_untracked_binary_file_is_not_dumped_into_the_pane() {
    assert!(matches!(
        prepare_untracked_bytes("blob.bin", Some(&[0u8, 1, 2, 3]), Caps::default()),
        Prepared::Binary
    ));
}

#[test]
fn an_untracked_file_past_the_cap_is_truncated() {
    let body = "x\n".repeat(100);
    assert!(matches!(
        prepare_untracked_bytes("big.txt", Some(body.as_bytes()), caps(1 << 20, 10)),
        Prepared::Truncated { .. }
    ));
}

#[test]
fn an_unreadable_untracked_file_yields_a_message_not_a_panic() {
    let p = prepare_untracked_bytes("nope", None, Caps::default());
    assert!(p.text().contains("could not read"), "{}", p.text());
}

#[test]
fn the_read_of_an_untracked_file_is_bounded_by_the_byte_cap() {
    let c = caps(1024, 100_000);
    let file = "y".repeat(200_000);
    let limit = untracked_read_limit(c) as usize;
    assert_eq!(limit, 1025);
    let p = prepare_untracked_bytes("huge.txt", Some(&file.as_bytes()[..limit]), c);
    assert!(p.text().len() < 4096, "{}", p.text().len());
}

#[test]
fn a_cursor_control_sequence_is_stripped_from_styled_output() {
    let out = neutralize_plain_text("a\x1b[2Jb\x1b[Hc");
    assert_eq!(out, "abc");
}

#[test]
fn an_osc_52_clipboard_hijack_is_stripped() {
    assert_eq!(neutralize_plain_text("x\x1b]52;c;ZXZpbA==\x07y"), "xy");
}

#[test]
fn an_osc_terminated_by_string_terminator_is_stripped() {
    assert_eq!(neutralize_plain_text("x\x1b]0;title\x1b\\y"), "xy");
}

#[test]
fn bare_control_bytes_are_dropped() {
    assert_eq!(neutralize_plain_text("a\x07b\x08c"), "abc");
}

#[test]
fn a_truncated_escape_at_the_end_of_input_does_not_panic() {
    for input in ["abc\x1b", "abc\x1b[", "abc\x1b]52;c;", "abc\x1b[38;5;"] {
        assert_eq!(neutralize_plain_text(input), "abc");
        let _ = neutralize(input, Mode::Styled);
    }
}

#[test]
fn unicode_content_survives_neutralization_verbatim() {
    let s = "測試 ← 中文 ✓ emoji 🎉";
    assert_eq!(neutralize_plain_text(s), s);
}

#[test]
fn sgr_styling_survives_into_the_rendered_text_as_styling_not_as_literal_escapes() {
    assert_eq!(
        neutralize("\x1b[31mred\x1b[0m \x1b[2Jplain", Mode::Styled),
        "\x1b[31mred\x1b[0m plain"
    );
    assert_eq!(neutralize_plain_text("\x1b[31mred\x1b[0m plain"), "red plain");
}

#[test]
fn line_structure_is_preserved_when_rendering_styled_content() {
    assert_eq!(neutralize("a\nb\nc", Mode::Styled).lines().count(), 3);
}

#[test]
fn the_external_renderers_output_is_used_when_it_succeeds() {
    let p = Prepared::Full {
        text: "+a\n".to_string(),
    };
    let (body, notice) = compose(&p, styled_by(Some("PRE:"), &p), "stub");
    assert!(body.contains("PRE:"));
    assert_eq!(notice, None);
}

#[test]
fn a_missing_renderer_falls_back_to_plain_text_with_a_notice_not_an_error() {
    let p = Prepared::Full {
        text: "+a\n".to_string(),
    };
    let (body, notice) = compose(&p, styled_by(None, &p), "stub");
    assert!(body.contains("+a"));
    let notice = notice.expect("a fallback notice");
    assert!(notice.contains("stub"), "{notice}");
}

#[test]
fn a_truncation_notice_survives_the_renderer_delegation() {
    let p = Prepared::Truncated {
        text: "+a\n".to_string(),
        notice: "truncated at 5 lines".to_string(),
    };
    let (_, notice) = compose(&p, styled_by(Some(""), &p), "stub");
    assert_eq!(notice.as_deref(), Some("truncated at 5 lines"));
}

#[test]
fn both_a_truncation_and_a_fallback_notice_are_reported_together() {
    let p = Prepared::Truncated {
        text: "+a\n".to_string(),
        notice: "truncated at 5 lines".to_string(),
    };
    let (_, notice) = compose(&p, styled_by(None, &p), "stub");
    let notice = notice.expect("a notice");
    assert!(notice.contains("truncated"), "{notice}");
    assert!(notice.contains("stub"), "{notice}");
    assert_eq!(notice, "truncated at 5 lines; stub is not available — showing plain text");
}

#[test]
fn the_no_renderer_never_styles_anything_and_never_complains() {
    let p = Prepared::Full {
        text: "+a\n".to_string(),
    };
    let r = NoRenderer;
    let (body, notice) = compose(&p, r.render(p.text()), r.name());
    assert!(body.contains("+a"));
    assert_eq!(notice, None, "an explicitly disabled renderer is not a problem");
}

#[test]
fn a_byte_cap_notice_names_the_size_in_human_units() {
    assert_eq!(human_bytes(512), "0 KB");
    assert_eq!(human_bytes(2048), "2 KB");
    assert_eq!(human_bytes(2 * 1024 * 1024), "2 MB");
    assert_eq!(human_bytes(1536 * 1024), "1536 KB");
}

#[test]
fn the_read_limit_saturates_at_the_top_of_u64() {
    assert_eq!(untracked_read_limit(caps(u64::MAX, 1)), u64::MAX);
}

#[test]
fn invalid_utf8_in_a_patch_shows_as_a_replacement_character() {
    let p = prepare_patch(b"+a\xffb\n", Caps::default());
    assert_eq!(p.text(), "+a\u{FFFD}b\n");
}

#[test]
fn neutralizing_plain_text_twice_changes_nothing_more() {
    let once = neutralize_plain_text("a\x1b[2Jb\x1b]0;t\x07c\x07d\te\n");
    assert_eq!(once, "abcd\te\n");
    assert_eq!(neutralize_plain_text(&once), once);
}
