use herdr_scm::host::{parse_context, RawContext};

fn fallback() -> String {
    "/proc/cwd".to_string()
}

fn some(s: &str) -> Option<String> {
    Some(s.to_string())
}

#[test]
fn a_full_context_uses_the_focused_pane_cwd_and_keeps_the_workspace_fields() {
    let raw = RawContext {
        workspace_id: some("wA"),
        workspace_cwd: some("/w"),
        focused_pane_cwd: some("/w/sub"),
        cwd: None,
    };
    let ctx = parse_context(raw, fallback());
    assert_eq!(ctx.cwd, "/w/sub");
    assert_eq!(ctx.workspace_cwd, some("/w"));
    assert_eq!(ctx.workspace_id, some("wA"));
}

#[test]
fn without_a_focused_pane_cwd_the_workspace_cwd_is_used() {
    let raw = RawContext {
        workspace_cwd: some("/w"),
        ..RawContext::default()
    };
    let ctx = parse_context(raw, fallback());
    assert_eq!(ctx.cwd, "/w");
    assert_eq!(ctx.workspace_cwd, some("/w"));
}

#[test]
fn a_plain_cwd_field_is_accepted_as_the_last_json_candidate() {
    let raw = RawContext {
        cwd: some("/c"),
        ..RawContext::default()
    };
    let ctx = parse_context(raw, fallback());
    assert_eq!(ctx.cwd, "/c");
    assert_eq!(ctx.workspace_cwd, None);
}

#[test]
fn absent_json_degrades_to_the_process_cwd_with_no_workspace_information() {
    let ctx = parse_context(RawContext::default(), fallback());
    assert_eq!(ctx.cwd, fallback());
    assert_eq!(ctx.workspace_cwd, None);
    assert_eq!(ctx.workspace_id, None);
}

#[test]
fn empty_string_fields_fall_through_instead_of_rooting_at_an_empty_path() {
    let raw = RawContext {
        focused_pane_cwd: some(""),
        workspace_cwd: some(""),
        cwd: some(""),
        workspace_id: some(""),
    };
    let ctx = parse_context(raw, fallback());
    assert_eq!(ctx.cwd, fallback());
    assert_eq!(ctx.workspace_cwd, None);
    assert_eq!(ctx.workspace_id, None);
}

