use herdr_scm::launch::{launch_decision, launch_decision_tab, Pane, PANE_LABEL};

fn pane(pane_id: &str, label: Option<&str>, tab: &str, focused: bool) -> Pane {
    Pane {
        pane_id: Some(pane_id.to_string()),
        label: label.map(|l| l.to_string()),
        tab_id: Some(tab.to_string()),
        focused,
    }
}

#[test]
fn with_no_scm_pane_in_this_tab_the_launcher_opens_one() {
    let panes = [pane("wA:p1", None, "wA:t1", true)];
    assert_eq!(launch_decision(Some(&panes)), "OPEN");
}

#[test]
fn an_unfocused_scm_pane_in_this_tab_is_focused() {
    let panes = [
        pane("wA:p1", None, "wA:t1", true),
        pane("wA:p2", Some(PANE_LABEL), "wA:t1", false),
    ];
    assert_eq!(launch_decision(Some(&panes)), "FOCUS wA:p2");
}

#[test]
fn pressing_the_key_while_the_scm_pane_is_focused_closes_it() {
    let panes = [pane("wA:p2", Some(PANE_LABEL), "wA:t1", true)];
    assert_eq!(launch_decision(Some(&panes)), "CLOSE wA:p2");
}

#[test]
fn an_scm_pane_in_another_tab_is_ignored_by_the_split_launcher() {
    let panes = [
        pane("wA:p1", None, "wA:t1", true),
        pane("wA:p9", Some(PANE_LABEL), "wA:t2", false),
    ];
    assert_eq!(launch_decision(Some(&panes)), "OPEN");
}

#[test]
fn with_no_focused_pane_the_launcher_opens_rather_than_acting_on_an_unknown_tab() {
    let panes = [pane("wA:p2", Some(PANE_LABEL), "wA:t1", false)];
    assert_eq!(launch_decision(Some(&panes)), "OPEN");
}

#[test]
fn unparseable_input_degrades_to_open() {
    assert_eq!(launch_decision(None), "OPEN");
    assert_eq!(launch_decision(Some(&[])), "OPEN");
    assert_eq!(launch_decision_tab(None), "OPEN");
}

#[test]
fn a_pane_id_that_could_option_inject_is_never_emitted() {
    let panes = [
        pane("wA:p1", None, "wA:t1", true),
        pane("--force", Some(PANE_LABEL), "wA:t1", false),
    ];
    assert_eq!(launch_decision(Some(&panes)), "OPEN");
}

#[test]
fn an_scm_pane_in_another_tab_of_this_workspace_is_switched_to_not_duplicated() {
    let panes = [
        pane("wA:p1", None, "wA:t1", true),
        pane("wA:p9", Some(PANE_LABEL), "wA:t2", false),
    ];
    assert_eq!(launch_decision_tab(Some(&panes)), "SWITCHTAB wA:t2");
}

#[test]
fn a_pane_in_the_focused_tab_is_preferred_over_one_elsewhere() {
    let panes = [
        pane("wA:p1", None, "wA:t1", true),
        pane("wA:p2", Some(PANE_LABEL), "wA:t1", false),
        pane("wA:p9", Some(PANE_LABEL), "wA:t2", false),
    ];
    assert_eq!(launch_decision_tab(Some(&panes)), "FOCUS wA:p2");
}

#[test]
fn an_scm_pane_in_a_different_workspace_is_left_alone() {
    let panes = [
        pane("wA:p1", None, "wA:t1", true),
        pane("wB:p9", Some(PANE_LABEL), "wB:t1", false),
    ];
    assert_eq!(launch_decision_tab(Some(&panes)), "OPEN");
}

#[test]
fn a_tab_id_that_could_option_inject_is_never_emitted() {
    let panes = [
        pane("-w:p1", None, "-w:t1", true),
        pane("-w:p9", Some(PANE_LABEL), "-w:t2", false),
    ];
    assert_eq!(launch_decision_tab(Some(&panes)), "OPEN");
}

#[test]
fn the_tab_launcher_closes_a_focused_scm_pane_like_the_split_launcher() {
    let panes = [pane("wA:p2", Some(PANE_LABEL), "wA:t1", true)];
    assert_eq!(launch_decision_tab(Some(&panes)), "CLOSE wA:p2");
}
