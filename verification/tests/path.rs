use herdr_scm::path::normalize;

#[test]
fn a_canonical_path_is_spelled_as_it_is() {
    assert_eq!(normalize("/w/a"), "/w/a");
    assert_eq!(normalize("a/b"), "a/b");
}

#[test]
fn repeated_and_trailing_separators_and_dot_pieces_are_dropped() {
    assert_eq!(normalize("/w//a/./b/"), "/w/a/b");
    assert_eq!(normalize("/"), "/");
    assert_eq!(normalize(""), "");
}

#[test]
fn parent_pieces_are_kept_as_written() {
    assert_eq!(normalize("/w/../a"), "/w/../a");
}
