use herdr_scm::model::RepoKind;
use herdr_scm::repo_kind::{classify, parse_gitdir, submodule_paths, DotGit};
use std::collections::BTreeSet;

/// The sorted, de-duplicated set of `paths`.
fn subs(paths: &[&str]) -> Vec<String> {
    let set: BTreeSet<String> = paths.iter().map(|s| s.to_string()).collect();
    set.into_iter().collect()
}

#[test]
fn the_scan_start_itself_is_root_whatever_its_dot_git_looks_like() {
    assert_eq!(
        classify(true, &DotGit::Dir, None, &subs(&[])),
        RepoKind::Root
    );
    assert_eq!(
        classify(
            true,
            &DotGit::File {
                gitdir: "/w/.git/worktrees/wt".to_string()
            },
            Some("wt"),
            &subs(&["wt"])
        ),
        RepoKind::Root
    );
}

#[test]
fn a_dot_git_directory_is_a_nested_clone() {
    assert_eq!(
        classify(false, &DotGit::Dir, Some("pencil"), &subs(&[])),
        RepoKind::Nested
    );
}

#[test]
fn a_dot_git_file_listed_in_gitmodules_is_a_submodule() {
    assert_eq!(
        classify(
            false,
            &DotGit::File {
                gitdir: "../.git/modules/vendorlib".to_string()
            },
            Some("vendorlib"),
            &subs(&["vendorlib"])
        ),
        RepoKind::Submodule
    );
}

#[test]
fn a_dot_git_file_pointing_into_worktrees_is_a_worktree() {
    assert_eq!(
        classify(
            false,
            &DotGit::File {
                gitdir: "/w/root/.git/worktrees/feature-x".to_string()
            },
            Some("feature-x"),
            &subs(&[])
        ),
        RepoKind::Worktree
    );
}

#[test]
fn gitmodules_membership_beats_a_worktree_shaped_gitdir() {
    assert_eq!(
        classify(
            false,
            &DotGit::File {
                gitdir: "/w/.git/worktrees/dup".to_string()
            },
            Some("dup"),
            &subs(&["dup"])
        ),
        RepoKind::Submodule
    );
}

#[test]
fn an_unrecognizable_dot_git_file_falls_back_to_nested() {
    assert_eq!(
        classify(
            false,
            &DotGit::File {
                gitdir: "/somewhere/else".to_string()
            },
            Some("odd"),
            &subs(&[])
        ),
        RepoKind::Nested
    );
}

#[test]
fn a_dot_git_file_with_no_known_relative_path_cannot_be_a_submodule() {
    assert_eq!(
        classify(
            false,
            &DotGit::File {
                gitdir: "../.git/modules/x".to_string()
            },
            None,
            &subs(&["x"])
        ),
        RepoKind::Nested
    );
}

// ---- parse_gitdir --------------------------------------------------------------------

#[test]
fn parse_gitdir_reads_the_pointer_and_trims_whitespace() {
    assert_eq!(
        parse_gitdir("gitdir: /w/.git/worktrees/x\n"),
        Some("/w/.git/worktrees/x".to_string())
    );
    assert_eq!(
        parse_gitdir("gitdir:../.git/modules/lib"),
        Some("../.git/modules/lib".to_string())
    );
}

#[test]
fn parse_gitdir_rejects_anything_that_is_not_a_gitdir_pointer() {
    assert_eq!(parse_gitdir(""), None);
    assert_eq!(parse_gitdir("ref: refs/heads/main\n"), None);
    assert_eq!(parse_gitdir("gitdir:   \n"), None);
}

// ---- submodule_paths -----------------------------------------------------------------

#[test]
fn submodule_paths_collects_every_path_key() {
    let text = "\
[submodule \"lib\"]
\tpath = vendor/lib
\turl = https://example.invalid/lib.git
[submodule \"tools\"]
\tpath = tools
\turl = https://example.invalid/tools.git
";
    assert_eq!(submodule_paths(text), subs(&["vendor/lib", "tools"]));
}

#[test]
fn submodule_paths_ignores_comments_blank_lines_and_other_keys() {
    let text = "; a comment\n\n# another\n\tbranch = main\n\tpath=  spaced  \n";
    assert_eq!(submodule_paths(text), subs(&["spaced"]));
}

#[test]
fn submodule_paths_of_an_absent_or_empty_gitmodules_is_empty() {
    assert!(submodule_paths("").is_empty());
}

#[test]
fn submodule_paths_normalizes_trailing_and_leading_slashes() {
    assert_eq!(
        submodule_paths("path = ./vendor/lib/\n"),
        subs(&["vendor/lib"])
    );
}
