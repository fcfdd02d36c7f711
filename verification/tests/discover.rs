use herdr_scm::config::default_scan_excludes;
use herdr_scm::discover::{scan, scan_candidates, scan_roots, scan_roots_with, sort_entries, DirEntryInfo, Fs, IgnoreOracle, ScanConfig, TopLevelResolver};
use herdr_scm::model::RepoKind;
use herdr_scm::repo_kind::DotGit;
use std::collections::BTreeMap;
use std::path::Path;

#[derive(Default)]
struct MemFs {
    dirs: BTreeMap<String, Vec<DirEntryInfo>>,
    repos: BTreeMap<String, DotGit>,
    files: BTreeMap<String, String>,
    unreadable: Vec<String>,
}

impl MemFs {
    fn dir(mut self, path: &str) -> Self {
        let mut current = Path::new(path).to_path_buf();
        while let Some(parent) = current.parent().map(Path::to_path_buf) {
            let name = match current.file_name().and_then(|n| n.to_str()) {
                Some(n) => n.to_string(),
                None => break,
            };
            let children = self
                .dirs
                .entry(parent.to_string_lossy().into_owned())
                .or_default();
            if !children.iter().any(|c| c.name == name) {
                children.push(DirEntryInfo {
                    name,
                    is_dir: true,
                    is_symlink: false,
                });
            }
            current = parent;
        }
        self.dirs.entry(path.to_string()).or_default();
        self
    }

    fn repo(mut self, path: &str) -> Self {
        self = self.dir(path);
        self.repos.insert(path.to_string(), DotGit::Dir);
        self
    }

    fn repo_file(mut self, path: &str, gitdir: &str) -> Self {
        self = self.dir(path);
        self.repos.insert(
            path.to_string(),
            DotGit::File {
                gitdir: gitdir.to_string(),
            },
        );
        self
    }

    fn file(mut self, path: &str, contents: &str) -> Self {
        self.files.insert(path.to_string(), contents.to_string());
        self
    }

    fn symlink(mut self, parent: &str, name: &str) -> Self {
        self.dirs
            .entry(parent.to_string())
            .or_default()
            .push(DirEntryInfo {
                name: name.to_string(),
                is_dir: true,
                is_symlink: true,
            });
        self
    }

    fn unreadable(mut self, path: &str) -> Self {
        self.unreadable.push(path.to_string());
        self
    }
}

impl Fs for MemFs {
    fn read_dir(&self, dir: &str) -> std::io::Result<Vec<DirEntryInfo>> {
        if self.unreadable.iter().any(|p| p == dir) {
            return Err(std::io::Error::other("permission denied"));
        }
        Ok(self.dirs.get(dir).cloned().unwrap_or_default())
    }

    fn dot_git(&self, dir: &str) -> Option<DotGit> {
        self.repos.get(dir).cloned()
    }

    fn read_to_string(&self, path: &str) -> std::io::Result<String> {
        self.files
            .get(path)
            .cloned()
            .ok_or_else(|| std::io::Error::other("no such file"))
    }
}

struct MemIgnore(Vec<String>);

impl MemIgnore {
    fn of(paths: &[&str]) -> Self {
        MemIgnore(paths.iter().map(|p| p.to_string()).collect())
    }

    fn none() -> Self {
        MemIgnore(Vec::new())
    }
}

impl IgnoreOracle for MemIgnore {
    fn is_ignored_dir(&self, _enclosing_repo: Option<&str>, dir: &str) -> bool {
        self.0.iter().any(|p| p == dir)
    }
}

fn cfg(depth: usize) -> ScanConfig {
    ScanConfig {
        depth,
        excludes: default_scan_excludes(),
    }
}

fn strings(v: &[&str]) -> Vec<String> {
    v.iter().map(|s| s.to_string()).collect()
}

fn found(roots: &[&str], cfg: &ScanConfig, fs: &MemFs, ig: &MemIgnore) -> Vec<String> {
    scan(&strings(roots), cfg, fs, ig)
        .into_iter()
        .map(|r| r.path)
        .collect()
}

#[test]
fn a_repo_inside_a_gitignored_directory_is_found() {
    let fs = MemFs::default().repo("/w/root").repo("/w/root/pencil");
    let ig = MemIgnore::of(&["/w/root/pencil"]);
    assert_eq!(
        found(&["/w/root"], &cfg(4), &fs, &ig),
        vec!["/w/root", "/w/root/pencil"]
    );
}

#[test]
fn all_five_ignored_sibling_repos_are_found_not_just_the_first() {
    let fs = MemFs::default()
        .repo("/w/root")
        .repo("/w/root/tenant-platform")
        .repo("/w/root/teleagent-platform")
        .repo("/w/root/pencil")
        .repo("/w/root/tenant-web")
        .repo("/w/root/tenant-worker");
    let ig = MemIgnore::of(&[
        "/w/root/tenant-platform",
        "/w/root/teleagent-platform",
        "/w/root/pencil",
        "/w/root/tenant-web",
        "/w/root/tenant-worker",
    ]);
    assert_eq!(found(&["/w/root"], &cfg(4), &fs, &ig).len(), 6);
}

#[test]
fn a_repo_nested_inside_an_ignored_repo_is_not_drilled_into() {
    let fs = MemFs::default()
        .repo("/w/root")
        .repo("/w/root/pencil")
        .repo("/w/root/pencil/deep/inner");
    let ig = MemIgnore::of(&["/w/root/pencil"]);
    assert_eq!(
        found(&["/w/root"], &cfg(6), &fs, &ig),
        vec!["/w/root", "/w/root/pencil"]
    );
}

#[test]
fn a_repo_reached_through_an_ignored_directory_that_is_not_itself_a_repo_is_found() {
    let fs = MemFs::default()
        .repo("/w/root")
        .dir("/w/root/build")
        .repo("/w/root/build/app");
    let ig = MemIgnore::of(&["/w/root/build"]);
    assert_eq!(
        found(&["/w/root"], &cfg(4), &fs, &ig),
        vec!["/w/root", "/w/root/build/app"]
    );
}

#[test]
fn a_repo_under_a_hard_excluded_directory_is_never_found() {
    let fs = MemFs::default()
        .repo("/w/root")
        .repo("/w/root/node_modules/pkg")
        .repo("/w/root/target/vendored");
    assert_eq!(
        found(&["/w/root"], &cfg(6), &fs, &MemIgnore::none()),
        vec!["/w/root"]
    );
}

#[test]
fn the_hard_exclude_list_is_configurable_and_replaces_the_defaults() {
    let fs = MemFs::default().repo("/w/root").repo("/w/root/skipme");
    let cfg = ScanConfig {
        depth: 4,
        excludes: vec!["skipme".to_string()],
    };
    assert_eq!(
        found(&["/w/root"], &cfg, &fs, &MemIgnore::none()),
        vec!["/w/root"]
    );
}

#[test]
fn an_empty_exclude_list_prunes_nothing() {
    let fs = MemFs::default()
        .repo("/w/root")
        .repo("/w/root/node_modules/pkg");
    let cfg = ScanConfig {
        depth: 6,
        excludes: Vec::new(),
    };
    assert_eq!(found(&["/w/root"], &cfg, &fs, &MemIgnore::none()).len(), 2);
}

#[test]
fn a_non_ignored_subtree_keeps_drilling_past_a_repo_it_already_found() {
    let fs = MemFs::default()
        .repo("/w/root")
        .repo("/w/root/a")
        .repo("/w/root/a/b");
    assert_eq!(
        found(&["/w/root"], &cfg(4), &fs, &MemIgnore::none()),
        vec!["/w/root", "/w/root/a", "/w/root/a/b"]
    );
}

#[test]
fn the_depth_limit_is_measured_from_the_scan_start_and_is_inclusive() {
    let fs = MemFs::default().repo("/w/root").repo("/w/root/a/b/c/d");
    assert_eq!(found(&["/w/root"], &cfg(4), &fs, &MemIgnore::none()).len(), 2);
    assert_eq!(found(&["/w/root"], &cfg(3), &fs, &MemIgnore::none()).len(), 1);
}

#[test]
fn an_unreadable_directory_is_skipped_and_its_siblings_still_scanned() {
    let fs = MemFs::default()
        .repo("/w/root")
        .dir("/w/root/locked")
        .repo("/w/root/locked/hidden")
        .repo("/w/root/ok")
        .unreadable("/w/root/locked");
    assert_eq!(
        found(&["/w/root"], &cfg(4), &fs, &MemIgnore::none()),
        vec!["/w/root", "/w/root/ok"]
    );
}

#[test]
fn symlinked_directories_are_not_followed() {
    let fs = MemFs::default().repo("/w/root").symlink("/w/root", "loop");
    assert_eq!(
        found(&["/w/root"], &cfg(4), &fs, &MemIgnore::none()),
        vec!["/w/root"]
    );
}

#[test]
fn the_dot_git_directory_itself_is_never_descended() {
    let fs = MemFs::default()
        .repo("/w/root")
        .repo("/w/root/.git/modules/x");
    assert_eq!(
        found(&["/w/root"], &cfg(6), &fs, &MemIgnore::none()),
        vec!["/w/root"]
    );
}

#[test]
fn a_repo_reachable_from_two_scan_roots_is_reported_once() {
    let fs = MemFs::default().repo("/w/a").repo("/w/b");
    assert_eq!(
        found(&["/w/a", "/w/b", "/w/a"], &cfg(4), &fs, &MemIgnore::none()),
        vec!["/w/a", "/w/b"]
    );
}

#[test]
fn scanning_a_directory_that_is_not_a_repo_and_holds_none_finds_nothing() {
    let fs = MemFs::default().dir("/w/empty");
    assert!(found(&["/w/empty"], &cfg(4), &fs, &MemIgnore::none()).is_empty());
}

#[test]
fn the_walk_assigns_every_kind_from_the_spec_table() {
    let fs = MemFs::default()
        .repo("/w/root")
        .file("/w/root/.gitmodules", "[submodule \"lib\"]\n\tpath = sublib\n")
        .repo_file("/w/root/sublib", "/w/root/.git/modules/lib")
        .repo_file("/w/root/wt/feature", "/w/root/.git/worktrees/feature")
        .repo("/w/root/clone");
    let kinds: BTreeMap<String, RepoKind> = scan(&strings(&["/w/root"]), &cfg(4), &fs, &MemIgnore::none())
        .into_iter()
        .map(|r| (r.path, r.kind))
        .collect();
    assert_eq!(kinds["/w/root"], RepoKind::Root);
    assert_eq!(kinds["/w/root/sublib"], RepoKind::Submodule);
    assert_eq!(kinds["/w/root/wt/feature"], RepoKind::Worktree);
    assert_eq!(kinds["/w/root/clone"], RepoKind::Nested);
}

#[test]
fn every_found_repo_carries_the_scan_root_it_was_found_under() {
    let fs = MemFs::default().repo("/w/root").repo("/w/root/a");
    let repos = scan(&strings(&["/w/root"]), &cfg(4), &fs, &MemIgnore::none());
    assert!(repos.iter().all(|r| r.scan_root == "/w/root"));
}

#[test]
fn a_submodule_declared_in_gitmodules_is_found_even_beyond_the_depth_limit() {
    let fs = MemFs::default()
        .repo("/w/root")
        .file("/w/root/.gitmodules", "path = deep/a/b/c/lib\n")
        .repo_file("/w/root/deep/a/b/c/lib", "/w/root/.git/modules/lib");
    let repos = found(&["/w/root"], &cfg(2), &fs, &MemIgnore::none());
    assert!(repos.contains(&"/w/root/deep/a/b/c/lib".to_string()), "{repos:?}");
}

#[test]
fn a_submodule_declared_but_not_initialized_is_skipped() {
    let fs = MemFs::default()
        .repo("/w/root")
        .file("/w/root/.gitmodules", "path = sublib\n")
        .dir("/w/root/sublib");
    assert_eq!(
        found(&["/w/root"], &cfg(4), &fs, &MemIgnore::none()),
        vec!["/w/root"]
    );
}

#[test]
fn a_submodule_under_a_hard_excluded_name_is_still_listed_from_gitmodules() {
    let fs = MemFs::default()
        .repo("/w/root")
        .file("/w/root/.gitmodules", "path = vendor\n")
        .repo_file("/w/root/vendor", "/w/root/.git/modules/vendor");
    assert_eq!(found(&["/w/root"], &cfg(4), &fs, &MemIgnore::none()).len(), 2);
}

struct MemTopLevel(BTreeMap<String, String>);

impl MemTopLevel {
    fn of(pairs: &[(&str, &str)]) -> Self {
        MemTopLevel(
            pairs
                .iter()
                .map(|(d, r)| (d.to_string(), r.to_string()))
                .collect(),
        )
    }
}

impl TopLevelResolver for MemTopLevel {
    fn toplevel(&self, dir: &str) -> Option<String> {
        self.0.get(dir).cloned()
    }
}

fn roots_of(cwds: &[&str], fallback: Option<&str>, tl: &MemTopLevel) -> Vec<String> {
    scan_roots(&strings(cwds), fallback, tl)
}

#[test]
fn a_pane_cwd_inside_a_repo_walks_up_to_that_repos_root() {
    let tl = MemTopLevel::of(&[("/w/root/src", "/w/root")]);
    assert_eq!(roots_of(&["/w/root/src"], None, &tl), vec!["/w/root"]);
}

#[test]
fn a_pane_cwd_outside_any_repo_is_used_as_the_scan_start_itself() {
    assert_eq!(roots_of(&["/w/plain"], None, &MemTopLevel::of(&[])), vec!["/w/plain"]);
}

#[test]
fn two_pane_cwds_in_the_same_repo_collapse_to_one_scan_start() {
    let tl = MemTopLevel::of(&[("/w/root/a", "/w/root"), ("/w/root/b", "/w/root")]);
    assert_eq!(roots_of(&["/w/root/a", "/w/root/b"], None, &tl), vec!["/w/root"]);
}

#[test]
fn a_scan_start_inside_another_scan_start_is_dropped() {
    assert_eq!(
        roots_of(&["/w/root", "/w/root/inner"], None, &MemTopLevel::of(&[])),
        vec!["/w/root"]
    );
}

#[test]
fn with_no_pane_cwds_the_fallback_workspace_cwd_becomes_the_only_scan_start() {
    assert_eq!(roots_of(&[], Some("/w"), &MemTopLevel::of(&[])), vec!["/w"]);
}

#[test]
fn the_fallback_is_also_walked_up_to_its_repo_root() {
    let tl = MemTopLevel::of(&[("/w/sub", "/w")]);
    assert_eq!(roots_of(&[], Some("/w/sub"), &tl), vec!["/w"]);
}

#[test]
fn with_neither_pane_cwds_nor_a_fallback_there_are_no_scan_starts() {
    assert!(roots_of(&[], None, &MemTopLevel::of(&[])).is_empty());
}

#[test]
fn the_fallback_is_ignored_when_pane_cwds_were_available() {
    assert_eq!(roots_of(&["/w/a"], Some("/w/unused"), &MemTopLevel::of(&[])), vec!["/w/a"]);
}

#[test]
fn an_inner_scan_start_listed_first_is_still_dropped() {
    assert_eq!(
        roots_of(&["/w/root/inner", "/w/root"], None, &MemTopLevel::of(&[])),
        vec!["/w/root"]
    );
}

fn entry(name: &str, is_dir: bool) -> DirEntryInfo {
    DirEntryInfo { name: name.to_string(), is_dir, is_symlink: false }
}

#[test]
fn directory_entries_come_out_in_name_order() {
    let sorted = sort_entries(vec![entry("b", true), entry("a", false), entry("c", true), entry("B", false)]);
    let names: Vec<&str> = sorted.iter().map(|e| e.name.as_str()).collect();
    assert_eq!(names, vec!["B", "a", "b", "c"]);
}

#[test]
fn entries_with_the_same_name_keep_their_order() {
    let sorted = sort_entries(vec![entry("x", true), entry("a", false), entry("x", false)]);
    assert_eq!(sorted, vec![entry("a", false), entry("x", true), entry("x", false)]);
}

#[test]
fn sorting_no_entries_gives_none() {
    assert!(sort_entries(Vec::new()).is_empty());
}

#[test]
fn the_candidates_are_the_pane_cwds_or_else_the_fallback_alone() {
    assert_eq!(scan_candidates(&strings(&["/w/a", "/w/b"]), Some("/w")), strings(&["/w/a", "/w/b"]));
    assert_eq!(scan_candidates(&[], Some("/w")), strings(&["/w"]));
    assert!(scan_candidates(&[], None).is_empty());
}

#[test]
fn each_candidate_stands_for_itself_where_the_resolver_found_no_repo() {
    let cands = strings(&["/w/root/a", "/x/plain", "/w/root/b"]);
    let answers = vec![Some("/w/root".to_string()), None, Some("/w/root".to_string())];
    assert_eq!(scan_roots_with(&cands, &answers), strings(&["/w/root", "/x/plain"]));
}

#[test]
fn a_resolved_start_inside_another_is_dropped_whichever_comes_first() {
    let cands = strings(&["/w/root/inner", "/w/root"]);
    let answers = vec![None, None];
    assert_eq!(scan_roots_with(&cands, &answers), strings(&["/w/root"]));
}
