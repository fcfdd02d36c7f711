//! Pure repo-kind classification — no I/O whatsoever.
//!
//! The caller does the filesystem work (is `.git` a file or a directory? what does it contain?
//! what does the parent's `.gitmodules` list?) and passes the answers in, so every decision in
//! this module is a unit test away.
use vstd::prelude::*;
use crate::model::RepoKind;
use crate::text::{
    chars_of, find_char, find_char_from, insert_sorted_unique, lemma_find_char_bounds, lines,
    lines_from, line_end, next_line, range_eq, seq_eq, str_eq, string_of, strictly_sorted, sub_vec,
    trim, trim_chars, views_of,
};

verus! {

/// The shape of a repo's `.git`, as the caller observed it.
#[derive(Debug, Clone, PartialEq, Eq)]
pub enum DotGit {
    /// A real `.git` directory: an independent clone.
    Dir,
    /// A `.git` file, carrying the `gitdir:` pointer's value (already parsed by
    /// [`parse_gitdir`]).
    File { gitdir: String },
}

/// The `…/worktrees/…` marker that distinguishes a linked worktree's gitdir pointer.
pub open spec fn worktree_marker() -> Seq<char> {
    "/worktrees/"@
}

/// Whether `pat` occurs in `s`.
pub open spec fn has_sub(s: Seq<char>, pat: Seq<char>) -> bool {
    exists|i: int| 0 <= i && i + pat.len() <= s.len() && #[trigger] s.subrange(i, i + pat.len()) == pat
}

fn contains_str(s: &str, pat: &str) -> (r: bool)
    ensures
        r == has_sub(s@, pat@),
{
    let cs = chars_of(s);
    let ps = chars_of(pat);
    if ps.len() > cs.len() {
        return false;
    }
    let last = cs.len() - ps.len();
    let mut i: usize = 0;
    loop
        invariant
            cs@ == s@,
            ps@ == pat@,
            ps@.len() <= cs@.len(),
            last == cs@.len() - ps@.len(),
            i <= last,
            forall|k: int| 0 <= k < i ==> #[trigger] s@.subrange(k, k + pat@.len()) != pat@,
        decreases last - i,
    {
        assert(i + ps.len() <= cs.len());
        if range_eq(cs.as_slice(), i, i + ps.len(), pat) {
            return true;
        }
        if i == last {
            return false;
        }
        i += 1;
    }
}

/// The kind of a discovered repo: the scan start itself wins outright; a `.git` directory is
/// a nested clone; a `.git` file is a submodule when the enclosing repo's `.gitmodules` lists
/// its path, else a worktree when its gitdir points into `…/worktrees/…`, else (still shown
/// rather than dropped) a nested clone.
pub open spec fn classify_spec(
    is_scan_root: bool,
    dot_git: DotGit,
    rel_from_parent: Option<Seq<char>>,
    parent_submodules: Seq<Seq<char>>,
) -> RepoKind {
    if is_scan_root {
        RepoKind::Root
    } else {
        match dot_git {
            DotGit::Dir => RepoKind::Nested,
            DotGit::File { gitdir } => if rel_from_parent matches Some(rel) && parent_submodules.contains(rel) {
                RepoKind::Submodule
            } else if has_sub(gitdir@, worktree_marker()) {
                RepoKind::Worktree
            } else {
                RepoKind::Nested
            },
        }
    }
}

pub open spec fn opt_str_view(o: Option<&str>) -> Option<Seq<char>> {
    match o {
        Some(s) => Some(s@),
        None => None,
    }
}

fn set_contains(set: &Vec<String>, x: &str) -> (r: bool)
    ensures
        r == views_of(set@).contains(x@),
{
    let mut i: usize = 0;
    while i < set.len()
        invariant
            i <= set@.len(),
            forall|j: int| 0 <= j < i ==> set@[j]@ != x@,
        decreases set.len() - i,
    {
        if str_eq(set[i].as_str(), x) {
            assert(views_of(set@)[i as int] == x@);
            return true;
        }
        i += 1;
    }
    assert(!views_of(set@).contains(x@)) by {
        if views_of(set@).contains(x@) {
            let j = choose|j: int| 0 <= j < views_of(set@).len() && views_of(set@)[j] == x@;
            assert(set@[j]@ == x@);
        }
    }
    false
}

/// Classify one discovered repo.
///
/// - `is_scan_root` — this repo IS the scan start. Wins outright.
/// - `dot_git` — the shape of its `.git`.
/// - `rel_from_parent` — its path relative to the nearest enclosing repo, forward-slashed;
///   `None` when there is no enclosing repo (then it cannot be a submodule).
/// - `parent_submodules` — the enclosing repo's `.gitmodules` paths, from [`submodule_paths`].
///
/// A `.git` file matching neither rule falls back to `Nested`: it is still a repo, and showing
/// it with a slightly wrong marker beats dropping it.
pub fn classify(
    is_scan_root: bool,
    dot_git: &DotGit,
    rel_from_parent: Option<&str>,
    parent_submodules: &Vec<String>,
) -> (r: RepoKind)
    ensures
        r == classify_spec(
            is_scan_root,
            *dot_git,
            opt_str_view(rel_from_parent),
            views_of(parent_submodules@),
        ),
{
    if is_scan_root {
        return RepoKind::Root;
    }
    let gitdir = match dot_git {
        DotGit::File { gitdir } => gitdir,
        DotGit::Dir => {
            return RepoKind::Nested;
        },
    };
    if let Some(rel) = rel_from_parent {
        if set_contains(parent_submodules, rel) {
            return RepoKind::Submodule;
        }
    }
    if contains_str(gitdir.as_str(), "/worktrees/") {
        return RepoKind::Worktree;
    }
    RepoKind::Nested
}

/// A `.git` FILE's `gitdir:` pointer: its first line, which must start `gitdir:`, with the
/// value trimmed; `None` for anything else or a blank value.
pub open spec fn gitdir_spec(content: Seq<char>) -> Option<Seq<char>> {
    let ls = lines(content);
    if ls.len() == 0 {
        None
    } else {
        let first = ls[0];
        if first.len() >= 7 && first.subrange(0, 7) == "gitdir:"@ {
            let v = trim(first.subrange(7, first.len() as int));
            if v.len() > 0 {
                Some(v)
            } else {
                None
            }
        } else {
            None
        }
    }
}

/// Read a `.git` FILE's `gitdir:` pointer. `None` for anything that is not one, or whose value
/// is blank.
pub fn parse_gitdir(content: &str) -> (r: Option<String>)
    ensures
        match r {
            Some(v) => gitdir_spec(content@) == Some(v@),
            None => gitdir_spec(content@) is None,
        },
{
    let cs = chars_of(content);
    if cs.len() == 0 {
        return None;
    }
    let (end, _nl) = next_line(cs.as_slice(), 0);
    let ghost first = cs@.subrange(0, end as int);
    assert(lines(cs@)[0] == first);
    if end < 7 || !range_eq(cs.as_slice(), 0, 7, "gitdir:") {
        assert(end < 7 || first.subrange(0, 7) != "gitdir:"@) by {
            if end >= 7 {
                assert(first.subrange(0, 7) =~= cs@.subrange(0, 7));
            }
        }
        return None;
    }
    assert(first.subrange(0, 7) =~= cs@.subrange(0, 7));
    let rest = sub_vec(cs.as_slice(), 7, end);
    assert(rest@ =~= first.subrange(7, first.len() as int));
    let v = trim_chars(rest.as_slice());
    if v.len() == 0 {
        return None;
    }
    Some(string_of(v.as_slice()))
}

// ---- .gitmodules -------------------------------------------------------------------------------

/// A `.gitmodules` line's `path = …` value, unnormalized: comments (`#`, `;`), lines without
/// `=` and other keys give `None`.
pub open spec fn path_value(line: Seq<char>) -> Option<Seq<char>> {
    let l = trim(line);
    if l.len() > 0 && (l[0] == '#' || l[0] == ';') {
        None
    } else {
        let eq = find_char_from(l, '=', 0);
        if eq < l.len() && trim(l.subrange(0, eq)) == "path"@ {
            Some(l.subrange(eq + 1, l.len() as int))
        } else {
            None
        }
    }
}

/// `s` without its leading `./` pieces (`trim_start_matches("./")`).
pub open spec fn strip_dot_slash(s: Seq<char>) -> Seq<char>
    decreases s.len(),
{
    if s.len() >= 2 && s[0] == '.' && s[1] == '/' {
        strip_dot_slash(s.subrange(2, s.len() as int))
    } else {
        s
    }
}

/// `s` without its trailing `/`s (`trim_end_matches('/')`).
pub open spec fn strip_trailing_slash(s: Seq<char>) -> Seq<char>
    decreases s.len(),
{
    if s.len() > 0 && s.last() == '/' {
        strip_trailing_slash(s.drop_last())
    } else {
        s
    }
}

/// A path value normalized to compare against a walk-produced relative path.
pub open spec fn normalize_sub(v: Seq<char>) -> Seq<char> {
    strip_trailing_slash(strip_dot_slash(trim(v)))
}

/// Whether one line declares submodule path `p`.
pub open spec fn line_declares(line: Seq<char>, p: Seq<char>) -> bool {
    match path_value(line) {
        Some(v) => normalize_sub(v) == p,
        None => false,
    }
}

/// Whether the lines of `g` declare submodule path `p`.
pub open spec fn declares(g: Seq<char>, p: Seq<char>) -> bool {
    p.len() > 0 && exists|i: int|
        0 <= i < lines(g).len() && #[trigger] line_declares(lines(g)[i], p)
}

fn strip_dot_slash_exec(s: &[char], from: usize, to: usize) -> (r: usize)
    requires
        from <= to <= s@.len(),
    ensures
        from <= r <= to,
        s@.subrange(r as int, to as int) == strip_dot_slash(s@.subrange(from as int, to as int)),
    decreases to - from,
{
    if to - from >= 2 && s[from] == '.' && s[from + 1] == '/' {
        assert(s@.subrange(from as int, to as int).subrange(2, (to - from) as int) =~= s@.subrange(
            from + 2,
            to as int,
        ));
        strip_dot_slash_exec(s, from + 2, to)
    } else {
        from
    }
}

fn strip_trailing_slash_exec(s: &[char], from: usize, to: usize) -> (r: usize)
    requires
        from <= to <= s@.len(),
    ensures
        from <= r <= to,
        s@.subrange(from as int, r as int) == strip_trailing_slash(s@.subrange(from as int, to as int)),
    decreases to - from,
{
    if to > from && s[to - 1] == '/' {
        assert(s@.subrange(from as int, to as int).drop_last() =~= s@.subrange(
            from as int,
            to - 1,
        ));
        strip_trailing_slash_exec(s, from, to - 1)
    } else {
        to
    }
}

/// The normalized path value of one line, if it declares one.
fn line_path(line: &[char]) -> (r: Option<Vec<char>>)
    ensures
        match r {
            Some(v) => path_value(line@) matches Some(p) && v@ == normalize_sub(p),
            None => path_value(line@) is None,
        },
{
    let l = trim_chars(line);
    if l.len() > 0 && (l[0] == '#' || l[0] == ';') {
        return None;
    }
    let eq = find_char(l.as_slice(), '=', 0);
    proof {
        lemma_find_char_bounds(l@, '=', 0);
    }
    if eq >= l.len() {
        return None;
    }
    let key = trim_chars(sub_vec(l.as_slice(), 0, eq).as_slice());
    if !crate::text::chars_eq(key.as_slice(), "path") {
        return None;
    }
    let value = sub_vec(l.as_slice(), eq + 1, l.len());
    let t = trim_chars(value.as_slice());
    let a = strip_dot_slash_exec(t.as_slice(), 0, t.len());
    assert(t@.subrange(0, t@.len() as int) =~= t@);
    let b = strip_trailing_slash_exec(t.as_slice(), a, t.len());
    Some(sub_vec(t.as_slice(), a, b))
}

/// Every `path = …` value in a `.gitmodules` file, normalized to compare against a
/// walk-produced relative path: no leading `./`, no trailing `/`. The result is a sorted set.
///
/// Deliberately a line scanner rather than an INI parser: `.gitmodules` is hand-editable and we
/// only ever need the `path` keys. Unknown keys, comments and blank lines are ignored, and a
/// malformed file simply yields fewer paths — never an error.
pub fn submodule_paths(gitmodules: &str) -> (r: Vec<String>)
    ensures
        strictly_sorted(views_of(r@)),
        forall|p: Seq<char>| #[trigger] views_of(r@).contains(p) == declares(gitmodules@, p),
{
    let cs = chars_of(gitmodules);
    let ghost g = gitmodules@;
    let mut out: Vec<String> = Vec::new();
    let mut i: usize = 0;
    let ghost mut seen: int = 0;
    while i < cs.len()
        invariant
            cs@ == g,
            i <= cs@.len(),
            0 <= seen <= lines(g).len(),
            lines(g) == lines(g).take(seen) + lines_from(g, i as int),
            strictly_sorted(views_of(out@)),
            forall|p: Seq<char>| #[trigger] views_of(out@).contains(p) == (p.len() > 0 && exists|k: int|
                0 <= k < seen && #[trigger] line_declares(lines(g)[k], p)),
        decreases cs.len() - i,
    {
        let (end, nl) = next_line(cs.as_slice(), i);
        proof {
            lemma_find_char_bounds(g, '\n', i as int);
        }
        let line = sub_vec(cs.as_slice(), i, end);
        let ghost this = line@;
        let ghost ls = lines(g);
        assert(lines_from(g, i as int)[0] == this);
        assert(lines_from(g, i as int) =~= seq![this] + if nl >= cs.len() {
            Seq::empty()
        } else {
            lines_from(g, nl + 1)
        });
        assert(ls[seen] == this);
        let found = line_path(line.as_slice());
        let ghost before = views_of(out@);
        let ghost added: Option<Seq<char>> = match &found {
            Some(v) => if v@.len() > 0 {
                Some(v@)
            } else {
                None
            },
            None => None,
        };
        assert(forall|p: Seq<char>| (p.len() > 0 && #[trigger] line_declares(this, p)) == (added == Some(p)));
        match found {
            Some(v) => {
                if v.len() > 0 {
                    insert_sorted_unique(&mut out, string_of(v.as_slice()));
                }
            },
            None => {},
        }
        assert(forall|p: Seq<char>| #[trigger] views_of(out@).contains(p) == (before.contains(p) || added == Some(p)));
        proof {
            assert forall|p: Seq<char>| #[trigger] views_of(out@).contains(p) == (p.len() > 0 && exists|k: int|
                0 <= k < seen + 1 && #[trigger] line_declares(ls[k], p)) by {
                if p.len() > 0 && line_declares(this, p) {
                    assert(line_declares(ls[seen], p));
                }
                if p.len() > 0 && exists|k: int| 0 <= k < seen + 1 && #[trigger] line_declares(ls[k], p) {
                    let k = choose|k: int| 0 <= k < seen + 1 && #[trigger] line_declares(ls[k], p);
                    if k < seen {
                        assert(before.contains(p));
                    } else {
                        assert(added == Some(p));
                    }
                }
                if before.contains(p) {
                    let k = choose|k: int| 0 <= k < seen && #[trigger] line_declares(ls[k], p);
                    assert(line_declares(ls[k], p));
                }
            }
        }
        proof {
            if nl >= cs.len() {
                assert(ls =~= ls.take(seen + 1));
            } else {
                assert(ls =~= ls.take(seen + 1) + lines_from(g, nl + 1));
            }
            seen = seen + 1;
        }
        if nl >= cs.len() {
            i = cs.len();
            assert(lines_from(g, i as int) =~= Seq::<Seq<char>>::empty());
        } else {
            i = nl + 1;
        }
    }
    proof {
        assert(lines_from(g, i as int) =~= Seq::<Seq<char>>::empty());
        assert(seen == lines(g).len());
    }
    out
}

} // verus!
