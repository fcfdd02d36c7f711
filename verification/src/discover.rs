//! Repo discovery: the traversal and its three-tier pruning.
//!
//! Every filesystem question goes through the [`Fs`] and [`IgnoreOracle`] seams, so the pruning
//! DECISIONS — the load-bearing part — are tested against an in-memory tree with no disk
//! involved. The production implementations live with the caller.
use vstd::prelude::*;
use crate::model::{RepoKind, RepoRoot, opt_view};
use crate::path::{comps, join, join_spec, path_starts_with, rel_slash, rel_slash_spec, same_path, same_place, starts_with_path};
use crate::repo_kind::{DotGit, classify, classify_spec, declares, opt_str_view, submodule_paths};
use crate::text::{chars_of, lemma_le_trans, lemma_lt_asym, less_than, seq_lt, str_eq, strictly_sorted, views_of};

verus! {

/// `std::io::Error`, carried through the seams' results.
#[verifier::external_type_specification]
#[verifier::external_body]
pub struct ExIoError(std::io::Error);

/// The walk's bounds. `depth` counts directory levels below the scan start; `excludes` are
/// directory NAMES pruned unconditionally.
#[derive(Debug, Clone, PartialEq, Eq)]
pub struct ScanConfig {
    pub depth: usize,
    pub excludes: Vec<String>,
}

/// One directory entry, reduced to what the walk actually needs.
#[derive(Debug, Clone, PartialEq, Eq)]
pub struct DirEntryInfo {
    pub name: String,
    pub is_dir: bool,
    /// Symlinked directories are never followed: a loop would hang the walk regardless of the
    /// depth limit, and a symlinked repo is reachable by its real path anyway.
    pub is_symlink: bool,
}

/// Insert `x` after every entry whose name is not greater than its own (a stable insertion).
pub open spec fn insert_by_name(s: Seq<DirEntryInfo>, x: DirEntryInfo) -> Seq<DirEntryInfo>
    decreases s.len(),
{
    if s.len() > 0 && seq_lt(x.name@, s.last().name@) {
        insert_by_name(s.drop_last(), x).push(s.last())
    } else {
        s.push(x)
    }
}

/// The entries stably sorted by name.
pub open spec fn sort_by_name(s: Seq<DirEntryInfo>) -> Seq<DirEntryInfo>
    decreases s.len(),
{
    if s.len() == 0 {
        Seq::empty()
    } else {
        insert_by_name(sort_by_name(s.drop_last()), s.last())
    }
}

/// Whether entries are in name order.
pub open spec fn in_name_order(s: Seq<DirEntryInfo>) -> bool {
    forall|i: int, j: int| 0 <= i < j < s.len() ==> !seq_lt(#[trigger] s[j].name@, #[trigger] s[i].name@)
}

proof fn lemma_insert_by_name_at(s: Seq<DirEntryInfo>, x: DirEntryInfo, j: int)
    requires
        0 <= j <= s.len(),
        forall|k: int| j <= k < s.len() ==> seq_lt(x.name@, (#[trigger] s[k]).name@),
        j > 0 ==> !seq_lt(x.name@, s[j - 1].name@),
    ensures
        insert_by_name(s, x) == s.take(j) + seq![x] + s.skip(j),
    decreases s.len(),
{
    if j < s.len() {
        assert(seq_lt(x.name@, s.last().name@));
        lemma_insert_by_name_at(s.drop_last(), x, j);
        assert(s.take(j) + seq![x] + s.skip(j) =~= (s.drop_last().take(j) + seq![x] + s.drop_last().skip(j)).push(s.last()));
    } else {
        assert(s.take(j) + seq![x] + s.skip(j) =~= s.push(x));
    }
}

/// Directory entries in name order (stable), so a walk visits siblings in a fixed order and the
/// repo list does not reshuffle between rescans.
pub fn sort_entries(v: Vec<DirEntryInfo>) -> (r: Vec<DirEntryInfo>)
    ensures
        r@ == sort_by_name(v@),
{
    let ghost s = v@;
    let mut rest = v;
    let mut out: Vec<DirEntryInfo> = Vec::new();
    let mut taken: usize = 0;
    assert(s.len() == v.len());
    while rest.len() > 0
        invariant
            s.len() <= usize::MAX,
            taken + rest@.len() == s.len(),
            rest@ == s.skip(taken as int),
            out@ == sort_by_name(s.take(taken as int)),
        decreases rest.len(),
    {
        assert(rest@[0] == s[taken as int]);
        let e = rest.remove(0);
        let ghost o = out@;
        let mut j = out.len();
        while j > 0 && less_than(chars_of(e.name.as_str()).as_slice(), chars_of(out[j - 1].name.as_str()).as_slice())
            invariant
                j <= out@.len(),
                o == out@,
                forall|k: int| j <= k < out@.len() ==> seq_lt(e.name@, (#[trigger] out@[k]).name@),
            decreases j,
        {
            j -= 1;
        }
        proof {
            lemma_insert_by_name_at(o, e, j as int);
            assert(s.take(taken + 1).drop_last() =~= s.take(taken as int));
            assert(s.take(taken + 1).last() == e);
        }
        out.insert(j, e);
        assert(out@ =~= o.take(j as int) + seq![e] + o.skip(j as int));
        assert(rest@ =~= s.skip(taken + 1));
        taken += 1;
    }
    assert(s.take(taken as int) =~= s);
    out
}

proof fn lemma_insert_by_name(s: Seq<DirEntryInfo>, x: DirEntryInfo)
    requires
        in_name_order(s),
    ensures
        in_name_order(insert_by_name(s, x)),
        insert_by_name(s, x).to_multiset() == s.to_multiset().insert(x),
    decreases s.len(),
{
    broadcast use vstd::seq_lib::group_to_multiset_ensures;

    if s.len() > 0 && seq_lt(x.name@, s.last().name@) {
        let s1 = s.drop_last();
        let last = s.last();
        assert forall|i: int, j: int| 0 <= i < j < s1.len() implies !seq_lt(#[trigger] s1[j].name@, #[trigger] s1[i].name@) by {
            assert(s1[i] == s[i] && s1[j] == s[j]);
        }
        lemma_insert_by_name(s1, x);
        let r1 = insert_by_name(s1, x);
        let r = r1.push(last);
        assert(s =~= s1.push(last));
        assert forall|i: int, j: int| 0 <= i < j < r.len() implies !seq_lt(#[trigger] r[j].name@, #[trigger] r[i].name@) by {
            if j == r1.len() {
                let e = r1[i];
                assert(r1.contains(e));
                assert(r1.to_multiset().count(e) > 0);
                if e == x {
                    lemma_lt_asym(x.name@, last.name@, 0);
                } else {
                    assert(s1.to_multiset().count(e) > 0);
                    assert(s1.contains(e));
                    let m = choose|m: int| 0 <= m < s1.len() && s1[m] == e;
                    assert(s[m] == e);
                    assert(s[s.len() - 1] == last);
                }
            } else {
                assert(r[i] == r1[i] && r[j] == r1[j]);
            }
        }
    } else {
        let r = s.push(x);
        assert forall|i: int, j: int| 0 <= i < j < r.len() implies !seq_lt(#[trigger] r[j].name@, #[trigger] r[i].name@) by {
            if j == s.len() {
                let last = s.last();
                if i < s.len() - 1 {
                    assert(s[s.len() - 1] == last);
                    lemma_le_trans(s[i].name@, last.name@, x.name@, 0);
                }
            } else {
                assert(r[i] == s[i] && r[j] == s[j]);
            }
        }
    }
}

/// Law: sorting a directory's entries puts them in name order and neither loses nor adds one.
pub proof fn law_entries_sort_by_name(s: Seq<DirEntryInfo>)
    ensures
        in_name_order(sort_by_name(s)),
        sort_by_name(s).to_multiset() == s.to_multiset(),
    decreases s.len(),
{
    broadcast use vstd::seq_lib::group_to_multiset_ensures;

    if s.len() > 0 {
        law_entries_sort_by_name(s.drop_last());
        lemma_insert_by_name(sort_by_name(s.drop_last()), s.last());
        assert(s =~= s.drop_last().push(s.last()));
    }
}

/// The filesystem seam.
pub trait Fs {
    /// The entries of `dir`. An `Err` means "skip this directory and keep going".
    fn read_dir(&self, dir: &str) -> std::io::Result<Vec<DirEntryInfo>>;

    /// The shape of `dir/.git`, or `None` when `dir` is not a repo working tree.
    fn dot_git(&self, dir: &str) -> Option<DotGit>;

    fn read_to_string(&self, path: &str) -> std::io::Result<String>;
}

/// The gitignore seam. `enclosing_repo` is the nearest ancestor repo whose rules apply; `None`
/// means there is none, so nothing is ignored.
pub trait IgnoreOracle {
    fn is_ignored_dir(&self, enclosing_repo: Option<&str>, dir: &str) -> bool;
}

/// `git rev-parse --show-toplevel`, behind a seam so `scan_roots` is testable without git.
pub trait TopLevelResolver {
    fn toplevel(&self, dir: &str) -> Option<String>;
}

/// The first-seen representatives of `v`'s first `n` paths, duplicates (same place) dropped.
pub open spec fn dedup_paths(v: Seq<Seq<char>>, n: int) -> Seq<Seq<char>>
    decreases n,
{
    if n <= 0 {
        Seq::empty()
    } else {
        let prev = dedup_paths(v, n - 1);
        if exists|j: int| 0 <= j < prev.len() && #[trigger] same_path(prev[j], v[n - 1]) {
            prev
        } else {
            prev.push(v[n - 1])
        }
    }
}

/// Whether `a` lives inside another, different start of `starts`.
pub open spec fn nested_in_other(starts: Seq<Seq<char>>, a: Seq<char>) -> bool {
    exists|j: int| 0 <= j < starts.len() && !same_path(#[trigger] starts[j], a) && path_starts_with(a, starts[j])
}

/// The first `n` starts that do not live inside another start.
pub open spec fn outermost(starts: Seq<Seq<char>>, n: int) -> Seq<Seq<char>>
    decreases n,
{
    if n <= 0 {
        Seq::empty()
    } else if nested_in_other(starts, starts[n - 1]) {
        outermost(starts, n - 1)
    } else {
        outermost(starts, n - 1).push(starts[n - 1])
    }
}

/// The scan starts given each candidate's resolved repo root: de-duplicated (first seen wins),
/// and a start nested inside another start dropped so no subtree is walked twice.
pub open spec fn roots_from_spec(resolved: Seq<Seq<char>>) -> Seq<Seq<char>> {
    let d = dedup_paths(resolved, resolved.len() as int);
    outermost(d, d.len() as int)
}

fn has_same_path(v: &Vec<String>, x: &str) -> (r: bool)
    ensures
        r == exists|j: int| 0 <= j < v@.len() && #[trigger] same_path(views_of(v@)[j], x@),
{
    let mut i: usize = 0;
    while i < v.len()
        invariant
            i <= v@.len(),
            forall|j: int| 0 <= j < i ==> !#[trigger] same_path(views_of(v@)[j], x@),
        decreases v.len() - i,
    {
        assert(views_of(v@)[i as int] == v@[i as int]@);
        if same_place(v[i].as_str(), x) {
            return true;
        }
        i += 1;
    }
    false
}

/// The scan starts from each candidate's resolved repo root.
pub fn scan_roots_from(resolved: &[String]) -> (r: Vec<String>)
    ensures
        views_of(r@) == roots_from_spec(views_of(resolved@)),
{
    let ghost v = views_of(resolved@);
    let mut deduped: Vec<String> = Vec::new();
    let mut i: usize = 0;
    while i < resolved.len()
        invariant
            v == views_of(resolved@),
            i <= resolved@.len(),
            views_of(deduped@) == dedup_paths(v, i as int),
        decreases resolved.len() - i,
    {
        assert(v[i as int] == resolved@[i as int]@);
        if !has_same_path(&deduped, resolved[i].as_str()) {
            let ghost before = views_of(deduped@);
            deduped.push(resolved[i].clone());
            assert(views_of(deduped@) =~= before.push(v[i as int]));
        }
        i += 1;
    }
    let ghost d = views_of(deduped@);
    // Drop any start that lives inside another start.
    let mut out: Vec<String> = Vec::new();
    let mut a: usize = 0;
    while a < deduped.len()
        invariant
            d == views_of(deduped@),
            a <= deduped@.len(),
            views_of(out@) == outermost(d, a as int),
        decreases deduped.len() - a,
    {
        let mut nested = false;
        let mut b: usize = 0;
        while b < deduped.len()
            invariant
                d == views_of(deduped@),
                a < deduped@.len(),
                b <= deduped@.len(),
                nested == exists|j: int| 0 <= j < b && !same_path(#[trigger] d[j], d[a as int]) && path_starts_with(d[a as int], d[j]),
            decreases deduped.len() - b,
        {
            assert(d[b as int] == deduped@[b as int]@ && d[a as int] == deduped@[a as int]@);
            if !same_place(deduped[b].as_str(), deduped[a].as_str()) && starts_with_path(deduped[a].as_str(), deduped[b].as_str()) {
                nested = true;
            }
            proof {
                if nested && !(exists|j: int| 0 <= j < b && !same_path(#[trigger] d[j], d[a as int]) && path_starts_with(d[a as int], d[j])) {
                    assert(!same_path(d[b as int], d[a as int]) && path_starts_with(d[a as int], d[b as int]));
                }
            }
            b += 1;
        }
        assert(nested == nested_in_other(d, d[a as int]));
        if !nested {
            let ghost before = views_of(out@);
            out.push(deduped[a].clone());
            assert(views_of(out@) =~= before.push(d[a as int]));
        }
        a += 1;
    }
    out
}

/// The candidates for scan starts: the pane cwds, or, with none at all, the `fallback`
/// (`workspace_cwd`) alone.
pub open spec fn candidates_spec(pane_cwds: Seq<Seq<char>>, fallback: Option<Seq<char>>) -> Seq<Seq<char>> {
    if pane_cwds.len() == 0 {
        match fallback {
            Some(f) => seq![f],
            None => Seq::empty(),
        }
    } else {
        pane_cwds
    }
}

/// Each candidate's resolved start: what the resolver answered for it, or the candidate itself
/// when it found no repo root.
pub open spec fn resolved_spec(cands: Seq<Seq<char>>, answers: Seq<Option<Seq<char>>>) -> Seq<Seq<char>> {
    Seq::new(
        cands.len(),
        |i: int|
            match answers[i] {
                Some(a) => a,
                None => cands[i],
            },
    )
}

/// The resolver's answers, by view.
pub open spec fn answers_view(answers: Seq<Option<String>>) -> Seq<Option<Seq<char>>> {
    answers.map_values(|a: Option<String>| opt_view(a))
}

/// The candidates for scan starts: the pane cwds, or the fallback alone when there are none.
pub fn scan_candidates(pane_cwds: &[String], fallback: Option<&str>) -> (c: Vec<String>)
    ensures
        views_of(c@) == candidates_spec(views_of(pane_cwds@), opt_str_view(fallback)),
{
    let mut candidates: Vec<String> = Vec::new();
    if pane_cwds.len() == 0 {
        if let Some(f) = fallback {
            candidates.push(String::from_str(f));
            assert(views_of(candidates@) =~= seq![f@]);
        } else {
            assert(views_of(candidates@) =~= Seq::<Seq<char>>::empty());
        }
    } else {
        let mut i: usize = 0;
        while i < pane_cwds.len()
            invariant
                i <= pane_cwds@.len(),
                views_of(candidates@) == views_of(pane_cwds@).take(i as int),
            decreases pane_cwds.len() - i,
        {
            let ghost before = views_of(candidates@);
            candidates.push(pane_cwds[i].clone());
            assert(views_of(candidates@) =~= before.push(pane_cwds@[i as int]@));
            assert(views_of(pane_cwds@).take(i + 1) =~= views_of(pane_cwds@).take(i as int).push(pane_cwds@[i as int]@));
            i += 1;
        }
        assert(views_of(pane_cwds@).take(i as int) =~= views_of(pane_cwds@));
    }
    candidates
}

/// The scan starts from the candidates and the resolver's answer for each (`answers[i]` is the
/// answer for `cands[i]`): a candidate stands for itself where no repo root was found; then
/// de-duplicated, and a start nested inside another start dropped.
pub fn scan_roots_with(cands: &[String], answers: &[Option<String>]) -> (r: Vec<String>)
    requires
        answers@.len() == cands@.len(),
    ensures
        views_of(r@) == roots_from_spec(resolved_spec(views_of(cands@), answers_view(answers@))),
{
    let ghost want = resolved_spec(views_of(cands@), answers_view(answers@));
    let mut resolved: Vec<String> = Vec::new();
    let mut i: usize = 0;
    while i < cands.len()
        invariant
            i <= cands@.len(),
            answers@.len() == cands@.len(),
            want == resolved_spec(views_of(cands@), answers_view(answers@)),
            views_of(resolved@) == want.take(i as int),
        decreases cands.len() - i,
    {
        let root = match &answers[i] {
            Some(r) => r.clone(),
            None => cands[i].clone(),
        };
        let ghost before = views_of(resolved@);
        resolved.push(root);
        assert(views_of(resolved@) =~= before.push(want[i as int]));
        assert(want.take(i + 1) =~= want.take(i as int).push(want[i as int]));
        i += 1;
    }
    assert(want.take(i as int) =~= want);
    scan_roots_from(resolved.as_slice())
}

/// The scan starts: each pane cwd walked up to its repo root (by `tl`), or used as-is when it is
/// not inside a repo; with no pane cwds at all, the `fallback` (`workspace_cwd`) is the only
/// candidate. De-duplicated, and a start nested inside another start is dropped.
///
/// `tl` is asked about each candidate once, in order; what it answers is its own business, and
/// the result is [`scan_roots_with`] of those answers.
pub fn scan_roots<T: TopLevelResolver>(pane_cwds: &[String], fallback: Option<&str>, tl: &T) -> (r: Vec<String>)
    ensures
        exists|answers: Seq<Option<Seq<char>>>|
            answers.len() == candidates_spec(views_of(pane_cwds@), opt_str_view(fallback)).len()
                && views_of(r@) == roots_from_spec(
                #[trigger] resolved_spec(candidates_spec(views_of(pane_cwds@), opt_str_view(fallback)), answers),
            ),
{
    let candidates = scan_candidates(pane_cwds, fallback);
    let mut answers: Vec<Option<String>> = Vec::new();
    let mut i: usize = 0;
    while i < candidates.len()
        invariant
            i <= candidates@.len(),
            answers@.len() == i,
        decreases candidates.len() - i,
    {
        answers.push(tl.toplevel(candidates[i].as_str()));
        i += 1;
    }
    let out = scan_roots_with(candidates.as_slice(), answers.as_slice());
    assert(answers_view(answers@).len() == candidates@.len());
    out
}

/// Law: no scan start lives inside another, and no place is scanned from twice.
pub proof fn law_scan_starts_are_disjoint(resolved: Seq<Seq<char>>)
    ensures
        forall|i: int, j: int|
            0 <= i < roots_from_spec(resolved).len() && 0 <= j < roots_from_spec(resolved).len() && i
                != j ==> !same_path(#[trigger] roots_from_spec(resolved)[i], #[trigger] roots_from_spec(resolved)[j])
                && !path_starts_with(roots_from_spec(resolved)[i], roots_from_spec(resolved)[j]),
{
    let d = dedup_paths(resolved, resolved.len() as int);
    lemma_dedup_distinct(resolved, resolved.len() as int);
    lemma_outermost(d, d.len() as int);
}

/// Law: every scan start is one of the resolved candidates (the resolver's answer for it, or the
/// candidate itself), the starts keep the order in which they were first seen, and no resolved
/// candidate is lost: each one lies inside (or is) one of the starts.
pub proof fn law_scan_starts_come_from_the_candidates(cands: Seq<Seq<char>>, answers: Seq<Option<Seq<char>>>)
    requires
        answers.len() == cands.len(),
    ensures
        forall|k: int|
            0 <= k < roots_from_spec(resolved_spec(cands, answers)).len() ==> exists|i: int|
                0 <= i < cands.len() && #[trigger] roots_from_spec(resolved_spec(cands, answers))[k]
                    == resolved_spec(cands, answers)[i],
        forall|k: int, l: int|
            0 <= k < l < roots_from_spec(resolved_spec(cands, answers)).len() ==> #[trigger] seen_in_order(
                roots_from_spec(resolved_spec(cands, answers)),
                resolved_spec(cands, answers),
                k,
                l,
            ),
        forall|i: int|
            0 <= i < cands.len() ==> exists|k: int|
                0 <= k < roots_from_spec(resolved_spec(cands, answers)).len() && path_starts_with(
                    #[trigger] resolved_spec(cands, answers)[i],
                    roots_from_spec(resolved_spec(cands, answers))[k],
                ),
{
    let v = resolved_spec(cands, answers);
    lemma_roots_members(v);
    lemma_roots_order(v);
    lemma_roots_cover(v);
}

/// Starts `k` and `l` of `r` are candidates `i` and `j` of `v`, with `i` before `j`.
pub open spec fn seen_in_order(r: Seq<Seq<char>>, v: Seq<Seq<char>>, k: int, l: int) -> bool {
    exists|i: int, j: int| 0 <= i < j < v.len() && r[k] == #[trigger] v[i] && r[l] == #[trigger] v[j]
}

proof fn lemma_roots_members(v: Seq<Seq<char>>)
    ensures
        forall|k: int| 0 <= k < roots_from_spec(v).len() ==> exists|i: int| 0 <= i < v.len() && #[trigger] roots_from_spec(v)[k] == v[i],
{
    let n = v.len() as int;
    let d = dedup_paths(v, n);
    let r = outermost(d, d.len() as int);
    assert(roots_from_spec(v) == r);
    lemma_dedup_distinct(v, n);
    lemma_dedup_members(v, n);
    lemma_outermost(d, d.len() as int);
    assert forall|k: int| 0 <= k < r.len() implies exists|i: int| 0 <= i < v.len() && #[trigger] r[k] == v[i] by {
        let a = choose|a: int| 0 <= a < d.len() && #[trigger] r[k] == d[a];
        let i = choose|i: int| 0 <= i < n && #[trigger] d[a] == v[i];
        assert(r[k] == v[i]);
    }
}

proof fn lemma_roots_order(v: Seq<Seq<char>>)
    ensures
        forall|k: int, l: int| 0 <= k < l < roots_from_spec(v).len() ==> #[trigger] seen_in_order(roots_from_spec(v), v, k, l),
{
    let n = v.len() as int;
    let d = dedup_paths(v, n);
    let r = outermost(d, d.len() as int);
    assert(roots_from_spec(v) == r);
    lemma_dedup_distinct(v, n);
    lemma_dedup_members(v, n);
    lemma_outermost(d, d.len() as int);
    assert forall|k: int, l: int| 0 <= k < l < r.len() implies #[trigger] seen_in_order(r, v, k, l) by {
        let (a, b) = choose|a: int, b: int| 0 <= a < b < d.len() && #[trigger] r[k] == d[a] && #[trigger] r[l] == d[b];
        let (i, j) = choose|i: int, j: int| 0 <= i < j < n && #[trigger] d[a] == v[i] && #[trigger] d[b] == v[j];
        assert(r[k] == v[i] && r[l] == v[j]);
    }
}

proof fn lemma_roots_cover(v: Seq<Seq<char>>)
    ensures
        forall|i: int|
            0 <= i < v.len() ==> exists|k: int| 0 <= k < roots_from_spec(v).len() && path_starts_with(#[trigger] v[i], roots_from_spec(v)[k]),
{
    let n = v.len() as int;
    let d = dedup_paths(v, n);
    let r = outermost(d, d.len() as int);
    assert(roots_from_spec(v) == r);
    assert forall|i: int| 0 <= i < v.len() implies exists|k: int| 0 <= k < r.len() && path_starts_with(#[trigger] v[i], r[k]) by {
        lemma_dedup_covers(v, n, i);
        let x = choose|x: int| 0 <= x < d.len() && #[trigger] same_path(d[x], v[i]);
        lemma_reaches_outermost(d, x);
        let k = choose|k: int| 0 <= k < r.len() && path_starts_with(d[x], #[trigger] r[k]);
        lemma_starts_trans(v[i], d[x], r[k]);
    }
}

proof fn lemma_dedup_members(v: Seq<Seq<char>>, n: int)
    requires
        0 <= n <= v.len(),
    ensures
        forall|k: int| 0 <= k < dedup_paths(v, n).len() ==> exists|i: int| 0 <= i < n && #[trigger] dedup_paths(v, n)[k] == v[i],
        forall|k: int, l: int|
            0 <= k < l < dedup_paths(v, n).len() ==> exists|i: int, j: int|
                0 <= i < j < n && #[trigger] dedup_paths(v, n)[k] == v[i] && #[trigger] dedup_paths(v, n)[l] == v[j],
    decreases n,
{
    if n > 0 {
        lemma_dedup_members(v, n - 1);
        let prev = dedup_paths(v, n - 1);
        let cur = dedup_paths(v, n);
        if !exists|j: int| 0 <= j < prev.len() && #[trigger] same_path(prev[j], v[n - 1]) {
            assert(cur == prev.push(v[n - 1]));
            assert forall|k: int| 0 <= k < cur.len() implies exists|i: int| 0 <= i < n && #[trigger] cur[k] == v[i] by {
                if k == prev.len() {
                    assert(cur[k] == v[n - 1]);
                } else {
                    let i = choose|i: int| 0 <= i < n - 1 && #[trigger] prev[k] == v[i];
                    assert(cur[k] == v[i]);
                }
            }
            assert forall|k: int, l: int| 0 <= k < l < cur.len() implies exists|i: int, j: int|
                0 <= i < j < n && #[trigger] cur[k] == v[i] && #[trigger] cur[l] == v[j] by {
                if l == prev.len() {
                    let i = choose|i: int| 0 <= i < n - 1 && #[trigger] prev[k] == v[i];
                    assert(cur[k] == v[i] && cur[l] == v[n - 1]);
                } else {
                    let (i, j) = choose|i: int, j: int| 0 <= i < j < n - 1 && #[trigger] prev[k] == v[i] && #[trigger] prev[l] == v[j];
                    assert(cur[k] == v[i] && cur[l] == v[j]);
                }
            }
        }
    }
}

proof fn lemma_dedup_covers(v: Seq<Seq<char>>, n: int, i: int)
    requires
        0 <= i < n <= v.len(),
    ensures
        exists|x: int| 0 <= x < dedup_paths(v, n).len() && #[trigger] same_path(dedup_paths(v, n)[x], v[i]),
    decreases n,
{
    let prev = dedup_paths(v, n - 1);
    let cur = dedup_paths(v, n);
    if exists|j: int| 0 <= j < prev.len() && #[trigger] same_path(prev[j], v[n - 1]) {
        assert(cur == prev);
        if i == n - 1 {
            let j = choose|j: int| 0 <= j < prev.len() && #[trigger] same_path(prev[j], v[n - 1]);
            assert(same_path(cur[j], v[i]));
        } else {
            lemma_dedup_covers(v, n - 1, i);
        }
    } else {
        assert(cur == prev.push(v[n - 1]));
        if i == n - 1 {
            crate::path::lemma_same_path_refl(v[i]);
            assert(same_path(cur[prev.len() as int], v[i]));
        } else {
            lemma_dedup_covers(v, n - 1, i);
            let x = choose|x: int| 0 <= x < prev.len() && #[trigger] same_path(prev[x], v[i]);
            assert(cur[x] == prev[x]);
            assert(same_path(cur[x], v[i]));
        }
    }
}

proof fn lemma_starts_trans(a: Seq<char>, b: Seq<char>, c: Seq<char>)
    requires
        path_starts_with(a, b),
        path_starts_with(b, c),
    ensures
        path_starts_with(a, c),
{
    let lc = comps(c).len() as int;
    let lb = comps(b).len() as int;
    assert(comps(a).take(lc) =~= comps(a).take(lb).take(lc));
    assert(comps(b).take(lc) == comps(c));
}

/// An entry that is not outermost lies inside an entry with fewer components.
proof fn lemma_nested_is_shorter(p: Seq<char>, base: Seq<char>)
    requires
        path_starts_with(p, base),
        !same_path(base, p),
    ensures
        comps(base).len() < comps(p).len(),
{
    if comps(base).len() == comps(p).len() {
        assert(comps(p).take(comps(base).len() as int) =~= comps(p));
        assert(comps(base).take(comps(p).len() as int) =~= comps(base));
    }
}

proof fn lemma_outermost_keeps(d: Seq<Seq<char>>, n: int, x: int)
    requires
        0 <= x < n <= d.len(),
        !nested_in_other(d, d[x]),
    ensures
        outermost(d, n).contains(d[x]),
    decreases n,
{
    if x < n - 1 {
        lemma_outermost_keeps(d, n - 1, x);
        let prev = outermost(d, n - 1);
        let j = choose|j: int| 0 <= j < prev.len() && prev[j] == d[x];
        if !nested_in_other(d, d[n - 1]) {
            assert(outermost(d, n)[j] == d[x]);
        }
    } else {
        assert(outermost(d, n)[outermost(d, n).len() - 1] == d[x]);
    }
}

proof fn lemma_reaches_outermost(d: Seq<Seq<char>>, x: int)
    requires
        0 <= x < d.len(),
    ensures
        exists|k: int|
            0 <= k < outermost(d, d.len() as int).len() && path_starts_with(d[x], #[trigger] outermost(d, d.len() as int)[k]),
    decreases comps(d[x]).len(),
{
    let r = outermost(d, d.len() as int);
    if nested_in_other(d, d[x]) {
        let m = choose|m: int| 0 <= m < d.len() && !same_path(#[trigger] d[m], d[x]) && path_starts_with(d[x], d[m]);
        lemma_nested_is_shorter(d[x], d[m]);
        lemma_reaches_outermost(d, m);
        let k = choose|k: int| 0 <= k < r.len() && path_starts_with(d[m], #[trigger] r[k]);
        lemma_starts_trans(d[x], d[m], r[k]);
    } else {
        lemma_outermost_keeps(d, d.len() as int, x);
        let k = choose|k: int| 0 <= k < r.len() && r[k] == d[x];
        crate::path::lemma_same_path_refl(d[x]);
        assert(path_starts_with(d[x], r[k]));
    }
}

proof fn lemma_dedup_distinct(v: Seq<Seq<char>>, n: int)
    ensures
        forall|i: int, j: int|
            0 <= i < j < dedup_paths(v, n).len() ==> !same_path(#[trigger] dedup_paths(v, n)[i], #[trigger] dedup_paths(v, n)[j]),
    decreases n,
{
    if n > 0 {
        lemma_dedup_distinct(v, n - 1);
        let prev = dedup_paths(v, n - 1);
        if !(exists|j: int| 0 <= j < prev.len() && #[trigger] same_path(prev[j], v[n - 1])) {
            let cur = prev.push(v[n - 1]);
            assert forall|i: int, j: int| 0 <= i < j < cur.len() implies !same_path(#[trigger] cur[i], #[trigger] cur[j]) by {
                if j < prev.len() {
                    assert(cur[i] == prev[i] && cur[j] == prev[j]);
                } else {
                    assert(cur[i] == prev[i]);
                    assert(!same_path(prev[i], v[n - 1]));
                }
            }
        }
    }
}

proof fn lemma_outermost(d: Seq<Seq<char>>, n: int)
    requires
        0 <= n <= d.len(),
        forall|i: int, j: int| 0 <= i < j < d.len() ==> !same_path(#[trigger] d[i], #[trigger] d[j]),
    ensures
        forall|k: int| 0 <= k < outermost(d, n).len() ==> exists|i: int| 0 <= i < n && #[trigger] outermost(d, n)[k] == d[i],
        forall|k: int| 0 <= k < outermost(d, n).len() ==> !nested_in_other(d, #[trigger] outermost(d, n)[k]),
        forall|k: int, l: int|
            0 <= k < l < outermost(d, n).len() ==> exists|i: int, j: int|
                0 <= i < j < n && #[trigger] outermost(d, n)[k] == d[i] && #[trigger] outermost(d, n)[l] == d[j],
        forall|i: int, j: int|
            0 <= i < outermost(d, n).len() && 0 <= j < outermost(d, n).len() && i != j ==> !same_path(
                #[trigger] outermost(d, n)[i],
                #[trigger] outermost(d, n)[j],
            ) && !path_starts_with(outermost(d, n)[i], outermost(d, n)[j]),
    decreases n,
{
    if n > 0 {
        lemma_outermost(d, n - 1);
        let prev = outermost(d, n - 1);
        if !nested_in_other(d, d[n - 1]) {
            let cur = prev.push(d[n - 1]);
            assert forall|k: int| 0 <= k < cur.len() implies exists|i: int| 0 <= i < n && #[trigger] cur[k] == d[i] by {
                if k == prev.len() {
                    assert(cur[k] == d[n - 1]);
                }
            }
            assert forall|k: int, l: int| 0 <= k < l < cur.len() implies exists|i: int, j: int|
                0 <= i < j < n && #[trigger] cur[k] == d[i] && #[trigger] cur[l] == d[j] by {
                if l == prev.len() {
                    let i = choose|i: int| 0 <= i < n - 1 && #[trigger] prev[k] == d[i];
                    assert(cur[k] == d[i] && cur[l] == d[n - 1]);
                }
            }
            assert forall|i: int, j: int| 0 <= i < cur.len() && 0 <= j < cur.len() && i != j implies !same_path(
                #[trigger] cur[i],
                #[trigger] cur[j],
            ) && !path_starts_with(cur[i], cur[j]) by {
                let ii = choose|x: int| 0 <= x < n && #[trigger] cur[i] == d[x];
                let jj = choose|x: int| 0 <= x < n && #[trigger] cur[j] == d[x];
                if i < j {
                    let (a, b) = choose|a: int, b: int| 0 <= a < b < n && #[trigger] cur[i] == d[a] && #[trigger] cur[j] == d[b];
                    assert(!same_path(d[a], d[b]));
                } else {
                    let (a, b) = choose|a: int, b: int| 0 <= a < b < n && #[trigger] cur[j] == d[a] && #[trigger] cur[i] == d[b];
                    assert(!same_path(d[a], d[b]));
                }
                assert(!nested_in_other(d, cur[i]));
                if path_starts_with(cur[i], cur[j]) {
                    assert(!same_path(d[jj], cur[i]));
                    assert(nested_in_other(d, cur[i]));
                }
            }
        }
    }
}


// ---- the walk -----------------------------------------------------------------------------------

/// Whether the walk enters a directory entry: only a real directory (a symlink is never
/// followed), never `.git` itself, and never a hard-excluded name (rule 1: hard excludes prune
/// unconditionally).
pub open spec fn enters(entry: DirEntryInfo, excludes: Seq<Seq<char>>) -> bool {
    entry.is_dir && !entry.is_symlink && entry.name@ != ".git"@ && !excludes.contains(entry.name@)
}

fn contains_name(v: &Vec<String>, x: &str) -> (r: bool)
    ensures
        r == views_of(v@).contains(x@),
{
    let mut i: usize = 0;
    while i < v.len()
        invariant
            i <= v@.len(),
            forall|k: int| 0 <= k < i ==> v@[k]@ != x@,
        decreases v.len() - i,
    {
        if str_eq(v[i].as_str(), x) {
            assert(views_of(v@)[i as int] == x@);
            return true;
        }
        i += 1;
    }
    assert(!views_of(v@).contains(x@)) by {
        if views_of(v@).contains(x@) {
            let k = choose|k: int| 0 <= k < views_of(v@).len() && views_of(v@)[k] == x@;
            assert(v@[k]@ == x@);
        }
    }
    false
}

/// Whether the walk enters a directory entry.
pub fn descends_into(entry: &DirEntryInfo, excludes: &Vec<String>) -> (r: bool)
    ensures
        r == enters(*entry, views_of(excludes@)),
{
    entry.is_dir && !entry.is_symlink && !str_eq(entry.name.as_str(), ".git") && !contains_name(
        excludes,
        entry.name.as_str(),
    )
}

/// The walk's record so far: no place reported twice, every repo found under one of `roots`,
/// and only a scan start itself reported as `Root`.
pub open spec fn walk_ok(out: Seq<RepoRoot>, roots: Seq<Seq<char>>) -> bool {
    &&& forall|i: int, j: int|
        0 <= i < j < out.len() ==> !same_path((#[trigger] out[i]).path@, (#[trigger] out[j]).path@)
    &&& forall|i: int| 0 <= i < out.len() ==> roots.contains((#[trigger] out[i]).scan_root@)
    &&& forall|i: int|
        0 <= i < out.len() && (#[trigger] out[i]).kind == RepoKind::Root ==> same_path(out[i].path@, out[i].scan_root@)
}

// ---- the walk, as a function of what the seams answered -----------------------------------------

/// What the seams were asked during a walk and what they answered, in the order the walk asked:
/// the shapes of `.git` (`Fs::dot_git`, asked about a directory), directory listings
/// (`Fs::read_dir`, asked about a directory; `None` for a read error), `.gitmodules` texts
/// (`Fs::read_to_string`, asked about a file; `None` for a read error) and gitignore verdicts
/// (`IgnoreOracle::is_ignored_dir`, asked about an enclosing repo and a directory).
pub type SeamAnswers = (
    Seq<(Seq<char>, Option<DotGit>)>,
    Seq<(Seq<char>, Option<Seq<DirEntryInfo>>)>,
    Seq<(Seq<char>, Option<Seq<char>>)>,
    Seq<(Option<Seq<char>>, Seq<char>, bool)>,
);

/// The repos found so far, by view: path, scan start, kind.
pub type FoundV = Seq<(Seq<char>, Seq<char>, RepoKind)>;

/// The `.gitmodules` cache, by view: repo path and the submodule paths it declares.
pub type CacheV = Seq<(Seq<char>, Seq<Seq<char>>)>;

pub open spec fn no_answers() -> SeamAnswers {
    (Seq::empty(), Seq::empty(), Seq::empty(), Seq::empty())
}

/// The answers of `a`, then those of `b`.
pub open spec fn concat_answers(a: SeamAnswers, b: SeamAnswers) -> SeamAnswers {
    (a.0 + b.0, a.1 + b.1, a.2 + b.2, a.3 + b.3)
}

/// `Fs::dot_git` asked about `dir`, answering `d`.
pub open spec fn dot_git_answer(dir: Seq<char>, d: Option<DotGit>) -> SeamAnswers {
    (seq![(dir, d)], Seq::empty(), Seq::empty(), Seq::empty())
}

/// `Fs::read_dir` asked about `dir`, answering `l`.
pub open spec fn listing_answer(dir: Seq<char>, l: Option<Seq<DirEntryInfo>>) -> SeamAnswers {
    (Seq::empty(), seq![(dir, l)], Seq::empty(), Seq::empty())
}

/// `Fs::read_to_string` asked about `file`, answering `t`.
pub open spec fn text_answer(file: Seq<char>, t: Option<Seq<char>>) -> SeamAnswers {
    (Seq::empty(), Seq::empty(), seq![(file, t)], Seq::empty())
}

/// `IgnoreOracle::is_ignored_dir` asked about `dir` under `enclosing`, answering `g`.
pub open spec fn ignore_answer(enclosing: Option<Seq<char>>, dir: Seq<char>, g: bool) -> SeamAnswers {
    (Seq::empty(), Seq::empty(), Seq::empty(), seq![(enclosing, dir, g)])
}

/// The answer to "the shape of `dir/.git`", when the next recorded `.git` answer is about `dir`,
/// and the answers after it.
pub open spec fn next_dot_git(a: SeamAnswers, dir: Seq<char>) -> (Option<DotGit>, SeamAnswers) {
    if a.0.len() > 0 && a.0[0].0 == dir {
        (a.0[0].1, (a.0.drop_first(), a.1, a.2, a.3))
    } else {
        (None, a)
    }
}

/// The answer to "the entries of `dir`", when the next recorded listing is of `dir`, and the
/// answers after it.
pub open spec fn next_listing(a: SeamAnswers, dir: Seq<char>) -> (Option<Seq<DirEntryInfo>>, SeamAnswers) {
    if a.1.len() > 0 && a.1[0].0 == dir {
        (a.1[0].1, (a.0, a.1.drop_first(), a.2, a.3))
    } else {
        (None, a)
    }
}

/// The answer to "the text of `file`", when the next recorded text is of `file`, and the
/// answers after it.
pub open spec fn next_text(a: SeamAnswers, file: Seq<char>) -> (Option<Seq<char>>, SeamAnswers) {
    if a.2.len() > 0 && a.2[0].0 == file {
        (a.2[0].1, (a.0, a.1, a.2.drop_first(), a.3))
    } else {
        (None, a)
    }
}

/// The answer to "is `dir` ignored under `enclosing`", when the next recorded verdict is about
/// exactly that, and the answers after it.
pub open spec fn next_ignored(a: SeamAnswers, enclosing: Option<Seq<char>>, dir: Seq<char>) -> (bool, SeamAnswers) {
    if a.3.len() > 0 && a.3[0].0 == enclosing && a.3[0].1 == dir {
        (a.3[0].2, (a.0, a.1, a.2, a.3.drop_first()))
    } else {
        (false, a)
    }
}

pub open spec fn found_view(out: Seq<RepoRoot>) -> FoundV {
    out.map_values(|r: RepoRoot| (r.path@, r.scan_root@, r.kind))
}

pub open spec fn cache_view(c: Seq<(String, Vec<String>)>) -> CacheV {
    c.map_values(|e: (String, Vec<String>)| (e.0@, views_of(e.1@)))
}

/// Record a repo unless one at the same place is already recorded.
pub open spec fn record(found: FoundV, path: Seq<char>, root: Seq<char>, kind: RepoKind) -> FoundV {
    if exists|j: int| 0 <= j < found.len() && same_path(#[trigger] found[j].0, path) {
        found
    } else {
        found.push((path, root, kind))
    }
}

/// The cached submodule list of the first entry from `i` on that names the same place as `repo`.
pub open spec fn cached(c: CacheV, repo: Seq<char>, i: int) -> Option<Seq<Seq<char>>>
    decreases c.len() - i,
{
    if i < 0 || i >= c.len() {
        None
    } else if same_path(c[i].0, repo) {
        Some(c[i].1)
    } else {
        cached(c, repo, i + 1)
    }
}

/// The submodule paths a `.gitmodules` text declares, in order, each once.
pub open spec fn declared_paths(text: Seq<char>) -> Seq<Seq<char>> {
    choose|s: Seq<Seq<char>>| strictly_sorted(s) && forall|p: Seq<char>| #[trigger] s.contains(p) == declares(text, p)
}

/// `repo`'s submodule paths: from the cache when it knows the place, else parsed from the next
/// `.gitmodules` text (an unreadable file counting as empty) and cached.
pub open spec fn submodules_spec(a: SeamAnswers, c: CacheV, repo: Seq<char>) -> (Seq<Seq<char>>, CacheV, SeamAnswers) {
    match cached(c, repo, 0) {
        Some(v) => (v, c, a),
        None => {
            let t = next_text(a, join_spec(repo, ".gitmodules"@));
            let parsed = declared_paths(
                match t.0 {
                    Some(x) => x,
                    None => Seq::empty(),
                },
            );
            (parsed, c.push((repo, parsed)), t.1)
        },
    }
}

/// Record the declared submodules `subs[i..]` of `repo` that have a `.git`.
pub open spec fn declared_from(
    a: SeamAnswers,
    repo: Seq<char>,
    subs: Seq<Seq<char>>,
    i: int,
    root: Seq<char>,
    found: FoundV,
) -> (FoundV, SeamAnswers)
    decreases subs.len() - i,
{
    if i < 0 || i >= subs.len() {
        (found, a)
    } else {
        let d = next_dot_git(a, join_spec(repo, subs[i]));
        let f1 = if d.0 is Some {
            record(found, join_spec(repo, subs[i]), root, RepoKind::Submodule)
        } else {
            found
        };
        declared_from(d.1, repo, subs, i + 1, root, f1)
    }
}

/// Record `repo`'s initialized declared submodules.
pub open spec fn declared_spec(a: SeamAnswers, repo: Seq<char>, root: Seq<char>, found: FoundV, c: CacheV) -> (
    FoundV,
    CacheV,
    SeamAnswers,
) {
    let s = submodules_spec(a, c, repo);
    let d = declared_from(s.2, repo, s.0, 0, root, found);
    (d.0, s.1, d.1)
}

/// One directory of the walk: record it when it is a repo (with its declared submodules); stop
/// there in ignored mode; otherwise list it, unless the depth limit is reached.
pub open spec fn visit_spec(
    a: SeamAnswers,
    limit: int,
    excludes: Seq<Seq<char>>,
    root: Seq<char>,
    dir: Seq<char>,
    depth: int,
    ignored: bool,
    enclosing: Option<Seq<char>>,
    found: FoundV,
    c: CacheV,
) -> (FoundV, CacheV, SeamAnswers)
    decreases limit - depth, 2int, 0int,
{
    let d = next_dot_git(a, dir);
    match d.0 {
        Some(g) => {
            let rel = match enclosing {
                Some(e) => rel_slash_spec(dir, e),
                None => None,
            };
            let s = match enclosing {
                Some(e) => submodules_spec(d.1, c, e),
                None => (Seq::empty(), c, d.1),
            };
            let kind = classify_spec(same_path(dir, root), g, rel, s.0);
            let r = declared_spec(s.2, dir, root, record(found, dir, root, kind), s.1);
            if ignored {
                r
            } else {
                listing_spec(r.2, limit, excludes, root, dir, depth, ignored, Some(dir), r.0, r.1)
            }
        },
        None => listing_spec(d.1, limit, excludes, root, dir, depth, ignored, enclosing, found, c),
    }
}

/// List a directory and visit the entries the walk enters, unless the depth limit is reached or
/// the listing failed.
pub open spec fn listing_spec(
    a: SeamAnswers,
    limit: int,
    excludes: Seq<Seq<char>>,
    root: Seq<char>,
    dir: Seq<char>,
    depth: int,
    ignored: bool,
    here: Option<Seq<char>>,
    found: FoundV,
    c: CacheV,
) -> (FoundV, CacheV, SeamAnswers)
    decreases limit - depth, 1int, 0int,
{
    if depth >= limit {
        (found, c, a)
    } else {
        let l = next_listing(a, dir);
        match l.0 {
            None => (found, c, l.1),
            Some(es) => entries_spec(l.1, limit, excludes, root, dir, depth, ignored, here, es, 0, found, c),
        }
    }
}

/// Visit the entries `es[i..]` of `dir` that the walk enters; entering an ignored directory
/// switches on ignored mode for its subtree.
pub open spec fn entries_spec(
    a: SeamAnswers,
    limit: int,
    excludes: Seq<Seq<char>>,
    root: Seq<char>,
    dir: Seq<char>,
    depth: int,
    ignored: bool,
    here: Option<Seq<char>>,
    es: Seq<DirEntryInfo>,
    i: int,
    found: FoundV,
    c: CacheV,
) -> (FoundV, CacheV, SeamAnswers)
    decreases limit - depth, 0int, es.len() - i,
{
    if i < 0 || i >= es.len() || depth >= limit {
        (found, c, a)
    } else if enters(es[i], excludes) {
        let g = if ignored {
            (true, a)
        } else {
            next_ignored(a, here, join_spec(dir, es[i].name@))
        };
        let v = visit_spec(g.1, limit, excludes, root, join_spec(dir, es[i].name@), depth + 1, g.0, here, found, c);
        entries_spec(v.2, limit, excludes, root, dir, depth, ignored, here, es, i + 1, v.0, v.1)
    } else {
        entries_spec(a, limit, excludes, root, dir, depth, ignored, here, es, i + 1, found, c)
    }
}

/// Walk the scan starts `roots[i..]`, each with a fresh `.gitmodules` cache.
pub open spec fn scan_from(
    a: SeamAnswers,
    roots: Seq<Seq<char>>,
    limit: int,
    excludes: Seq<Seq<char>>,
    i: int,
    found: FoundV,
) -> (FoundV, SeamAnswers)
    decreases roots.len() - i,
{
    if i < 0 || i >= roots.len() {
        (found, a)
    } else {
        let v = visit_spec(a, limit, excludes, roots[i], roots[i], 0, false, None, found, Seq::empty());
        scan_from(v.2, roots, limit, excludes, i + 1, v.0)
    }
}

/// `root` followed by the names of `names`, one directory level each.
pub open spec fn spell(root: Seq<char>, names: Seq<DirEntryInfo>) -> Seq<char>
    decreases names.len(),
{
    if names.len() == 0 {
        root
    } else {
        join_spec(spell(root, names.drop_last()), names.last().name@)
    }
}

/// Whether the walk reaches `p` from `root`: through at most `limit` directory entries, each one
/// the walk enters (a real directory, not a symlink, not `.git`, not an excluded name).
pub open spec fn walked_to(root: Seq<char>, p: Seq<char>, limit: int, excludes: Seq<Seq<char>>) -> bool {
    exists|names: Seq<DirEntryInfo>|
        names.len() <= limit && (forall|k: int| 0 <= k < names.len() ==> enters(#[trigger] names[k], excludes)) && p
            == #[trigger] spell(root, names)
}

/// Every repo found, unless it is a submodule, is one the walk reached from its scan start.
pub open spec fn found_by_walking(found: FoundV, limit: int, excludes: Seq<Seq<char>>) -> bool {
    forall|j: int|
        0 <= j < found.len() ==> (#[trigger] found[j]).2 == RepoKind::Submodule || walked_to(
            found[j].1,
            found[j].0,
            limit,
            excludes,
        )
}

proof fn lemma_record_walks(found: FoundV, dir: Seq<char>, root: Seq<char>, kind: RepoKind, limit: int, excludes: Seq<Seq<char>>)
    requires
        found_by_walking(found, limit, excludes),
        kind == RepoKind::Submodule || walked_to(root, dir, limit, excludes),
    ensures
        found_by_walking(record(found, dir, root, kind), limit, excludes),
{
    let r = record(found, dir, root, kind);
    if r != found {
        assert forall|j: int| 0 <= j < r.len() implies (#[trigger] r[j]).2 == RepoKind::Submodule || walked_to(
            r[j].1,
            r[j].0,
            limit,
            excludes,
        ) by {
            if j < found.len() {
                assert(r[j] == found[j]);
            }
        }
    }
}

proof fn lemma_declared_from_walks(
    a: SeamAnswers,
    repo: Seq<char>,
    subs: Seq<Seq<char>>,
    i: int,
    root: Seq<char>,
    found: FoundV,
    limit: int,
    excludes: Seq<Seq<char>>,
)
    requires
        found_by_walking(found, limit, excludes),
    ensures
        found_by_walking(declared_from(a, repo, subs, i, root, found).0, limit, excludes),
    decreases subs.len() - i,
{
    if 0 <= i < subs.len() {
        let d = next_dot_git(a, join_spec(repo, subs[i]));
        if d.0 is Some {
            lemma_record_walks(found, join_spec(repo, subs[i]), root, RepoKind::Submodule, limit, excludes);
        }
        let f1 = if d.0 is Some {
            record(found, join_spec(repo, subs[i]), root, RepoKind::Submodule)
        } else {
            found
        };
        lemma_declared_from_walks(d.1, repo, subs, i + 1, root, f1, limit, excludes);
    }
}

proof fn lemma_visit_walks(
    a: SeamAnswers,
    limit: int,
    excludes: Seq<Seq<char>>,
    root: Seq<char>,
    dir: Seq<char>,
    depth: int,
    ignored: bool,
    enclosing: Option<Seq<char>>,
    found: FoundV,
    c: CacheV,
    names: Seq<DirEntryInfo>,
)
    requires
        found_by_walking(found, limit, excludes),
        0 <= depth <= limit,
        names.len() == depth,
        forall|k: int| 0 <= k < names.len() ==> enters(#[trigger] names[k], excludes),
        dir == spell(root, names),
    ensures
        found_by_walking(visit_spec(a, limit, excludes, root, dir, depth, ignored, enclosing, found, c).0, limit, excludes),
    decreases limit - depth, 2int, 0int,
{
    let d = next_dot_git(a, dir);
    match d.0 {
        Some(g) => {
            let rel = match enclosing {
                Some(e) => rel_slash_spec(dir, e),
                None => None,
            };
            let s = match enclosing {
                Some(e) => submodules_spec(d.1, c, e),
                None => (Seq::empty(), c, d.1),
            };
            let kind = classify_spec(same_path(dir, root), g, rel, s.0);
            assert(walked_to(root, dir, limit, excludes));
            lemma_record_walks(found, dir, root, kind, limit, excludes);
            let f1 = record(found, dir, root, kind);
            let sub = submodules_spec(s.2, s.1, dir);
            lemma_declared_from_walks(sub.2, dir, sub.0, 0, root, f1, limit, excludes);
            let r = declared_spec(s.2, dir, root, f1, s.1);
            if !ignored {
                lemma_listing_walks(r.2, limit, excludes, root, dir, depth, ignored, Some(dir), r.0, r.1, names);
            }
        },
        None => {
            lemma_listing_walks(d.1, limit, excludes, root, dir, depth, ignored, enclosing, found, c, names);
        },
    }
}

proof fn lemma_listing_walks(
    a: SeamAnswers,
    limit: int,
    excludes: Seq<Seq<char>>,
    root: Seq<char>,
    dir: Seq<char>,
    depth: int,
    ignored: bool,
    here: Option<Seq<char>>,
    found: FoundV,
    c: CacheV,
    names: Seq<DirEntryInfo>,
)
    requires
        found_by_walking(found, limit, excludes),
        0 <= depth <= limit,
        names.len() == depth,
        forall|k: int| 0 <= k < names.len() ==> enters(#[trigger] names[k], excludes),
        dir == spell(root, names),
    ensures
        found_by_walking(listing_spec(a, limit, excludes, root, dir, depth, ignored, here, found, c).0, limit, excludes),
    decreases limit - depth, 1int, 0int,
{
    if depth < limit {
        let l = next_listing(a, dir);
        if let Some(es) = l.0 {
            lemma_entries_walks(l.1, limit, excludes, root, dir, depth, ignored, here, es, 0, found, c, names);
        }
    }
}

proof fn lemma_entries_walks(
    a: SeamAnswers,
    limit: int,
    excludes: Seq<Seq<char>>,
    root: Seq<char>,
    dir: Seq<char>,
    depth: int,
    ignored: bool,
    here: Option<Seq<char>>,
    es: Seq<DirEntryInfo>,
    i: int,
    found: FoundV,
    c: CacheV,
    names: Seq<DirEntryInfo>,
)
    requires
        found_by_walking(found, limit, excludes),
        0 <= depth <= limit,
        names.len() == depth,
        forall|k: int| 0 <= k < names.len() ==> enters(#[trigger] names[k], excludes),
        dir == spell(root, names),
    ensures
        found_by_walking(entries_spec(a, limit, excludes, root, dir, depth, ignored, here, es, i, found, c).0, limit, excludes),
    decreases limit - depth, 0int, es.len() - i,
{
    if 0 <= i < es.len() && depth < limit {
        if enters(es[i], excludes) {
            let g = if ignored {
                (true, a)
            } else {
                next_ignored(a, here, join_spec(dir, es[i].name@))
            };
            let child_names = names.push(es[i]);
            assert(child_names.drop_last() =~= names);
            assert forall|k: int| 0 <= k < child_names.len() implies enters(#[trigger] child_names[k], excludes) by {
                if k < names.len() {
                    assert(child_names[k] == names[k]);
                }
            }
            assert(spell(root, child_names) == join_spec(dir, es[i].name@));
            lemma_visit_walks(g.1, limit, excludes, root, join_spec(dir, es[i].name@), depth + 1, g.0, here, found, c, child_names);
            let v = visit_spec(g.1, limit, excludes, root, join_spec(dir, es[i].name@), depth + 1, g.0, here, found, c);
            lemma_entries_walks(v.2, limit, excludes, root, dir, depth, ignored, here, es, i + 1, v.0, v.1, names);
        } else {
            lemma_entries_walks(a, limit, excludes, root, dir, depth, ignored, here, es, i + 1, found, c, names);
        }
    }
}

/// Law: whatever the seams answer, every repo the walk reports — unless it is a submodule, which
/// is found from its parent's `.gitmodules` regardless of depth and names — was reached from its
/// scan start through at most the depth limit of directory levels, each a real directory (no
/// symlink) that is neither `.git` nor an excluded name.
pub proof fn law_every_repo_but_a_submodule_was_walked_to(
    a: SeamAnswers,
    roots: Seq<Seq<char>>,
    limit: int,
    excludes: Seq<Seq<char>>,
    i: int,
    found: FoundV,
)
    requires
        0 <= limit,
        found_by_walking(found, limit, excludes),
    ensures
        found_by_walking(scan_from(a, roots, limit, excludes, i, found).0, limit, excludes),
    decreases roots.len() - i,
{
    if 0 <= i < roots.len() {
        let none = Seq::<DirEntryInfo>::empty();
        assert(spell(roots[i], none) == roots[i]);
        lemma_visit_walks(a, limit, excludes, roots[i], roots[i], 0, false, None, found, Seq::empty(), none);
        let v = visit_spec(a, limit, excludes, roots[i], roots[i], 0, false, None, found, Seq::empty());
        law_every_repo_but_a_submodule_was_walked_to(v.2, roots, limit, excludes, i + 1, v.0);
    }
}

proof fn lemma_concat_assoc(a: SeamAnswers, b: SeamAnswers, c: SeamAnswers)
    ensures
        concat_answers(concat_answers(a, b), c) == concat_answers(a, concat_answers(b, c)),
{
    assert(a.0 + b.0 + c.0 =~= a.0 + (b.0 + c.0));
    assert(a.1 + b.1 + c.1 =~= a.1 + (b.1 + c.1));
    assert(a.2 + b.2 + c.2 =~= a.2 + (b.2 + c.2));
    assert(a.3 + b.3 + c.3 =~= a.3 + (b.3 + c.3));
}

proof fn lemma_concat_none(k: SeamAnswers)
    ensures
        concat_answers(no_answers(), k) == k,
        concat_answers(k, no_answers()) == k,
{
    assert(Seq::<(Seq<char>, Option<DotGit>)>::empty() + k.0 =~= k.0);
    assert(Seq::<(Seq<char>, Option<Seq<DirEntryInfo>>)>::empty() + k.1 =~= k.1);
    assert(Seq::<(Seq<char>, Option<Seq<char>>)>::empty() + k.2 =~= k.2);
    assert(Seq::<(Option<Seq<char>>, Seq<char>, bool)>::empty() + k.3 =~= k.3);
    assert(k.0 + Seq::<(Seq<char>, Option<DotGit>)>::empty() =~= k.0);
    assert(k.1 + Seq::<(Seq<char>, Option<Seq<DirEntryInfo>>)>::empty() =~= k.1);
    assert(k.2 + Seq::<(Seq<char>, Option<Seq<char>>)>::empty() =~= k.2);
    assert(k.3 + Seq::<(Option<Seq<char>>, Seq<char>, bool)>::empty() =~= k.3);
}

proof fn lemma_next_dot_git(k: SeamAnswers, dir: Seq<char>, d: Option<DotGit>)
    ensures
        next_dot_git(concat_answers(dot_git_answer(dir, d), k), dir) == (d, k),
{
    assert((seq![(dir, d)] + k.0).drop_first() =~= k.0);
    assert(Seq::<(Seq<char>, Option<Seq<DirEntryInfo>>)>::empty() + k.1 =~= k.1);
    assert(Seq::<(Seq<char>, Option<Seq<char>>)>::empty() + k.2 =~= k.2);
    assert(Seq::<(Option<Seq<char>>, Seq<char>, bool)>::empty() + k.3 =~= k.3);
}

proof fn lemma_next_listing(k: SeamAnswers, dir: Seq<char>, l: Option<Seq<DirEntryInfo>>)
    ensures
        next_listing(concat_answers(listing_answer(dir, l), k), dir) == (l, k),
{
    assert((seq![(dir, l)] + k.1).drop_first() =~= k.1);
    assert(Seq::<(Seq<char>, Option<DotGit>)>::empty() + k.0 =~= k.0);
    assert(Seq::<(Seq<char>, Option<Seq<char>>)>::empty() + k.2 =~= k.2);
    assert(Seq::<(Option<Seq<char>>, Seq<char>, bool)>::empty() + k.3 =~= k.3);
}

proof fn lemma_next_text(k: SeamAnswers, file: Seq<char>, t: Option<Seq<char>>)
    ensures
        next_text(concat_answers(text_answer(file, t), k), file) == (t, k),
{
    assert((seq![(file, t)] + k.2).drop_first() =~= k.2);
    assert(Seq::<(Seq<char>, Option<DotGit>)>::empty() + k.0 =~= k.0);
    assert(Seq::<(Seq<char>, Option<Seq<DirEntryInfo>>)>::empty() + k.1 =~= k.1);
    assert(Seq::<(Option<Seq<char>>, Seq<char>, bool)>::empty() + k.3 =~= k.3);
}

proof fn lemma_next_ignored(k: SeamAnswers, enclosing: Option<Seq<char>>, dir: Seq<char>, g: bool)
    ensures
        next_ignored(concat_answers(ignore_answer(enclosing, dir, g), k), enclosing, dir) == (g, k),
{
    assert((seq![(enclosing, dir, g)] + k.3).drop_first() =~= k.3);
    assert(Seq::<(Seq<char>, Option<DotGit>)>::empty() + k.0 =~= k.0);
    assert(Seq::<(Seq<char>, Option<Seq<DirEntryInfo>>)>::empty() + k.1 =~= k.1);
    assert(Seq::<(Seq<char>, Option<Seq<char>>)>::empty() + k.2 =~= k.2);
}

/// Two strictly sorted lists with the same members are the same list.
proof fn lemma_strictly_sorted_unique(a: Seq<Seq<char>>, b: Seq<Seq<char>>)
    requires
        strictly_sorted(a),
        strictly_sorted(b),
        forall|p: Seq<char>| a.contains(p) == b.contains(p),
    ensures
        a == b,
    decreases a.len(),
{
    if a.len() == 0 {
        if b.len() > 0 {
            assert(b.contains(b[0]));
        }
        assert(a =~= b);
    } else if b.len() == 0 {
        assert(a.contains(a[0]));
    } else {
        if a[0] != b[0] {
            assert(a.contains(a[0]));
            assert(b.contains(b[0]));
            let j = choose|j: int| 0 <= j < b.len() && b[j] == a[0];
            let i = choose|i: int| 0 <= i < a.len() && a[i] == b[0];
            assert(j > 0 && i > 0);
            assert(seq_lt(b[0], b[j]));
            assert(seq_lt(a[0], a[i]));
            lemma_lt_asym(a[0], b[0], 0);
        }
        let a1 = a.drop_first();
        let b1 = b.drop_first();
        assert forall|i: int, j: int| 0 <= i < j < a1.len() implies seq_lt(#[trigger] a1[i], #[trigger] a1[j]) by {
            assert(a1[i] == a[i + 1] && a1[j] == a[j + 1]);
        }
        assert forall|i: int, j: int| 0 <= i < j < b1.len() implies seq_lt(#[trigger] b1[i], #[trigger] b1[j]) by {
            assert(b1[i] == b[i + 1] && b1[j] == b[j + 1]);
        }
        assert forall|p: Seq<char>| a1.contains(p) == b1.contains(p) by {
            if a1.contains(p) {
                let i = choose|i: int| 0 <= i < a1.len() && a1[i] == p;
                assert(a[i + 1] == p);
                assert(a.contains(p));
                let j = choose|j: int| 0 <= j < b.len() && b[j] == p;
                assert(seq_lt(a[0], a[i + 1]));
                if j == 0 {
                    lemma_lt_irrefl(p);
                }
                assert(b1[j - 1] == p);
            }
            if b1.contains(p) {
                let j = choose|j: int| 0 <= j < b1.len() && b1[j] == p;
                assert(b[j + 1] == p);
                assert(b.contains(p));
                let i = choose|i: int| 0 <= i < a.len() && a[i] == p;
                assert(seq_lt(b[0], b[j + 1]));
                if i == 0 {
                    lemma_lt_irrefl(p);
                }
                assert(a1[i - 1] == p);
            }
        }
        lemma_strictly_sorted_unique(a1, b1);
        assert(a =~= seq![a[0]] + a1);
        assert(b =~= seq![b[0]] + b1);
    }
}

proof fn lemma_lt_irrefl(p: Seq<char>)
    ensures
        !seq_lt(p, p),
{
    lemma_lt_asym(p, p, 0);
}

/// Entries before `i` that do not name `repo`'s place do not change the lookup.
proof fn lemma_cached_skip(c: CacheV, repo: Seq<char>, i: int)
    requires
        0 <= i <= c.len(),
        forall|j: int| 0 <= j < i ==> !same_path(#[trigger] c[j].0, repo),
    ensures
        cached(c, repo, 0) == cached(c, repo, i),
    decreases i,
{
    if i > 0 {
        lemma_cached_skip(c, repo, i - 1);
    }
}

/// Record a repo unless an earlier scan start already did.
fn push_repo(out: &mut Vec<RepoRoot>, path: &str, scan_root: &str, kind: RepoKind, Ghost(roots): Ghost<Seq<Seq<char>>>)
    requires
        walk_ok(old(out)@, roots),
        roots.contains(scan_root@),
        kind == RepoKind::Root ==> same_path(path@, scan_root@),
    ensures
        walk_ok(final(out)@, roots),
        found_view(final(out)@) == record(found_view(old(out)@), path@, scan_root@, kind),
{
    let ghost f0 = found_view(out@);
    let mut i: usize = 0;
    while i < out.len()
        invariant
            i <= out@.len(),
            walk_ok(out@, roots),
            f0 == found_view(out@),
            forall|k: int| 0 <= k < i ==> !same_path((#[trigger] out@[k]).path@, path@),
        decreases out.len() - i,
    {
        if same_place(out[i].path.as_str(), path) {
            assert(same_path(f0[i as int].0, path@));
            return;
        }
        i += 1;
    }
    assert(!exists|j: int| 0 <= j < f0.len() && same_path(#[trigger] f0[j].0, path@)) by {
        if exists|j: int| 0 <= j < f0.len() && same_path(#[trigger] f0[j].0, path@) {
            let j = choose|j: int| 0 <= j < f0.len() && same_path(#[trigger] f0[j].0, path@);
            assert(f0[j].0 == out@[j].path@);
        }
    }
    let ghost before = out@;
    out.push(RepoRoot { path: String::from_str(path), scan_root: String::from_str(scan_root), kind });
    assert(found_view(out@) =~= f0.push((path@, scan_root@, kind)));
    assert forall|a: int, b: int| 0 <= a < b < out@.len() implies !same_path((#[trigger] out@[a]).path@, (#[trigger] out@[b]).path@) by {
        if b < before.len() {
            assert(out@[a] == before[a] && out@[b] == before[b]);
        } else {
            assert(out@[a] == before[a]);
            assert(!same_path(before[a].path@, path@));
        }
    }
    assert forall|a: int| 0 <= a < out@.len() implies roots.contains((#[trigger] out@[a]).scan_root@) by {
        if a < before.len() {
            assert(out@[a] == before[a]);
        }
    }
    assert forall|a: int| 0 <= a < out@.len() && (#[trigger] out@[a]).kind == RepoKind::Root implies same_path(
        out@[a].path@,
        out@[a].scan_root@,
    ) by {
        if a < before.len() {
            assert(out@[a] == before[a]);
        }
    }
}

/// Ask `fs` for the shape of `dir/.git`; `asked` records the question and the answer.
fn ask_dot_git<F: Fs>(fs: &F, dir: &str, asked: &mut Ghost<SeamAnswers>) -> (r: Option<DotGit>)
    ensures
        final(asked)@ == dot_git_answer(dir@, r),
{
    let r = fs.dot_git(dir);
    *asked = Ghost(dot_git_answer(dir@, r));
    r
}

/// Ask `fs` for the entries of `dir`; `asked` records the question and the answer.
fn ask_listing<F: Fs>(fs: &F, dir: &str, asked: &mut Ghost<SeamAnswers>) -> (r: std::io::Result<Vec<DirEntryInfo>>)
    ensures
        final(asked)@ == listing_answer(
            dir@,
            match r {
                Ok(e) => Some(e@),
                Err(_) => None,
            },
        ),
{
    let r = fs.read_dir(dir);
    *asked = Ghost(listing_answer(
        dir@,
        match &r {
            Ok(e) => Some(e@),
            Err(_) => None,
        },
    ));
    r
}

/// Ask `fs` for the text of `file`; `asked` records the question and the answer.
fn ask_text<F: Fs>(fs: &F, file: &str, asked: &mut Ghost<SeamAnswers>) -> (r: std::io::Result<String>)
    ensures
        final(asked)@ == text_answer(
            file@,
            match r {
                Ok(t) => Some(t@),
                Err(_) => None,
            },
        ),
{
    let r = fs.read_to_string(file);
    *asked = Ghost(text_answer(
        file@,
        match &r {
            Ok(t) => Some(t@),
            Err(_) => None,
        },
    ));
    r
}

/// Ask `ig` whether `dir` is ignored under `enclosing`; `asked` records the question and the
/// answer.
fn ask_ignored<I: IgnoreOracle>(ig: &I, enclosing: Option<&str>, dir: &str, asked: &mut Ghost<SeamAnswers>) -> (r: bool)
    ensures
        final(asked)@ == ignore_answer(opt_str_view(enclosing), dir@, r),
{
    let r = ig.is_ignored_dir(enclosing, dir);
    *asked = Ghost(ignore_answer(opt_str_view(enclosing), dir@, r));
    r
}

/// `repo`'s `.gitmodules` paths, parsed at most once per repo per walk. An absent or unreadable
/// file yields an empty set. `answers` receives what the filesystem seam answered.
fn submodules_of<F: Fs>(
    fs: &F,
    repo: &str,
    cache: &mut Vec<(String, Vec<String>)>,
    answers: &mut Ghost<SeamAnswers>,
) -> (r: Vec<String>)
    requires
        old(answers)@ == no_answers(),
    ensures
        forall|k: SeamAnswers|
            #[trigger] submodules_spec(concat_answers(final(answers)@, k), cache_view(old(cache)@), repo@)
                == (views_of(r@), cache_view(final(cache)@), k),
{
    let ghost c0 = cache_view(cache@);
    let mut i: usize = 0;
    while i < cache.len()
        invariant
            i <= cache@.len(),
            c0 == cache_view(cache@),
            answers@ == no_answers(),
            forall|j: int| 0 <= j < i ==> !same_path(#[trigger] c0[j].0, repo@),
        decreases cache.len() - i,
    {
        if same_place(cache[i].0.as_str(), repo) {
            let r = clone_strings(&cache[i].1);
            proof {
                assert(c0[i as int].0 == cache@[i as int].0@);
                lemma_cached_skip(c0, repo@, i as int);
                assert forall|k: SeamAnswers|
                    #[trigger] submodules_spec(concat_answers(answers@, k), c0, repo@) == (views_of(r@), c0, k) by {
                    lemma_concat_none(k);
                }
            }
            return r;
        }
        assert(c0[i as int].0 == cache@[i as int].0@);
        i += 1;
    }
    proof {
        lemma_cached_skip(c0, repo@, i as int);
    }
    let file = join(repo, ".gitmodules");
    let mut asked: Ghost<SeamAnswers> = Ghost(no_answers());
    let read = ask_text(fs, file.as_str(), &mut asked);
    let ghost tv: Option<Seq<char>> = match &read {
        Ok(t) => Some(t@),
        Err(_) => None,
    };
    let text = match read {
        Ok(t) => t,
        Err(_) => String::new(),
    };
    let parsed = submodule_paths(text.as_str());
    proof {
        let v = views_of(parsed@);
        assert(strictly_sorted(v) && forall|p: Seq<char>| #[trigger] v.contains(p) == declares(text@, p));
        let s = declared_paths(text@);
        lemma_strictly_sorted_unique(v, s);
        assert(text@ == match tv {
            Some(x) => x,
            None => Seq::<char>::empty(),
        });
    }
    cache.push((String::from_str(repo), clone_strings(&parsed)));
    assert(cache_view(cache@) =~= c0.push((repo@, views_of(parsed@))));
    *answers = asked;
    assert forall|k: SeamAnswers|
        #[trigger] submodules_spec(concat_answers(answers@, k), c0, repo@) == (views_of(parsed@), cache_view(cache@), k) by {
        lemma_next_text(k, file@, tv);
    }
    parsed
}

fn clone_strings(v: &Vec<String>) -> (r: Vec<String>)
    ensures
        views_of(r@) == views_of(v@),
{
    let mut out: Vec<String> = Vec::new();
    let mut i: usize = 0;
    while i < v.len()
        invariant
            i <= v@.len(),
            views_of(out@) == views_of(v@.take(i as int)),
        decreases v.len() - i,
    {
        let ghost before = views_of(out@);
        out.push(v[i].clone());
        assert(views_of(out@) =~= before.push(v@[i as int]@));
        assert(views_of(v@.take(i + 1)) =~= views_of(v@.take(i as int)).push(v@[i as int]@));
        i += 1;
    }
    assert(v@.take(i as int) =~= v@);
    out
}

/// List `repo`'s initialized submodules straight from its `.gitmodules`, so a submodule is found
/// regardless of the depth limit or a hard-excluded directory name. A declared submodule with no
/// `.git` is uninitialized and skipped. `answers` receives what the filesystem seam answered.
fn push_declared_submodules<F: Fs>(
    fs: &F,
    repo: &str,
    scan_root: &str,
    out: &mut Vec<RepoRoot>,
    cache: &mut Vec<(String, Vec<String>)>,
    Ghost(roots): Ghost<Seq<Seq<char>>>,
    answers: &mut Ghost<SeamAnswers>,
)
    requires
        walk_ok(old(out)@, roots),
        roots.contains(scan_root@),
        old(answers)@ == no_answers(),
    ensures
        walk_ok(final(out)@, roots),
        forall|k: SeamAnswers|
            #[trigger] declared_spec(
                concat_answers(final(answers)@, k),
                repo@,
                scan_root@,
                found_view(old(out)@),
                cache_view(old(cache)@),
            ) == (found_view(final(out)@), cache_view(final(cache)@), k),
{
    let ghost f0 = found_view(out@);
    let ghost c0 = cache_view(cache@);
    let mut s1: Ghost<SeamAnswers> = Ghost(no_answers());
    let subs = submodules_of(fs, repo, cache, &mut s1);
    let ghost sv = views_of(subs@);
    let ghost c1 = cache_view(cache@);
    let ghost mut lseg: SeamAnswers = no_answers();
    assert forall|k: SeamAnswers|
        #[trigger] declared_from(concat_answers(lseg, k), repo@, sv, 0, scan_root@, f0)
            == declared_from(k, repo@, sv, 0, scan_root@, found_view(out@)) by {
        lemma_concat_none(k);
    }
    let mut i: usize = 0;
    while i < subs.len()
        invariant
            i <= subs@.len(),
            walk_ok(out@, roots),
            roots.contains(scan_root@),
            sv == views_of(subs@),
            forall|k: SeamAnswers|
                #[trigger] declared_from(concat_answers(lseg, k), repo@, sv, 0, scan_root@, f0)
                    == declared_from(k, repo@, sv, i as int, scan_root@, found_view(out@)),
        decreases subs.len() - i,
    {
        let path = join(repo, subs[i].as_str());
        let mut asked: Ghost<SeamAnswers> = Ghost(no_answers());
        let d = ask_dot_git(fs, path.as_str(), &mut asked);
        let ghost fb = found_view(out@);
        if d.is_some() {
            // Deliberately `Submodule` whatever `.git` looks like here: for a path declared in
            // `.gitmodules` that is the truthful answer, and an old-style, non-absorbed
            // submodule has a `.git` DIRECTORY.
            push_repo(out, path.as_str(), scan_root, RepoKind::Submodule, Ghost(roots));
        }
        proof {
            let da = asked@;
            assert(sv[i as int] == subs@[i as int]@);
            assert forall|k: SeamAnswers|
                #[trigger] declared_from(concat_answers(concat_answers(lseg, da), k), repo@, sv, 0, scan_root@, f0)
                    == declared_from(k, repo@, sv, i + 1, scan_root@, found_view(out@)) by {
                lemma_concat_assoc(lseg, da, k);
                lemma_next_dot_git(k, path@, d);
                assert(declared_from(concat_answers(lseg, concat_answers(da, k)), repo@, sv, 0, scan_root@, f0)
                    == declared_from(concat_answers(da, k), repo@, sv, i as int, scan_root@, fb));
            }
            lseg = concat_answers(lseg, da);
        }
        i += 1;
    }
    proof {
        let total = concat_answers(s1@, lseg);
        assert forall|k: SeamAnswers|
            #[trigger] declared_spec(concat_answers(total, k), repo@, scan_root@, f0, c0)
                == (found_view(out@), cache_view(cache@), k) by {
            lemma_concat_assoc(s1@, lseg, k);
            let kk = concat_answers(lseg, k);
            assert(submodules_spec(concat_answers(s1@, kk), c0, repo@) == (sv, c1, kk));
            assert(declared_from(kk, repo@, sv, 0, scan_root@, f0)
                == declared_from(k, repo@, sv, i as int, scan_root@, found_view(out@)));
        }
    }
    *answers = Ghost(concat_answers(s1@, lseg));
}

/// Visit one directory.
///
/// `ignored_mode` is rule 2: we are somewhere under a gitignored directory, so we still descend
/// looking for `.git`, but the FIRST repo we find here ends the drilling down this branch.
/// Everywhere else the walk continues past a found repo until the depth limit or a hard exclude
/// stops it. `answers` receives what the seams answered.
#[verifier::rlimit(60)]
#[verifier::spinoff_prover]
fn visit<F: Fs, I: IgnoreOracle>(
    fs: &F,
    ig: &I,
    cfg: &ScanConfig,
    scan_root: &str,
    dir: &str,
    depth: usize,
    ignored_mode: bool,
    enclosing: Option<&str>,
    out: &mut Vec<RepoRoot>,
    cache: &mut Vec<(String, Vec<String>)>,
    Ghost(roots): Ghost<Seq<Seq<char>>>,
    answers: &mut Ghost<SeamAnswers>,
)
    requires
        walk_ok(old(out)@, roots),
        roots.contains(scan_root@),
        old(answers)@ == no_answers(),
    ensures
        walk_ok(final(out)@, roots),
        forall|k: SeamAnswers|
            #[trigger] visit_spec(
                concat_answers(final(answers)@, k),
                cfg.depth as int,
                views_of(cfg.excludes@),
                scan_root@,
                dir@,
                depth as int,
                ignored_mode,
                opt_str_view(enclosing),
                found_view(old(out)@),
                cache_view(old(cache)@),
            ) == (found_view(final(out)@), cache_view(final(cache)@), k),
    decreases cfg.depth - depth,
{
    let ghost limit = cfg.depth as int;
    let ghost ex = views_of(cfg.excludes@);
    let ghost f0 = found_view(out@);
    let ghost c0 = cache_view(cache@);
    let mut enclosing_here: Option<String> = match enclosing {
        Some(e) => Some(String::from_str(e)),
        None => None,
    };
    let mut asked: Ghost<SeamAnswers> = Ghost(no_answers());
    let dg = ask_dot_git(fs, dir, &mut asked);
    let ghost mut seg1: SeamAnswers = asked@;
    if let Some(dot_git) = &dg {
        let rel: Option<String> = match enclosing {
            Some(e) => rel_slash(dir, e),
            None => None,
        };
        let mut s1: Ghost<SeamAnswers> = Ghost(no_answers());
        let subs: Vec<String> = match enclosing {
            Some(e) => submodules_of(fs, e, cache, &mut s1),
            None => Vec::new(),
        };
        let ghost c1 = cache_view(cache@);
        let rel_ref: Option<&str> = match &rel {
            Some(r) => Some(r.as_str()),
            None => None,
        };
        let kind = classify(same_place(dir, scan_root), dot_git, rel_ref, &subs);
        push_repo(out, dir, scan_root, kind, Ghost(roots));
        let ghost f1 = found_view(out@);
        let mut s2: Ghost<SeamAnswers> = Ghost(no_answers());
        push_declared_submodules(fs, dir, scan_root, out, cache, Ghost(roots), &mut s2);
        proof {
            let g = *dot_git;
            let da = asked@;
            let relv = match opt_str_view(enclosing) {
                Some(e) => rel_slash_spec(dir@, e),
                None => None,
            };
            assert(opt_str_view(rel_ref) == relv);
            if enclosing is None {
                assert(views_of(subs@) =~= Seq::<Seq<char>>::empty());
            }
            assert(kind == classify_spec(same_path(dir@, scan_root@), g, relv, views_of(subs@)));
            assert(f1 == record(f0, dir@, scan_root@, kind));
            assert forall|k: SeamAnswers|
                #[trigger] visit_spec(concat_answers(concat_answers(concat_answers(da, s1@), s2@), k), limit, ex, scan_root@, dir@, depth as int, ignored_mode, opt_str_view(enclosing), f0, c0)
                    == (if ignored_mode {
                        (found_view(out@), cache_view(cache@), k)
                    } else {
                        listing_spec(k, limit, ex, scan_root@, dir@, depth as int, ignored_mode, Some(dir@), found_view(out@), cache_view(cache@))
                    }) by {
                lemma_concat_assoc(concat_answers(da, s1@), s2@, k);
                lemma_concat_assoc(da, s1@, concat_answers(s2@, k));
                let k2 = concat_answers(s2@, k);
                let k1 = concat_answers(s1@, k2);
                lemma_next_dot_git(k1, dir@, dg);
                assert(next_dot_git(concat_answers(da, k1), dir@) == (dg, k1));
                let s = match opt_str_view(enclosing) {
                    Some(e) => submodules_spec(k1, c0, e),
                    None => (Seq::<Seq<char>>::empty(), c0, k1),
                };
                if enclosing is None {
                    lemma_concat_none(k2);
                }
                assert(s == (views_of(subs@), c1, k2));
                assert(declared_spec(k2, dir@, scan_root@, f1, c1) == (found_view(out@), cache_view(cache@), k));
            }
            seg1 = concat_answers(concat_answers(da, s1@), s2@);
        }
        if ignored_mode {
            *answers = Ghost(seg1);
            return;
        }
        enclosing_here = Some(String::from_str(dir));
    } else {
        assert forall|k: SeamAnswers|
            #[trigger] visit_spec(concat_answers(seg1, k), limit, ex, scan_root@, dir@, depth as int, ignored_mode, opt_str_view(enclosing), f0, c0)
                == listing_spec(k, limit, ex, scan_root@, dir@, depth as int, ignored_mode, opt_view(enclosing_here), f0, c0) by {
            lemma_next_dot_git(k, dir@, dg);
        }
    }
    let ghost here_v = opt_view(enclosing_here);
    let ghost fA = found_view(out@);
    let ghost cA = cache_view(cache@);
    assert(forall|k: SeamAnswers|
        #[trigger] visit_spec(concat_answers(seg1, k), limit, ex, scan_root@, dir@, depth as int, ignored_mode, opt_str_view(enclosing), f0, c0)
            == listing_spec(k, limit, ex, scan_root@, dir@, depth as int, ignored_mode, here_v, fA, cA));
    if depth >= cfg.depth {
        *answers = Ghost(seg1);
        return;
    }
    // A read error (permission, vanished directory) skips this directory only.
    let mut listed: Ghost<SeamAnswers> = Ghost(no_answers());
    let listing = ask_listing(fs, dir, &mut listed);
    let ghost lv: Option<Seq<DirEntryInfo>> = match &listing {
        Ok(e) => Some(e@),
        Err(_) => None,
    };
    let ghost seg2 = concat_answers(seg1, listed@);
    let entries = match listing {
        Ok(e) => e,
        Err(_) => {
            assert forall|k: SeamAnswers|
                #[trigger] visit_spec(concat_answers(seg2, k), limit, ex, scan_root@, dir@, depth as int, ignored_mode, opt_str_view(enclosing), f0, c0)
                    == (fA, cA, k) by {
                lemma_concat_assoc(seg1, listed@, k);
                lemma_next_listing(k, dir@, lv);
                assert(visit_spec(concat_answers(seg1, concat_answers(listed@, k)), limit, ex, scan_root@, dir@, depth as int, ignored_mode, opt_str_view(enclosing), f0, c0)
                    == listing_spec(concat_answers(listed@, k), limit, ex, scan_root@, dir@, depth as int, ignored_mode, here_v, fA, cA));
            }
            *answers = Ghost(seg2);
            return;
        },
    };
    assert forall|k: SeamAnswers|
        #[trigger] visit_spec(concat_answers(seg2, k), limit, ex, scan_root@, dir@, depth as int, ignored_mode, opt_str_view(enclosing), f0, c0)
            == entries_spec(k, limit, ex, scan_root@, dir@, depth as int, ignored_mode, here_v, entries@, 0, fA, cA) by {
        lemma_concat_assoc(seg1, listed@, k);
        lemma_next_listing(k, dir@, lv);
        assert(visit_spec(concat_answers(seg1, concat_answers(listed@, k)), limit, ex, scan_root@, dir@, depth as int, ignored_mode, opt_str_view(enclosing), f0, c0)
            == listing_spec(concat_answers(listed@, k), limit, ex, scan_root@, dir@, depth as int, ignored_mode, here_v, fA, cA));
    }
    let ghost mut lseg: SeamAnswers = no_answers();
    assert forall|k: SeamAnswers|
        #[trigger] entries_spec(concat_answers(lseg, k), limit, ex, scan_root@, dir@, depth as int, ignored_mode, here_v, entries@, 0, fA, cA)
            == entries_spec(k, limit, ex, scan_root@, dir@, depth as int, ignored_mode, here_v, entries@, 0, fA, cA) by {
        lemma_concat_none(k);
    }
    let mut i: usize = 0;
    while i < entries.len()
        invariant
            i <= entries@.len(),
            depth < cfg.depth,
            limit == cfg.depth as int,
            ex == views_of(cfg.excludes@),
            here_v == opt_view(enclosing_here),
            walk_ok(out@, roots),
            roots.contains(scan_root@),
            forall|k: SeamAnswers|
                #[trigger] entries_spec(concat_answers(lseg, k), limit, ex, scan_root@, dir@, depth as int, ignored_mode, here_v, entries@, 0, fA, cA)
                    == entries_spec(k, limit, ex, scan_root@, dir@, depth as int, ignored_mode, here_v, entries@, i as int, found_view(out@), cache_view(cache@)),
        decreases entries.len() - i,
    {
        let entry = &entries[i];
        let ghost fb = found_view(out@);
        let ghost cb = cache_view(cache@);
        if descends_into(entry, &cfg.excludes) {
            let child = join(dir, entry.name.as_str());
            let here: Option<&str> = match &enclosing_here {
                Some(e) => Some(e.as_str()),
                None => None,
            };
            // Rule 2: entering an ignored directory switches on the stop-at-first-repo mode but
            // does NOT prune. Once on, it stays on for the whole subtree.
            let mut verdict: Ghost<SeamAnswers> = Ghost(no_answers());
            let child_ignored = if ignored_mode {
                true
            } else {
                ask_ignored(ig, here, child.as_str(), &mut verdict)
            };
            let ghost ga = verdict@;
            let mut sv: Ghost<SeamAnswers> = Ghost(no_answers());
            visit(fs, ig, cfg, scan_root, child.as_str(), depth + 1, child_ignored, here, out, cache, Ghost(roots), &mut sv);
            proof {
                assert(opt_str_view(here) == here_v);
                let step = concat_answers(ga, sv@);
                assert forall|k: SeamAnswers|
                    #[trigger] entries_spec(concat_answers(step, k), limit, ex, scan_root@, dir@, depth as int, ignored_mode, here_v, entries@, i as int, fb, cb)
                        == entries_spec(k, limit, ex, scan_root@, dir@, depth as int, ignored_mode, here_v, entries@, i + 1, found_view(out@), cache_view(cache@)) by {
                    lemma_concat_assoc(ga, sv@, k);
                    let ks = concat_answers(sv@, k);
                    lemma_next_ignored(ks, here_v, child@, child_ignored);
                    lemma_concat_none(ks);
                    let g = if ignored_mode {
                        (true, concat_answers(ga, ks))
                    } else {
                        next_ignored(concat_answers(ga, ks), here_v, join_spec(dir@, entries@[i as int].name@))
                    };
                    assert(g == (child_ignored, ks));
                    assert(visit_spec(ks, limit, ex, scan_root@, join_spec(dir@, entries@[i as int].name@), depth + 1, child_ignored, here_v, fb, cb)
                        == (found_view(out@), cache_view(cache@), k));
                }
                assert forall|k: SeamAnswers|
                    #[trigger] entries_spec(concat_answers(concat_answers(lseg, step), k), limit, ex, scan_root@, dir@, depth as int, ignored_mode, here_v, entries@, 0, fA, cA)
                        == entries_spec(k, limit, ex, scan_root@, dir@, depth as int, ignored_mode, here_v, entries@, i + 1, found_view(out@), cache_view(cache@)) by {
                    lemma_concat_assoc(lseg, step, k);
                    assert(entries_spec(concat_answers(lseg, concat_answers(step, k)), limit, ex, scan_root@, dir@, depth as int, ignored_mode, here_v, entries@, 0, fA, cA)
                        == entries_spec(concat_answers(step, k), limit, ex, scan_root@, dir@, depth as int, ignored_mode, here_v, entries@, i as int, fb, cb));
                }
                lseg = concat_answers(lseg, step);
            }
        } else {
            assert forall|k: SeamAnswers|
                #[trigger] entries_spec(concat_answers(lseg, k), limit, ex, scan_root@, dir@, depth as int, ignored_mode, here_v, entries@, 0, fA, cA)
                    == entries_spec(k, limit, ex, scan_root@, dir@, depth as int, ignored_mode, here_v, entries@, i + 1, found_view(out@), cache_view(cache@)) by {
                assert(entries_spec(concat_answers(lseg, k), limit, ex, scan_root@, dir@, depth as int, ignored_mode, here_v, entries@, 0, fA, cA)
                    == entries_spec(k, limit, ex, scan_root@, dir@, depth as int, ignored_mode, here_v, entries@, i as int, fb, cb));
            }
        }
        i += 1;
    }
    proof {
        let total = concat_answers(seg2, lseg);
        assert forall|k: SeamAnswers|
            #[trigger] visit_spec(concat_answers(total, k), limit, ex, scan_root@, dir@, depth as int, ignored_mode, opt_str_view(enclosing), f0, c0)
                == (found_view(out@), cache_view(cache@), k) by {
            lemma_concat_assoc(seg2, lseg, k);
            let kl = concat_answers(lseg, k);
            assert(visit_spec(concat_answers(seg2, kl), limit, ex, scan_root@, dir@, depth as int, ignored_mode, opt_str_view(enclosing), f0, c0)
                == entries_spec(kl, limit, ex, scan_root@, dir@, depth as int, ignored_mode, here_v, entries@, 0, fA, cA));
            assert(entries_spec(k, limit, ex, scan_root@, dir@, depth as int, ignored_mode, here_v, entries@, i as int, found_view(out@), cache_view(cache@))
                == (found_view(out@), cache_view(cache@), k));
        }
    }
    *answers = Ghost(concat_answers(seg2, lseg));
}

/// Walk every scan start and return the repos found, in discovery order, each reported once.
///
/// The result is exactly what the walk ([`scan_from`]) makes of the seams' answers to the
/// questions it asked, each question naming its path; whatever the seams answered, no place is
/// reported twice, every repo carries one of `roots` as its scan start, only a scan start itself
/// is reported as `Root`, and every repo but a submodule was reached through at most
/// `cfg.depth` entered directories ([`found_by_walking`]).
pub fn scan<F: Fs, I: IgnoreOracle>(roots: &[String], cfg: &ScanConfig, fs: &F, ig: &I) -> (r: Vec<RepoRoot>)
    ensures
        walk_ok(r@, views_of(roots@)),
        found_by_walking(found_view(r@), cfg.depth as int, views_of(cfg.excludes@)),
        exists|a: SeamAnswers|
            #[trigger] scan_from(a, views_of(roots@), cfg.depth as int, views_of(cfg.excludes@), 0, Seq::empty())
                == (found_view(r@), no_answers()),
{
    let ghost rv = views_of(roots@);
    let ghost limit = cfg.depth as int;
    let ghost ex = views_of(cfg.excludes@);
    let ghost mut total: SeamAnswers = no_answers();
    let mut out: Vec<RepoRoot> = Vec::new();
    assert(found_view(out@) =~= Seq::<(Seq<char>, Seq<char>, RepoKind)>::empty());
    assert forall|k: SeamAnswers|
        #[trigger] scan_from(concat_answers(total, k), rv, limit, ex, 0, Seq::empty())
            == scan_from(k, rv, limit, ex, 0, found_view(out@)) by {
        lemma_concat_none(k);
    }
    let mut i: usize = 0;
    while i < roots.len()
        invariant
            rv == views_of(roots@),
            limit == cfg.depth as int,
            ex == views_of(cfg.excludes@),
            i <= roots@.len(),
            walk_ok(out@, rv),
            forall|k: SeamAnswers|
                #[trigger] scan_from(concat_answers(total, k), rv, limit, ex, 0, Seq::empty())
                    == scan_from(k, rv, limit, ex, i as int, found_view(out@)),
        decreases roots.len() - i,
    {
        let root = roots[i].as_str();
        assert(rv[i as int] == root@);
        let ghost fb = found_view(out@);
        let mut cache: Vec<(String, Vec<String>)> = Vec::new();
        assert(cache_view(cache@) =~= Seq::<(Seq<char>, Seq<Seq<char>>)>::empty());
        let mut sa: Ghost<SeamAnswers> = Ghost(no_answers());
        visit(fs, ig, cfg, root, root, 0, false, None, &mut out, &mut cache, Ghost(rv), &mut sa);
        proof {
            assert(opt_str_view(None) == None::<Seq<char>>);
            assert forall|k: SeamAnswers|
                #[trigger] scan_from(concat_answers(concat_answers(total, sa@), k), rv, limit, ex, 0, Seq::empty())
                    == scan_from(k, rv, limit, ex, i + 1, found_view(out@)) by {
                lemma_concat_assoc(total, sa@, k);
                let ks = concat_answers(sa@, k);
                assert(scan_from(concat_answers(total, ks), rv, limit, ex, 0, Seq::empty())
                    == scan_from(ks, rv, limit, ex, i as int, fb));
                assert(visit_spec(ks, limit, ex, rv[i as int], rv[i as int], 0, false, None, fb, Seq::empty())
                    .0 == found_view(out@));
            }
            total = concat_answers(total, sa@);
        }
        i += 1;
    }
    proof {
        law_every_repo_but_a_submodule_was_walked_to(total, rv, limit, ex, 0, Seq::empty());
        lemma_concat_none(total);
        assert(scan_from(concat_answers(total, no_answers()), rv, limit, ex, 0, Seq::empty())
            == (found_view(out@), no_answers()));
    }
    out
}
} // verus!
