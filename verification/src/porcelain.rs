//! Parser for `git status --porcelain=v2 -z`. No I/O; the caller feeds it bytes.
//!
//! Records are NUL-terminated, including the `# …` headers. A rename/copy record (`2 …`) is
//! followed by its original path as a SEPARATE NUL-delimited field.
use vstd::prelude::*;
use crate::model::{FileEntry, FileView, GroupKind, StatusGroup, GroupView, files_view, opt_view};
use crate::text::{
    chars_of, find_char, lemma_le_trans, lemma_lt_asym, find_char_from, find_ws, find_ws_from, is_ws, less_than,
    lemma_find_char_bounds, lemma_find_ws_bounds, lemma_skip_ws_bounds, lemma_trim_end_bounds,
    parse_u32, parse_u32_range, range_eq, seq_lt, skip_ws, skip_ws_from, string_of, string_range,
    sub_vec, trim, trim_chars, trim_end_at, trim_end_to, decode_lossy, utf8_lossy,
};

verus! {

/// What `git status --porcelain=v2 -z` said about one repo.
#[derive(Debug, Clone, Default, PartialEq, Eq)]
pub struct PorcelainStatus {
    /// The branch name. `None` when HEAD is detached or unreported.
    pub head: Option<String>,
    /// HEAD's object id. `None` in a repo with no commits.
    pub oid: Option<String>,
    pub upstream: Option<String>,
    /// Commits ahead of / behind upstream. Both `None` when there is no upstream at all.
    pub ahead: Option<u32>,
    pub behind: Option<u32>,
    pub staged: Vec<FileEntry>,
    pub changes: Vec<FileEntry>,
    pub untracked: Vec<FileEntry>,
}

/// A [`PorcelainStatus`] as plain values.
#[verifier::ext_equal]
pub struct StatusModel {
    pub head: Option<Seq<char>>,
    pub oid: Option<Seq<char>>,
    pub upstream: Option<Seq<char>>,
    pub ahead: Option<u32>,
    pub behind: Option<u32>,
    pub staged: Seq<FileView>,
    pub changes: Seq<FileView>,
    pub untracked: Seq<FileView>,
}

impl View for PorcelainStatus {
    type V = StatusModel;

    open spec fn view(&self) -> StatusModel {
        StatusModel {
            head: opt_view(self.head),
            oid: opt_view(self.oid),
            upstream: opt_view(self.upstream),
            ahead: self.ahead,
            behind: self.behind,
            staged: files_view(self.staged@),
            changes: files_view(self.changes@),
            untracked: files_view(self.untracked@),
        }
    }
}

/// The status before any record is read.
pub open spec fn empty_model() -> StatusModel {
    StatusModel {
        head: None,
        oid: None,
        upstream: None,
        ahead: None,
        behind: None,
        staged: Seq::empty(),
        changes: Seq::empty(),
        untracked: Seq::empty(),
    }
}

// ---- fields of a record ---------------------------------------------------------------------

/// The end of the whitespace-delimited token that starts at or after `pos`.
pub open spec fn tok_end(r: Seq<char>, pos: int) -> int {
    find_ws_from(r, skip_ws_from(r, pos))
}

/// Where the first `n` tokens after `pos` end — `None` when one of them is not followed by
/// whitespace (the record is too short).
pub open spec fn after_tokens(r: Seq<char>, pos: int, n: nat) -> Option<int>
    decreases n,
{
    if n == 0 {
        Some(pos)
    } else {
        let e = tok_end(r, pos);
        if e >= r.len() {
            None
        } else {
            after_tokens(r, e, (n - 1) as nat)
        }
    }
}

/// The record's path: everything after `n` fixed tokens, leading whitespace dropped, and only
/// when something is left. Paths may contain spaces, so the tail is never re-split.
pub open spec fn tail_after(r: Seq<char>, n: nat) -> Option<Seq<char>> {
    match after_tokens(r, 0, n) {
        Some(p) => {
            let ps = skip_ws_from(r, p);
            if ps < r.len() {
                Some(r.subrange(ps, r.len() as int))
            } else {
                None
            }
        },
        None => None,
    }
}

/// The record's second token: the XY field.
pub open spec fn second_token(r: Seq<char>) -> Seq<char> {
    let e0 = tok_end(r, 0);
    r.subrange(skip_ws_from(r, e0), tok_end(r, e0))
}

/// `(XY, path)` of a record with `n` fixed tokens, when XY is exactly two characters.
pub open spec fn xy_and_path(r: Seq<char>, n: nat) -> Option<(Seq<char>, Seq<char>)> {
    match tail_after(r, n) {
        Some(path) => {
            let xy = second_token(r);
            if xy.len() == 2 {
                Some((xy, path))
            } else {
                None
            }
        },
        None => None,
    }
}

// ---- applying records -----------------------------------------------------------------------

/// A file row for one column of an XY pair. Only a rename or copy carries its original path.
pub open spec fn xy_entry(code: char, path: Seq<char>, orig: Option<Seq<char>>) -> FileView {
    FileView {
        path,
        status: code,
        orig_path: if code == 'R' || code == 'C' {
            orig
        } else {
            None
        },
    }
}

/// Route an XY pair: `X` (index) to Staged, `Y` (worktree) to Changes; `.` contributes nothing.
pub open spec fn push_xy_spec(
    m: StatusModel,
    xy: Seq<char>,
    path: Seq<char>,
    orig: Option<Seq<char>>,
) -> StatusModel {
    let x = xy[0];
    let y = xy[1];
    let m1 = if x != '.' {
        StatusModel { staged: m.staged.push(xy_entry(x, path, orig)), ..m }
    } else {
        m
    };
    if y != '.' {
        StatusModel { changes: m1.changes.push(xy_entry(y, path, orig)), ..m1 }
    } else {
        m1
    }
}

/// The first index at or after `i` that is not `#`.
pub open spec fn skip_hash_from(s: Seq<char>, i: int) -> int
    decreases s.len() - i,
{
    if 0 <= i < s.len() && s[i] == '#' {
        skip_hash_from(s, i + 1)
    } else {
        i
    }
}

/// A header record's key and trimmed value: `#`s and surrounding whitespace dropped, then split
/// at the first space.
pub open spec fn header_kv(r: Seq<char>) -> Option<(Seq<char>, Seq<char>)> {
    let t = trim(r.subrange(skip_hash_from(r, 0), r.len() as int));
    let sp = find_char_from(t, ' ', 0);
    if sp < t.len() {
        Some((t.subrange(0, sp), trim(t.subrange(sp + 1, t.len() as int))))
    } else {
        None
    }
}

/// The whitespace-separated word starting at or after `i`, as `[start, end)`.
pub open spec fn word_at(s: Seq<char>, i: int) -> Option<(int, int)> {
    let st = skip_ws_from(s, i);
    if st < s.len() {
        Some((st, find_ws_from(s, st)))
    } else {
        None
    }
}

/// `word` with the leading `sign` removed and parsed — `None` unless it starts with `sign`.
pub open spec fn signed_count(word: Seq<char>, sign: char) -> Option<u32> {
    if word.len() > 0 && word[0] == sign {
        parse_u32(word.subrange(1, word.len() as int))
    } else {
        None
    }
}

/// The `(ahead, behind)` pair of a `branch.ab` value `+<a> -<b>`, when both parse.
pub open spec fn ab_counts(v: Seq<char>) -> Option<(u32, u32)> {
    match word_at(v, 0) {
        Some((s1, e1)) => match word_at(v, e1) {
            Some((s2, e2)) => match (
                signed_count(v.subrange(s1, e1), '+'),
                signed_count(v.subrange(s2, e2), '-'),
            ) {
                (Some(a), Some(b)) => Some((a, b)),
                _ => None,
            },
            None => None,
        },
        None => None,
    }
}

/// Read one `# branch.…` header. Unknown headers and malformed values change nothing.
pub open spec fn header_spec(m: StatusModel, r: Seq<char>) -> StatusModel {
    match header_kv(r) {
        Some((key, value)) => if key == "branch.oid"@ {
            StatusModel {
                oid: if value != "(initial)"@ {
                    Some(value)
                } else {
                    None
                },
                ..m
            }
        } else if key == "branch.head"@ {
            StatusModel {
                head: if value != "(detached)"@ {
                    Some(value)
                } else {
                    None
                },
                ..m
            }
        } else if key == "branch.upstream"@ {
            StatusModel { upstream: Some(value), ..m }
        } else if key == "branch.ab"@ {
            match ab_counts(value) {
                Some((a, b)) => StatusModel { ahead: Some(a), behind: Some(b), ..m },
                None => m,
            }
        } else {
            m
        },
        None => m,
    }
}

/// Apply one record. `orig` is the field that followed a rename/copy record, if any.
pub open spec fn apply_spec(m: StatusModel, r: Seq<char>, orig: Option<Seq<char>>) -> StatusModel {
    if r.len() == 0 {
        m
    } else if r[0] == '#' {
        header_spec(m, r)
    } else if r[0] == '1' {
        match xy_and_path(r, 8) {
            Some((xy, path)) => push_xy_spec(m, xy, path, None),
            None => m,
        }
    } else if r[0] == '2' {
        match xy_and_path(r, 9) {
            Some((xy, path)) => push_xy_spec(m, xy, path, orig),
            None => m,
        }
    } else if r[0] == 'u' {
        match tail_after(r, 10) {
            Some(path) => StatusModel {
                changes: m.changes.push(FileView { path, status: 'U', orig_path: None }),
                ..m
            },
            None => m,
        }
    } else if r[0] == '?' {
        match tail_after(r, 1) {
            Some(path) => StatusModel {
                untracked: m.untracked.push(FileView { path, status: '?', orig_path: None }),
                ..m
            },
            None => m,
        }
    } else {
        m
    }
}

/// Whether a record is a rename/copy, whose original path is the next field.
pub open spec fn is_rename(r: Seq<char>) -> bool {
    r.len() > 0 && r[0] == '2'
}

/// Apply records `i..` in order. A rename/copy consumes the following field as its original
/// path when that field is non-empty.
pub open spec fn run_records(recs: Seq<Seq<char>>, i: int, m: StatusModel) -> StatusModel
    decreases recs.len() - i,
{
    if i < 0 || i >= recs.len() {
        m
    } else if is_rename(recs[i]) && i + 1 < recs.len() && recs[i + 1].len() > 0 {
        run_records(recs, i + 2, apply_spec(m, recs[i], Some(recs[i + 1])))
    } else {
        run_records(recs, i + 1, apply_spec(m, recs[i], None))
    }
}

// ---- sorting --------------------------------------------------------------------------------

/// Insert `x` after every row whose path is not greater than its own (a stable insertion).
pub open spec fn insert_sorted(s: Seq<FileView>, x: FileView) -> Seq<FileView>
    decreases s.len(),
{
    if s.len() > 0 && seq_lt(x.path, s.last().path) {
        insert_sorted(s.drop_last(), x).push(s.last())
    } else {
        s.push(x)
    }
}

/// The rows stably sorted by path.
pub open spec fn sort_by_path(s: Seq<FileView>) -> Seq<FileView>
    decreases s.len(),
{
    if s.len() == 0 {
        Seq::empty()
    } else {
        insert_sorted(sort_by_path(s.drop_last()), s.last())
    }
}

/// Whether rows are in path order.
pub open spec fn in_path_order(s: Seq<FileView>) -> bool {
    forall|i: int, j: int| 0 <= i < j < s.len() ==> !seq_lt(#[trigger] s[j].path, #[trigger] s[i].path)
}

proof fn lemma_insert_sorted(s: Seq<FileView>, x: FileView)
    requires
        in_path_order(s),
    ensures
        in_path_order(insert_sorted(s, x)),
        insert_sorted(s, x).to_multiset() == s.to_multiset().insert(x),
    decreases s.len(),
{
    broadcast use vstd::seq_lib::group_to_multiset_ensures;

    if s.len() > 0 && seq_lt(x.path, s.last().path) {
        let s1 = s.drop_last();
        let last = s.last();
        assert forall|i: int, j: int| 0 <= i < j < s1.len() implies !seq_lt(#[trigger] s1[j].path, #[trigger] s1[i].path) by {
            assert(s1[i] == s[i] && s1[j] == s[j]);
        }
        lemma_insert_sorted(s1, x);
        let r1 = insert_sorted(s1, x);
        let r = r1.push(last);
        assert(s =~= s1.push(last));
        assert forall|i: int, j: int| 0 <= i < j < r.len() implies !seq_lt(#[trigger] r[j].path, #[trigger] r[i].path) by {
            if j == r1.len() {
                let e = r1[i];
                assert(r1.contains(e));
                assert(r1.to_multiset().count(e) > 0);
                if e == x {
                    lemma_lt_asym(x.path, last.path, 0);
                } else {
                    assert(s1.to_multiset().count(e) > 0);
                    assert(s1.contains(e));
                    let m = choose|m: int| 0 <= m < s1.len() && s1[m] == e;
                    assert(s[m] == e);
                    assert(s[s.len() - 1] == last);
                }
            } else {
                assert(r[i] == r1[i] && r[j] == r1[j]);
            }
        }
    } else {
        let r = s.push(x);
        assert forall|i: int, j: int| 0 <= i < j < r.len() implies !seq_lt(#[trigger] r[j].path, #[trigger] r[i].path) by {
            if j == s.len() {
                let last = s.last();
                if i < s.len() - 1 {
                    assert(s[s.len() - 1] == last);
                    lemma_le_trans(s[i].path, last.path, x.path, 0);
                }
            } else {
                assert(r[i] == s[i] && r[j] == s[j]);
            }
        }
    }
}

proof fn lemma_sort_by_path(s: Seq<FileView>)
    ensures
        in_path_order(sort_by_path(s)),
        sort_by_path(s).to_multiset() == s.to_multiset(),
    decreases s.len(),
{
    broadcast use vstd::seq_lib::group_to_multiset_ensures;

    if s.len() > 0 {
        lemma_sort_by_path(s.drop_last());
        lemma_insert_sorted(sort_by_path(s.drop_last()), s.last());
        assert(s =~= s.drop_last().push(s.last()));
    }
}

/// Law: every group of a parsed status is in path order, so the tree is stable across refreshes,
/// and putting it in order neither lost nor added a row.
pub proof fn law_groups_are_in_path_order(recs: Seq<Seq<char>>)
    ensures
        in_path_order(status_of(recs).staged),
        in_path_order(status_of(recs).changes),
        in_path_order(status_of(recs).untracked),
        status_of(recs).staged.to_multiset() == run_records(recs, 0, empty_model()).staged.to_multiset(),
        status_of(recs).changes.to_multiset() == run_records(recs, 0, empty_model()).changes.to_multiset(),
        status_of(recs).untracked.to_multiset() == run_records(recs, 0, empty_model()).untracked.to_multiset(),
{
    let m = run_records(recs, 0, empty_model());
    lemma_sort_by_path(m.staged);
    lemma_sort_by_path(m.changes);
    lemma_sort_by_path(m.untracked);
}

/// The parse of a whole record list: every record applied, each group sorted by path.
pub open spec fn status_of(recs: Seq<Seq<char>>) -> StatusModel {
    let m = run_records(recs, 0, empty_model());
    StatusModel {
        staged: sort_by_path(m.staged),
        changes: sort_by_path(m.changes),
        untracked: sort_by_path(m.untracked),
        ..m
    }
}

proof fn lemma_insert_at(s: Seq<FileView>, x: FileView, j: int)
    requires
        0 <= j <= s.len(),
        forall|k: int| j <= k < s.len() ==> seq_lt(x.path, (#[trigger] s[k]).path),
        j == 0 || !seq_lt(x.path, s[j - 1].path),
    ensures
        insert_sorted(s, x) == s.take(j) + seq![x] + s.skip(j),
    decreases s.len(),
{
    if s.len() > j {
        lemma_insert_at(s.drop_last(), x, j);
        assert(s.take(j) + seq![x] + s.skip(j) =~= (s.drop_last().take(j) + seq![x]
            + s.drop_last().skip(j)).push(s.last()));
    } else {
        assert(s.take(j) + seq![x] + s.skip(j) =~= s.push(x));
    }
}

/// Insert `e` into `v` the way [`insert_sorted`] does.
fn insert_by_path(v: &mut Vec<FileEntry>, e: FileEntry)
    ensures
        files_view(final(v)@) == insert_sorted(files_view(old(v)@), e@),
{
    let ghost s = files_view(v@);
    let mut j = v.len();
    while j > 0 && less_than(chars_of(e.path.as_str()).as_slice(), chars_of(v[j - 1].path.as_str()).as_slice())
        invariant
            j <= v@.len(),
            s == files_view(v@),
            forall|k: int| j <= k < v@.len() ==> seq_lt(e.path@, (#[trigger] v@[k]).path@),
        decreases j,
    {
        j -= 1;
    }
    proof {
        assert forall|k: int| j <= k < s.len() implies seq_lt(e@.path, (#[trigger] s[k]).path) by {
            assert(s[k] == v@[k]@);
        }
        if j > 0 {
            assert(s[j - 1] == v@[j - 1]@);
        }
        lemma_insert_at(s, e@, j as int);
    }
    v.insert(j, e);
    assert(files_view(v@) =~= s.take(j as int) + seq![e@] + s.skip(j as int));
}

/// `v` stably sorted by path.
fn sorted_by_path(v: Vec<FileEntry>) -> (r: Vec<FileEntry>)
    ensures
        files_view(r@) == sort_by_path(files_view(v@)),
{
    let ghost s = files_view(v@);
    let mut out: Vec<FileEntry> = Vec::new();
    let mut i: usize = 0;
    let mut rest = v;
    // Consume from the front, keeping the index of the next element.
    while i < rest.len()
        invariant
            i <= rest@.len(),
            files_view(rest@) == s,
            files_view(out@) == sort_by_path(s.take(i as int)),
        decreases rest.len() - i,
    {
        let e = rest[i].duplicate();
        assert(e@ == s[i as int]);
        insert_by_path(&mut out, e);
        assert(s.take(i + 1).drop_last() =~= s.take(i as int));
        i += 1;
    }
    assert(s.take(i as int) =~= s);
    out
}

// ---- executable parsing -----------------------------------------------------------------

/// The view of an optional character vector.
pub open spec fn opt_chars(o: Option<Vec<char>>) -> Option<Seq<char>> {
    match o {
        Some(v) => Some(v@),
        None => None,
    }
}

fn after_tokens_exec(r: &[char], n: usize) -> (res: Option<usize>)
    ensures
        match res {
            Some(p) => after_tokens(r@, 0, n as nat) == Some(p as int) && p <= r@.len(),
            None => after_tokens(r@, 0, n as nat) is None,
        },
{
    let mut pos: usize = 0;
    let mut k: usize = 0;
    while k < n
        invariant
            pos <= r@.len(),
            k <= n,
            after_tokens(r@, 0, n as nat) == after_tokens(r@, pos as int, (n - k) as nat),
        decreases n - k,
    {
        let st = skip_ws(r, pos);
        let e = find_ws(r, st);
        if e >= r.len() {
            return None;
        }
        pos = e;
        k += 1;
    }
    Some(pos)
}

fn tail_after_exec(r: &[char], n: usize) -> (res: Option<Vec<char>>)
    ensures
        opt_chars(res) == tail_after(r@, n as nat),
{
    match after_tokens_exec(r, n) {
        Some(p) => {
            let ps = skip_ws(r, p);
            if ps < r.len() {
                Some(sub_vec(r, ps, r.len()))
            } else {
                None
            }
        },
        None => None,
    }
}

fn xy_and_path_exec(r: &[char], n: usize) -> (res: Option<(Vec<char>, Vec<char>)>)
    requires
        n >= 2,
    ensures
        match res {
            Some((xy, path)) => xy_and_path(r@, n as nat) == Some((xy@, path@)),
            None => xy_and_path(r@, n as nat) is None,
        },
{
    match tail_after_exec(r, n) {
        Some(path) => {
            let e0 = find_ws(r, skip_ws(r, 0));
            let st = skip_ws(r, e0);
            let e1 = find_ws(r, st);
            let xy = sub_vec(r, st, e1);
            if xy.len() == 2 {
                Some((xy, path))
            } else {
                None
            }
        },
        None => None,
    }
}

/// A file row built from character vectors.
fn file_entry(path: &[char], code: char, orig: &Option<Vec<char>>) -> (f: FileEntry)
    ensures
        f@ == xy_entry(code, path@, opt_chars(*orig)),
{
    let orig_path = if code == 'R' || code == 'C' {
        match orig {
            Some(o) => Some(string_of(o.as_slice())),
            None => None,
        }
    } else {
        None
    };
    FileEntry { path: string_of(path), status: code, orig_path }
}

proof fn lemma_push_view(v: Seq<FileEntry>, e: FileEntry)
    ensures
        files_view(v.push(e)) == files_view(v).push(e@),
{
    assert(files_view(v.push(e)) =~= files_view(v).push(e@));
}

fn push_xy_exec(st: &mut PorcelainStatus, xy: &[char], path: &[char], orig: &Option<Vec<char>>)
    requires
        xy@.len() == 2,
    ensures
        final(st)@ == push_xy_spec(old(st)@, xy@, path@, opt_chars(*orig)),
{
    let x = xy[0];
    let y = xy[1];
    if x != '.' {
        let e = file_entry(path, x, orig);
        proof {
            lemma_push_view(st.staged@, e);
        }
        st.staged.push(e);
    }
    if y != '.' {
        let e = file_entry(path, y, orig);
        proof {
            lemma_push_view(st.changes@, e);
        }
        st.changes.push(e);
    }
}

fn skip_hash(s: &[char]) -> (r: usize)
    ensures
        r == skip_hash_from(s@, 0),
        r <= s@.len(),
{
    let mut k: usize = 0;
    while k < s.len() && s[k] == '#'
        invariant
            k <= s@.len(),
            skip_hash_from(s@, 0) == skip_hash_from(s@, k as int),
        decreases s.len() - k,
    {
        k += 1;
    }
    k
}

fn signed_count_exec(v: &[char], s: usize, e: usize, sign: char) -> (r: Option<u32>)
    requires
        s <= e <= v@.len(),
    ensures
        r == signed_count(v@.subrange(s as int, e as int), sign),
{
    if s < e && v[s] == sign {
        assert(v@.subrange(s as int, e as int).subrange(1, (e - s) as int) =~= v@.subrange(
            s + 1,
            e as int,
        ));
        parse_u32_range(v, s + 1, e)
    } else {
        None
    }
}

fn ab_counts_exec(v: &[char]) -> (r: Option<(u32, u32)>)
    ensures
        r == ab_counts(v@),
{
    let s1 = skip_ws(v, 0);
    if s1 >= v.len() {
        return None;
    }
    let e1 = find_ws(v, s1);
    let s2 = skip_ws(v, e1);
    if s2 >= v.len() {
        return None;
    }
    let e2 = find_ws(v, s2);
    match (signed_count_exec(v, s1, e1, '+'), signed_count_exec(v, s2, e2, '-')) {
        (Some(a), Some(b)) => Some((a, b)),
        _ => None,
    }
}

fn header_exec(st: &mut PorcelainStatus, r: &[char])
    ensures
        final(st)@ == header_spec(old(st)@, r@),
{
    let h = skip_hash(r);
    let rest = sub_vec(r, h, r.len());
    let t = trim_chars(&rest);
    let sp = find_char(&t, ' ', 0);
    if sp >= t.len() {
        return;
    }
    let tail = sub_vec(&t, sp + 1, t.len());
    let value = trim_chars(&tail);
    proof {
        assert(header_kv(r@) == Some((t@.subrange(0, sp as int), value@)));
    }
    if range_eq(&t, 0, sp, "branch.oid") {
        st.oid = if !crate::text::chars_eq(&value, "(initial)") {
            Some(string_of(&value))
        } else {
            None
        };
    } else if range_eq(&t, 0, sp, "branch.head") {
        st.head = if !crate::text::chars_eq(&value, "(detached)") {
            Some(string_of(&value))
        } else {
            None
        };
    } else if range_eq(&t, 0, sp, "branch.upstream") {
        st.upstream = Some(string_of(&value));
    } else if range_eq(&t, 0, sp, "branch.ab") {
        match ab_counts_exec(&value) {
            Some((a, b)) => {
                st.ahead = Some(a);
                st.behind = Some(b);
            },
            None => {},
        }
    }
}

fn apply_exec(st: &mut PorcelainStatus, r: &[char], orig: &Option<Vec<char>>)
    ensures
        final(st)@ == apply_spec(old(st)@, r@, opt_chars(*orig)),
{
    if r.len() == 0 {
        return;
    }
    let c = r[0];
    if c == '#' {
        header_exec(st, r);
    } else if c == '1' {
        match xy_and_path_exec(r, 8) {
            Some((xy, path)) => push_xy_exec(st, &xy, &path, &None),
            None => {},
        }
    } else if c == '2' {
        match xy_and_path_exec(r, 9) {
            Some((xy, path)) => push_xy_exec(st, &xy, &path, orig),
            None => {},
        }
    } else if c == 'u' {
        match tail_after_exec(r, 10) {
            Some(path) => {
                let e = FileEntry { path: string_of(&path), status: 'U', orig_path: None };
                proof {
                    lemma_push_view(st.changes@, e);
                }
                st.changes.push(e);
            },
            None => {},
        }
    } else if c == '?' {
        match tail_after_exec(r, 1) {
            Some(path) => {
                let e = FileEntry { path: string_of(&path), status: '?', orig_path: None };
                proof {
                    lemma_push_view(st.untracked@, e);
                }
                st.untracked.push(e);
            },
            None => {},
        }
    }
}

/// The view of a list of records.
pub open spec fn recs_view(recs: Seq<Vec<char>>) -> Seq<Seq<char>> {
    recs.map_values(|v: Vec<char>| v@)
}

/// Parse decoded records (the NUL-separated fields of a porcelain v2 `-z` stream). Malformed or
/// truncated records are skipped; the parse never fails.
pub fn parse_fields(recs: &Vec<Vec<char>>) -> (r: PorcelainStatus)
    ensures
        r@ == status_of(recs_view(recs@)),
{
    let ghost rv = recs_view(recs@);
    let mut st = PorcelainStatus {
        head: None,
        oid: None,
        upstream: None,
        ahead: None,
        behind: None,
        staged: Vec::new(),
        changes: Vec::new(),
        untracked: Vec::new(),
    };
    assert(st@ =~= empty_model());
    let mut i: usize = 0;
    while i < recs.len()
        invariant
            i <= recs@.len(),
            rv == recs_view(recs@),
            run_records(rv, 0, empty_model()) == run_records(rv, i as int, st@),
        decreases recs.len() - i,
    {
        let r = &recs[i];
        if r.len() > 0 && r[0] == '2' && i + 1 < recs.len() && recs[i + 1].len() > 0 {
            let orig = Some(sub_vec(recs[i + 1].as_slice(), 0, recs[i + 1].len()));
            assert(recs[i + 1 as int]@.subrange(0, recs@[i + 1]@.len() as int) =~= recs@[i + 1]@);
            apply_exec(&mut st, r.as_slice(), &orig);
            i += 2;
        } else {
            apply_exec(&mut st, r.as_slice(), &None);
            i += 1;
        }
    }
    let PorcelainStatus { head, oid, upstream, ahead, behind, staged, changes, untracked } = st;
    PorcelainStatus {
        head,
        oid,
        upstream,
        ahead,
        behind,
        staged: sorted_by_path(staged),
        changes: sorted_by_path(changes),
        untracked: sorted_by_path(untracked),
    }
}

// ---- bytes ----------------------------------------------------------------------------------

/// The first index at or after `i` holding a NUL byte (`b.len()` when none does).
pub open spec fn find_nul_from(b: Seq<u8>, i: int) -> int
    decreases b.len() - i,
{
    if i < 0 || i >= b.len() {
        if i < 0 { 0 } else { i }
    } else if b[i] == 0 {
        i
    } else {
        find_nul_from(b, i + 1)
    }
}

pub proof fn lemma_find_nul_bounds(b: Seq<u8>, i: int)
    requires
        0 <= i <= b.len(),
    ensures
        i <= find_nul_from(b, i) <= b.len(),
    decreases b.len() - i,
{
    if i < b.len() && b[i] != 0 {
        lemma_find_nul_bounds(b, i + 1);
    }
}

/// The NUL-separated fields of `b[i..]`, as `<[u8]>::split` yields them: one more field than
/// there are NULs, so a trailing NUL yields a final empty field.
pub open spec fn nul_fields_from(b: Seq<u8>, i: int) -> Seq<Seq<u8>>
    decreases b.len() + 1 - i,
{
    if i < 0 || i > b.len() {
        Seq::empty()
    } else {
        let e = find_nul_from(b, i);
        proof {
            lemma_find_nul_bounds(b, i);
        }
        if e >= b.len() {
            seq![b.subrange(i, b.len() as int)]
        } else {
            seq![b.subrange(i, e)] + nul_fields_from(b, e + 1)
        }
    }
}

/// The decoded NUL-separated records of a porcelain stream.
pub open spec fn records_of(bytes: Seq<u8>) -> Seq<Seq<char>> {
    nul_fields_from(bytes, 0).map_values(|f: Seq<u8>| utf8_lossy(f))
}

/// Parse a porcelain v2 `-z` byte stream: split at NULs, decode each field lossily, then parse
/// the fields. Never fails.
pub fn parse(bytes: &[u8]) -> (r: PorcelainStatus)
    ensures
        r@ == status_of(records_of(bytes@)),
{
    let ghost fields = nul_fields_from(bytes@, 0);
    let mut recs: Vec<Vec<char>> = Vec::new();
    let mut i: usize = 0;
    let ghost mut done: Seq<Seq<u8>> = Seq::empty();
    loop
        invariant
            i <= bytes@.len(),
            fields == nul_fields_from(bytes@, 0),
            fields == done + nul_fields_from(bytes@, i as int),
            recs@.len() == done.len(),
            forall|k: int| 0 <= k < done.len() ==> (#[trigger] recs@[k])@ == utf8_lossy(done[k]),
        decreases bytes@.len() + 1 - i,
    {
        let mut e = i;
        while e < bytes.len() && bytes[e] != 0
            invariant
                i <= e <= bytes@.len(),
                find_nul_from(bytes@, i as int) == find_nul_from(bytes@, e as int),
            decreases bytes.len() - e,
        {
            e += 1;
        }
        let field = &bytes[i..e];
        let text = decode_lossy(field);
        recs.push(chars_of(text.as_str()));
        proof {
            assert(field@ == bytes@.subrange(i as int, e as int));
            let old_done = done;
            done = done.push(bytes@.subrange(i as int, e as int));
            if e < bytes@.len() {
                assert(fields =~= done + nul_fields_from(bytes@, e + 1));
            } else {
                assert(fields =~= done);
            }
        }
        if e >= bytes.len() {
            proof {
                assert(done =~= fields);
                assert(fields == nul_fields_from(bytes@, 0));
                assert(records_of(bytes@).len() == fields.len());
                assert forall|k: int| 0 <= k < recs@.len() implies #[trigger] recs_view(recs@)[k]
                    == records_of(bytes@)[k] by {
                    assert(recs@[k]@ == utf8_lossy(done[k]));
                    assert(records_of(bytes@)[k] == utf8_lossy(fields[k]));
                }
                assert(recs_view(recs@) =~= records_of(bytes@));
            }
            return parse_fields(&recs);
        }
        i = e + 1;
    }
}

/// A copy of a list of files.
fn clone_files(v: &Vec<FileEntry>) -> (r: Vec<FileEntry>)
    ensures
        files_view(r@) == files_view(v@),
{
    let mut out: Vec<FileEntry> = Vec::new();
    let mut i: usize = 0;
    while i < v.len()
        invariant
            i <= v@.len(),
            files_view(out@) == files_view(v@.take(i as int)),
        decreases v.len() - i,
    {
        let e = v[i].duplicate();
        proof {
            lemma_push_view(out@, e);
            assert(v@.take(i + 1) =~= v@.take(i as int).push(v@[i as int]));
            lemma_push_view(v@.take(i as int), v@[i as int]);
        }
        out.push(e);
        i += 1;
    }
    assert(v@.take(i as int) =~= v@);
    out
}

/// The non-empty groups of a status, in the order the tree draws them.
pub open spec fn groups_spec(m: StatusModel) -> Seq<GroupView> {
    (if m.staged.len() > 0 {
        seq![GroupView { kind: GroupKind::Staged, files: m.staged }]
    } else {
        Seq::empty()
    }) + (if m.changes.len() > 0 {
        seq![GroupView { kind: GroupKind::Changes, files: m.changes }]
    } else {
        Seq::empty()
    }) + (if m.untracked.len() > 0 {
        seq![GroupView { kind: GroupKind::Untracked, files: m.untracked }]
    } else {
        Seq::empty()
    })
}

impl PorcelainStatus {
    /// The non-empty groups, in the order the tree draws them. An empty group is omitted
    /// entirely.
    pub fn groups(&self) -> (r: Vec<StatusGroup>)
        ensures
            crate::model::groups_view(r@) == groups_spec(self@),
    {
        let mut out: Vec<StatusGroup> = Vec::new();
        let ghost m = self@;
        if self.staged.len() > 0 {
            out.push(StatusGroup { kind: GroupKind::Staged, files: clone_files(&self.staged) });
        }
        let ghost a = out@;
        if self.changes.len() > 0 {
            out.push(StatusGroup { kind: GroupKind::Changes, files: clone_files(&self.changes) });
        }
        let ghost b = out@;
        if self.untracked.len() > 0 {
            out.push(StatusGroup { kind: GroupKind::Untracked, files: clone_files(&self.untracked) });
        }
        assert(crate::model::groups_view(out@) =~= groups_spec(m));
        out
    }
}

} // verus!
