//! Forward-slashed path strings: components, joining, prefixes and relative forms.
//!
//! Paths are carried as `String`s. A path's components are the pieces between `/` separators,
//! with empty pieces (repeated or trailing separators) and `.` pieces dropped; a leading `/`
//! makes it absolute.
use vstd::prelude::*;
use crate::text::{
    chars_of, find_char, find_char_from, lemma_find_char_bounds, push_char, push_chars, seq_eq,
    string_of, sub_vec,
};

verus! {

/// Whether a path is absolute.
pub open spec fn is_abs(p: Seq<char>) -> bool {
    p.len() > 0 && p[0] == '/'
}

/// Whether `piece` is a component that survives normalization.
pub open spec fn kept_piece(piece: Seq<char>) -> bool {
    piece.len() > 0 && piece != seq!['.']
}

/// The components of `p[i..]`.
pub open spec fn comps_from(p: Seq<char>, i: int) -> Seq<Seq<char>>
    decreases p.len() - i,
{
    if i < 0 || i >= p.len() {
        Seq::empty()
    } else {
        let e = find_char_from(p, '/', i);
        proof {
            lemma_find_char_bounds(p, '/', i);
        }
        let piece = p.subrange(i, e);
        if e >= p.len() {
            if kept_piece(piece) {
                seq![piece]
            } else {
                Seq::empty()
            }
        } else if kept_piece(piece) {
            seq![piece] + comps_from(p, e + 1)
        } else {
            comps_from(p, e + 1)
        }
    }
}

/// The components of `p`.
pub open spec fn comps(p: Seq<char>) -> Seq<Seq<char>> {
    comps_from(p, 0)
}

/// `pieces` joined with `/`.
pub open spec fn join_slash(pieces: Seq<Seq<char>>) -> Seq<char>
    decreases pieces.len(),
{
    if pieces.len() == 0 {
        Seq::empty()
    } else if pieces.len() == 1 {
        pieces[0]
    } else {
        join_slash(pieces.drop_last()) + seq!['/'] + pieces.last()
    }
}

/// `cs` without its `..` components.
pub open spec fn drop_parent(cs: Seq<Seq<char>>) -> Seq<Seq<char>>
    decreases cs.len(),
{
    if cs.len() == 0 {
        Seq::empty()
    } else if cs.last() == seq!['.', '.'] {
        drop_parent(cs.drop_last())
    } else {
        drop_parent(cs.drop_last()).push(cs.last())
    }
}

/// Whether `base`'s components (and rootedness) are a prefix of `p`'s — `Path::starts_with`.
pub open spec fn path_starts_with(p: Seq<char>, base: Seq<char>) -> bool {
    is_abs(p) == is_abs(base) && comps(base).len() <= comps(p).len() && comps(p).take(
        comps(base).len() as int,
    ) == comps(base)
}

/// `p` relative to `base`, forward-slashed, when `p` lies under `base`.
pub open spec fn rel_slash_spec(p: Seq<char>, base: Seq<char>) -> Option<Seq<char>> {
    if path_starts_with(p, base) {
        Some(join_slash(drop_parent(comps(p).skip(comps(base).len() as int))))
    } else {
        None
    }
}

/// `p`'s final component, unless it is `..` or there is none — `Path::file_name`.
pub open spec fn file_name_spec(p: Seq<char>) -> Option<Seq<char>> {
    let cs = comps(p);
    if cs.len() > 0 && cs.last() != seq!['.', '.'] {
        Some(cs.last())
    } else {
        None
    }
}

/// `base` joined with `name` — `Path::join`: an absolute `name` replaces `base`, and a
/// separator is added unless `base` is empty or already ends in one.
pub open spec fn join_spec(base: Seq<char>, name: Seq<char>) -> Seq<char> {
    if is_abs(name) || base.len() == 0 {
        name
    } else if base.last() == '/' {
        base + name
    } else {
        base + seq!['/'] + name
    }
}

/// The components of `p`, each as its own character vector.
pub fn components(p: &[char]) -> (r: Vec<Vec<char>>)
    ensures
        r@.len() == comps(p@).len(),
        forall|k: int| 0 <= k < r@.len() ==> #[trigger] r@[k]@ == comps(p@)[k],
{
    let mut out: Vec<Vec<char>> = Vec::new();
    let mut i: usize = 0;
    let ghost done: Seq<Seq<char>> = Seq::empty();
    while i < p.len()
        invariant
            i <= p@.len(),
            out@.len() == done.len(),
            forall|k: int| 0 <= k < out@.len() ==> #[trigger] out@[k]@ == done[k],
            comps(p@) == done + comps_from(p@, i as int),
        decreases p.len() - i,
    {
        let e = find_char(p, '/', i);
        let piece_len = e - i;
        let keep = piece_len > 0 && !(piece_len == 1 && p[i] == '.');
        proof {
            let piece = p@.subrange(i as int, e as int);
            if piece_len == 1 {
                assert(piece =~= seq![p@[i as int]]);
            }
            assert(keep == kept_piece(piece)) by {
                if piece_len == 1 && p@[i as int] != '.' {
                    assert(piece[0] != '.');
                    assert(piece != seq!['.']);
                }
                if piece_len == 1 && p@[i as int] == '.' {
                    assert(piece =~= seq!['.']);
                }
                if piece_len != 1 {
                    assert(piece.len() != seq!['.'].len());
                }
            }
        }
        if keep {
            let piece = sub_vec(p, i, e);
            out.push(piece);
            proof {
                let old_done = done;
                done = done.push(p@.subrange(i as int, e as int));
                assert(comps(p@) == old_done + (seq![p@.subrange(i as int, e as int)]
                    + comps_from(p@, e + 1)));
                assert(comps(p@) =~= done + comps_from(p@, e + 1));
            }
        }
        i = if e >= p.len() {
            p.len()
        } else {
            e + 1
        };
    }
    proof {
        assert(comps_from(p@, i as int) =~= Seq::<Seq<char>>::empty());
        assert(comps(p@) =~= done);
    }
    out
}

/// Whether `v` spells `..`.
fn is_dotdot(v: &Vec<char>) -> (r: bool)
    ensures
        r == (v@ == seq!['.', '.']),
{
    let r = v.len() == 2 && v[0] == '.' && v[1] == '.';
    if v.len() == 2 {
        assert(r == (v@ =~= seq!['.', '.']));
    }
    r
}

/// The components `cs[from..]` without `..`, joined with `/`.
fn join_from(cs: &Vec<Vec<char>>, from: usize) -> (r: String)
    requires
        from <= cs@.len(),
        forall|k: int| 0 <= k < cs@.len() ==> (#[trigger] cs@[k])@.len() > 0,
    ensures
        r@ == join_slash(drop_parent(cs@.map_values(|v: Vec<char>| v@).skip(from as int))),
{
    let ghost all = cs@.map_values(|v: Vec<char>| v@).skip(from as int);
    let mut out = String::new();
    let mut any = false;
    let mut k = from;
    while k < cs.len()
        invariant
            any == (out@.len() > 0),
            from <= k <= cs@.len(),
            all == cs@.map_values(|v: Vec<char>| v@).skip(from as int),
            forall|j: int| 0 <= j < cs@.len() ==> (#[trigger] cs@[j])@.len() > 0,
            out@ == join_slash(drop_parent(all.take(k - from))),
            (out@.len() == 0) == (drop_parent(all.take(k - from)).len() == 0),
        decreases cs.len() - k,
    {
        let ghost pre = all.take(k - from);
        assert(all.take(k + 1 - from).drop_last() =~= pre);
        assert(all.take(k + 1 - from).last() == cs@[k as int]@);
        if !is_dotdot(&cs[k]) {
            if any {
                push_char(&mut out, '/');
            }
            push_chars(&mut out, cs[k].as_slice(), 0, cs[k].len());
            any = true;
            proof {
                assert(cs@[k as int]@.subrange(0, cs@[k as int]@.len() as int) =~= cs@[k as int]@);
                let dp = drop_parent(pre);
                assert(drop_parent(all.take(k + 1 - from)) == dp.push(cs@[k as int]@));
                if dp.len() == 0 {
                    assert(dp.push(cs@[k as int]@) =~= seq![cs@[k as int]@]);
                } else {
                    assert(dp.push(cs@[k as int]@).drop_last() =~= dp);
                }
            }
        }
        k += 1;
    }
    assert(all.take(cs@.len() - from) =~= all);
    out
}

/// Whether `p` lies under `base` (component-wise) — `Path::starts_with`.
pub fn starts_with_path(p: &str, base: &str) -> (r: bool)
    ensures
        r == path_starts_with(p@, base@),
{
    let pc = chars_of(p);
    let bc = chars_of(base);
    let pa = pc.len() > 0 && pc[0] == '/';
    let ba = bc.len() > 0 && bc[0] == '/';
    if pa != ba {
        return false;
    }
    let pcs = components(&pc);
    let bcs = components(&bc);
    if bcs.len() > pcs.len() {
        return false;
    }
    let mut k: usize = 0;
    while k < bcs.len()
        invariant
            k <= bcs@.len() <= pcs@.len(),
            pcs@.len() == comps(p@).len(),
            bcs@.len() == comps(base@).len(),
            forall|j: int| 0 <= j < pcs@.len() ==> #[trigger] pcs@[j]@ == comps(p@)[j],
            forall|j: int| 0 <= j < bcs@.len() ==> #[trigger] bcs@[j]@ == comps(base@)[j],
            forall|j: int| 0 <= j < k ==> comps(p@)[j] == comps(base@)[j],
        decreases bcs.len() - k,
    {
        if !seq_eq(pcs[k].as_slice(), bcs[k].as_slice()) {
            assert(comps(p@).take(comps(base@).len() as int)[k as int] != comps(base@)[k as int]);
            return false;
        }
        k += 1;
    }
    assert(comps(p@).take(comps(base@).len() as int) =~= comps(base@));
    true
}

/// Two paths name the same place: the same rootedness and the same components — `Path`'s `==`.
pub open spec fn same_path(a: Seq<char>, b: Seq<char>) -> bool {
    path_starts_with(a, b) && path_starts_with(b, a)
}

/// Every path names the same place as itself.
pub proof fn lemma_same_path_refl(p: Seq<char>)
    ensures
        same_path(p, p),
{
    assert(comps(p).take(comps(p).len() as int) =~= comps(p));
}

/// Whether two paths name the same place — `Path`'s `==`.
pub fn same_place(a: &str, b: &str) -> (r: bool)
    ensures
        r == same_path(a@, b@),
{
    starts_with_path(a, b) && starts_with_path(b, a)
}

/// `p` spelled canonically: its rootedness and its components, joined with `/`. Two spellings of
/// one place have one canonical spelling.
pub open spec fn norm_path(p: Seq<char>) -> Seq<char> {
    (if is_abs(p) {
        seq!['/']
    } else {
        Seq::empty()
    }) + join_slash(comps(p))
}

/// Law: two spellings of the same place (`Path`'s `==`) have the same canonical spelling.
pub proof fn law_same_place_same_spelling(a: Seq<char>, b: Seq<char>)
    requires
        same_path(a, b),
    ensures
        norm_path(a) == norm_path(b),
{
    assert(comps(a).len() == comps(b).len());
    assert(comps(a) =~= comps(b).take(comps(a).len() as int));
    assert(comps(b) =~= comps(b).take(comps(a).len() as int));
}

/// `p` spelled canonically.
pub fn normalize(p: &str) -> (r: String)
    ensures
        r@ == norm_path(p@),
{
    let pc = chars_of(p);
    let cs = components(pc.as_slice());
    let mut out = String::new();
    let abs = pc.len() > 0 && pc[0] == '/';
    if abs {
        push_char(&mut out, '/');
    }
    let ghost lead = out@;
    assert(lead == (if is_abs(p@) { seq!['/'] } else { Seq::<char>::empty() }));
    let ghost all = comps(p@);
    let mut k: usize = 0;
    while k < cs.len()
        invariant
            k <= cs@.len(),
            cs@.len() == all.len(),
            all == comps(p@),
            forall|j: int| 0 <= j < cs@.len() ==> #[trigger] cs@[j]@ == all[j],
            out@ == lead + join_slash(all.take(k as int)),
        decreases cs.len() - k,
    {
        let ghost pre = all.take(k as int);
        assert(all.take(k + 1).drop_last() =~= pre);
        assert(all.take(k + 1).last() == cs@[k as int]@);
        if k > 0 {
            push_char(&mut out, '/');
        }
        push_chars(&mut out, cs[k].as_slice(), 0, cs[k].len());
        proof {
            assert(cs@[k as int]@.subrange(0, cs@[k as int]@.len() as int) =~= cs@[k as int]@);
            if k == 0 {
                assert(all.take(1) =~= seq![cs@[0]@]);
                assert(pre =~= Seq::<Seq<char>>::empty());
            }
            assert(out@ =~= lead + join_slash(all.take(k + 1)));
        }
        k += 1;
    }
    assert(all.take(k as int) =~= all);
    out
}

/// `p` relative to `base`, forward-slashed, or `None` when `p` is not under `base`.
pub fn rel_slash(p: &str, base: &str) -> (r: Option<String>)
    ensures
        match r {
            Some(s) => rel_slash_spec(p@, base@) == Some(s@),
            None => rel_slash_spec(p@, base@) is None,
        },
{
    if !starts_with_path(p, base) {
        return None;
    }
    let pc = chars_of(p);
    let bc = chars_of(base);
    let pcs = components(&pc);
    let bcs = components(&bc);
    proof {
        assert(pcs@.map_values(|v: Vec<char>| v@) =~= comps(p@));
        assert forall|k: int| 0 <= k < pcs@.len() implies (#[trigger] pcs@[k])@.len() > 0 by {
            lemma_comps_nonempty(p@, 0, k);
        }
    }
    Some(join_from(&pcs, bcs.len()))
}

pub proof fn lemma_comps_nonempty(p: Seq<char>, i: int, k: int)
    requires
        0 <= k < comps_from(p, i).len(),
    ensures
        comps_from(p, i)[k].len() > 0,
    decreases p.len() - i,
{
    if !(i < 0 || i >= p.len()) {
        let e = find_char_from(p, '/', i);
        lemma_find_char_bounds(p, '/', i);
        let piece = p.subrange(i, e);
        if e < p.len() {
            if kept_piece(piece) {
                if k > 0 {
                    lemma_comps_nonempty(p, e + 1, k - 1);
                }
            } else {
                lemma_comps_nonempty(p, e + 1, k);
            }
        }
    }
}

/// `base` joined with `name` — `Path::join`.
pub fn join(base: &str, name: &str) -> (r: String)
    ensures
        r@ == join_spec(base@, name@),
{
    let b = chars_of(base);
    let n = chars_of(name);
    if (n.len() > 0 && n[0] == '/') || b.len() == 0 {
        return string_of(&n);
    }
    let mut out = string_of(&b);
    if b[b.len() - 1] != '/' {
        push_char(&mut out, '/');
    }
    push_chars(&mut out, &n, 0, n.len());
    assert(n@.subrange(0, n@.len() as int) =~= n@);
    out
}

/// `p`'s final component, unless it is `..` — `Path::file_name`.
pub fn file_name(p: &str) -> (r: Option<String>)
    ensures
        match r {
            Some(s) => file_name_spec(p@) == Some(s@),
            None => file_name_spec(p@) is None,
        },
{
    let pc = chars_of(p);
    let cs = components(&pc);
    if cs.len() == 0 {
        return None;
    }
    let last = &cs[cs.len() - 1];
    if is_dotdot(last) {
        return None;
    }
    Some(string_of(last.as_slice()))
}

} // verus!
