//! Character-level text primitives shared by every parser and formatter of the crate.
//!
//! Text is handled as sequences of `char`. Every primitive here states its result over a
//! spec function on `Seq<char>` and indices, so the parsers built on top can state theirs the
//! same way.
use vstd::prelude::*;

verus! {

/// Unicode `White_Space`, the property `char::is_whitespace` tests.
pub open spec fn is_ws(c: char) -> bool {
    let u = c as u32;
    u == 0x20 || (0x09 <= u && u <= 0x0d) || u == 0x85 || u == 0xa0 || u == 0x1680 || (0x2000
        <= u && u <= 0x200a) || u == 0x2028 || u == 0x2029 || u == 0x202f || u == 0x205f || u
        == 0x3000
}

/// Unicode general category `Cc`, the property `char::is_control` tests.
pub open spec fn is_ctrl(c: char) -> bool {
    let u = c as u32;
    u <= 0x1f || (0x7f <= u && u <= 0x9f)
}

pub fn is_whitespace(c: char) -> (r: bool)
    ensures
        r == is_ws(c),
{
    let u = c as u32;
    u == 0x20 || (0x09 <= u && u <= 0x0d) || u == 0x85 || u == 0xa0 || u == 0x1680 || (0x2000
        <= u && u <= 0x200a) || u == 0x2028 || u == 0x2029 || u == 0x202f || u == 0x205f || u
        == 0x3000
}

pub fn is_control(c: char) -> (r: bool)
    ensures
        r == is_ctrl(c),
{
    let u = c as u32;
    u <= 0x1f || (0x7f <= u && u <= 0x9f)
}

/// Append one character to a string, by `String::push`. Its contract, taken from that method's
/// documentation rather than proved: the string's characters followed by `c`.
#[verifier::external_body]
pub(crate) fn push_char(s: &mut String, c: char)
    ensures
        final(s)@ == old(s)@.push(c),
{
    s.push(c);
}

/// The characters of `s`, in order.
pub fn chars_of(s: &str) -> (r: Vec<char>)
    ensures
        r@ == s@,
{
    let mut out: Vec<char> = Vec::new();
    for c in it: s.chars()
        invariant
            out@ == it.seq().take(it.index() as int),
            it.seq() == s@,
    {
        out.push(c);
    }
    out
}

/// Append the characters `v[from..to]` to `out`.
pub fn push_chars(out: &mut String, v: &[char], from: usize, to: usize)
    requires
        from <= to <= v@.len(),
    ensures
        final(out)@ == old(out)@ + v@.subrange(from as int, to as int),
{
    let mut i: usize = from;
    while i < to
        invariant
            from <= i <= to <= v@.len(),
            out@ == old(out)@ + v@.subrange(from as int, i as int),
        decreases to - i,
    {
        push_char(out, v[i]);
        assert(v@.subrange(from as int, i as int).push(v@[i as int]) =~= v@.subrange(
            from as int,
            i + 1,
        ));
        i += 1;
    }
}

/// A copy of `v[from..to]`.
pub fn sub_vec(v: &[char], from: usize, to: usize) -> (r: Vec<char>)
    requires
        from <= to <= v@.len(),
    ensures
        r@ == v@.subrange(from as int, to as int),
{
    let mut out: Vec<char> = Vec::new();
    let mut k = from;
    while k < to
        invariant
            from <= k <= to <= v@.len(),
            out@ == v@.subrange(from as int, k as int),
        decreases to - k,
    {
        out.push(v[k]);
        assert(v@.subrange(from as int, k as int).push(v@[k as int]) =~= v@.subrange(
            from as int,
            k + 1,
        ));
        k += 1;
    }
    out
}

/// A string holding exactly the characters of `v`.
pub fn string_of(v: &[char]) -> (r: String)
    ensures
        r@ == v@,
{
    let mut out = String::new();
    push_chars(&mut out, v, 0, v.len());
    assert(v@.subrange(0, v@.len() as int) =~= v@);
    out
}

/// A string holding the characters `v[from..to]`.
pub fn string_range(v: &[char], from: usize, to: usize) -> (r: String)
    requires
        from <= to <= v@.len(),
    ensures
        r@ == v@.subrange(from as int, to as int),
{
    let mut out = String::new();
    push_chars(&mut out, v, from, to);
    assert(Seq::<char>::empty() + v@.subrange(from as int, to as int) =~= v@.subrange(
        from as int,
        to as int,
    ));
    out
}

/// Append all of `s` to `out`.
pub fn push_str(out: &mut String, s: &str)
    ensures
        final(out)@ == old(out)@ + s@,
{
    let v = chars_of(s);
    push_chars(out, &v, 0, v.len());
    assert(v@.subrange(0, v@.len() as int) =~= v@);
}

/// An owned copy of a string literal or slice.
pub fn owned(s: &str) -> (r: String)
    ensures
        r@ == s@,
{
    let mut out = String::new();
    push_str(&mut out, s);
    assert(Seq::<char>::empty() + s@ =~= s@);
    out
}

/// Whether `a[from..to]` spells exactly `lit`.
pub fn range_eq(a: &[char], from: usize, to: usize, lit: &str) -> (r: bool)
    requires
        from <= to <= a@.len(),
    ensures
        r == (a@.subrange(from as int, to as int) == lit@),
{
    let l = chars_of(lit);
    if to - from != l.len() {
        return false;
    }
    let mut i: usize = 0;
    while i < l.len()
        invariant
            from <= to <= a@.len(),
            to - from == l@.len(),
            l@ == lit@,
            i <= l@.len(),
            forall|j: int| 0 <= j < i ==> a@[from + j] == l@[j],
        decreases l.len() - i,
    {
        if a[from + i] != l[i] {
            assert(a@.subrange(from as int, to as int)[i as int] != lit@[i as int]);
            return false;
        }
        i += 1;
    }
    assert(a@.subrange(from as int, to as int) =~= lit@);
    true
}

/// Whether the whole of `a` spells exactly `lit`.
pub fn chars_eq(a: &[char], lit: &str) -> (r: bool)
    ensures
        r == (a@ == lit@),
{
    let r = range_eq(a, 0, a.len(), lit);
    assert(a@.subrange(0, a@.len() as int) =~= a@);
    r
}

/// Whether two character sequences are equal.
pub fn seq_eq(a: &[char], b: &[char]) -> (r: bool)
    ensures
        r == (a@ == b@),
{
    if a.len() != b.len() {
        return false;
    }
    let mut i: usize = 0;
    while i < a.len()
        invariant
            a@.len() == b@.len(),
            i <= a@.len(),
            forall|j: int| 0 <= j < i ==> a@[j] == b@[j],
        decreases a.len() - i,
    {
        if a[i] != b[i] {
            return false;
        }
        i += 1;
    }
    assert(a@ =~= b@);
    true
}

/// Whether two strings hold the same characters.
pub fn str_eq(a: &str, b: &str) -> (r: bool)
    ensures
        r == (a@ == b@),
{
    let x = chars_of(a);
    let y = chars_of(b);
    seq_eq(&x, &y)
}

// ---- scanning by index ------------------------------------------------------------------

/// The first index at or after `i` whose character is not whitespace (`s.len()` when none is).
pub open spec fn skip_ws_from(s: Seq<char>, i: int) -> int
    decreases s.len() - i,
{
    if i < 0 || i >= s.len() {
        if i < 0 { 0 } else { i }
    } else if is_ws(s[i]) {
        skip_ws_from(s, i + 1)
    } else {
        i
    }
}

/// The first index at or after `i` whose character is whitespace (`s.len()` when none is).
pub open spec fn find_ws_from(s: Seq<char>, i: int) -> int
    decreases s.len() - i,
{
    if i < 0 || i >= s.len() {
        if i < 0 { 0 } else { i }
    } else if is_ws(s[i]) {
        i
    } else {
        find_ws_from(s, i + 1)
    }
}

/// The first index at or after `i` holding `c` (`s.len()` when none does).
pub open spec fn find_char_from(s: Seq<char>, c: char, i: int) -> int
    decreases s.len() - i,
{
    if i < 0 || i >= s.len() {
        if i < 0 { 0 } else { i }
    } else if s[i] == c {
        i
    } else {
        find_char_from(s, c, i + 1)
    }
}

/// The end of `s[lo..hi]` once trailing whitespace is dropped.
pub open spec fn trim_end_to(s: Seq<char>, lo: int, hi: int) -> int
    decreases hi - lo,
{
    if hi > lo && is_ws(s[hi - 1]) {
        trim_end_to(s, lo, hi - 1)
    } else {
        hi
    }
}

pub proof fn lemma_skip_ws_bounds(s: Seq<char>, i: int)
    requires
        0 <= i <= s.len(),
    ensures
        i <= skip_ws_from(s, i) <= s.len(),
        skip_ws_from(s, i) < s.len() ==> !is_ws(s[skip_ws_from(s, i)]),
        forall|j: int| i <= j < skip_ws_from(s, i) ==> is_ws(#[trigger] s[j]),
    decreases s.len() - i,
{
    if i < s.len() && is_ws(s[i]) {
        lemma_skip_ws_bounds(s, i + 1);
    }
}

pub proof fn lemma_find_ws_bounds(s: Seq<char>, i: int)
    requires
        0 <= i <= s.len(),
    ensures
        i <= find_ws_from(s, i) <= s.len(),
        find_ws_from(s, i) < s.len() ==> is_ws(s[find_ws_from(s, i)]),
        forall|j: int| i <= j < find_ws_from(s, i) ==> !is_ws(#[trigger] s[j]),
    decreases s.len() - i,
{
    if i < s.len() && !is_ws(s[i]) {
        lemma_find_ws_bounds(s, i + 1);
    }
}

pub proof fn lemma_find_char_bounds(s: Seq<char>, c: char, i: int)
    requires
        0 <= i <= s.len(),
    ensures
        i <= find_char_from(s, c, i) <= s.len(),
        find_char_from(s, c, i) < s.len() ==> s[find_char_from(s, c, i)] == c,
        forall|j: int| i <= j < find_char_from(s, c, i) ==> #[trigger] s[j] != c,
    decreases s.len() - i,
{
    if i < s.len() && s[i] != c {
        lemma_find_char_bounds(s, c, i + 1);
    }
}

pub proof fn lemma_trim_end_bounds(s: Seq<char>, lo: int, hi: int)
    requires
        0 <= lo <= hi <= s.len(),
    ensures
        lo <= trim_end_to(s, lo, hi) <= hi,
        trim_end_to(s, lo, hi) > lo ==> !is_ws(s[trim_end_to(s, lo, hi) - 1]),
    decreases hi - lo,
{
    if hi > lo && is_ws(s[hi - 1]) {
        lemma_trim_end_bounds(s, lo, hi - 1);
    }
}

/// Skip whitespace starting at `i`.
pub fn skip_ws(s: &[char], i: usize) -> (r: usize)
    requires
        i <= s@.len(),
    ensures
        r == skip_ws_from(s@, i as int),
        i <= r <= s@.len(),
{
    let mut k = i;
    while k < s.len() && is_whitespace(s[k])
        invariant
            i <= k <= s@.len(),
            skip_ws_from(s@, i as int) == skip_ws_from(s@, k as int),
        decreases s.len() - k,
    {
        k += 1;
    }
    k
}

/// Find the next whitespace at or after `i`.
pub fn find_ws(s: &[char], i: usize) -> (r: usize)
    requires
        i <= s@.len(),
    ensures
        r == find_ws_from(s@, i as int),
        i <= r <= s@.len(),
{
    let mut k = i;
    while k < s.len() && !is_whitespace(s[k])
        invariant
            i <= k <= s@.len(),
            find_ws_from(s@, i as int) == find_ws_from(s@, k as int),
        decreases s.len() - k,
    {
        k += 1;
    }
    k
}

/// Find the next `c` at or after `i`.
pub fn find_char(s: &[char], c: char, i: usize) -> (r: usize)
    requires
        i <= s@.len(),
    ensures
        r == find_char_from(s@, c, i as int),
        i <= r <= s@.len(),
{
    let mut k = i;
    while k < s.len() && s[k] != c
        invariant
            i <= k <= s@.len(),
            find_char_from(s@, c, i as int) == find_char_from(s@, c, k as int),
        decreases s.len() - k,
    {
        k += 1;
    }
    k
}

/// Drop trailing whitespace from `s[lo..hi]`, returning the new end.
pub fn trim_end_at(s: &[char], lo: usize, hi: usize) -> (r: usize)
    requires
        lo <= hi <= s@.len(),
    ensures
        r == trim_end_to(s@, lo as int, hi as int),
        lo <= r <= hi,
{
    let mut k = hi;
    while k > lo && is_whitespace(s[k - 1])
        invariant
            lo <= k <= hi <= s@.len(),
            trim_end_to(s@, lo as int, hi as int) == trim_end_to(s@, lo as int, k as int),
        decreases k - lo,
    {
        k -= 1;
    }
    k
}

// ---- lines ----------------------------------------------------------------------------------

/// One line starting at `i`: its end (exclusive, `\r\n` and `\n` removed) and where the next
/// line starts. This is `str::lines`' rule: a `\r` is stripped only in front of a `\n`.
pub open spec fn line_end(s: Seq<char>, i: int) -> int {
    let e = find_char_from(s, '\n', i);
    if e < s.len() && e > i && s[e - 1] == '\r' {
        e - 1
    } else {
        e
    }
}

/// The lines of `s[i..]`, as `str::lines` yields them.
pub open spec fn lines_from(s: Seq<char>, i: int) -> Seq<Seq<char>>
    decreases s.len() - i,
{
    if i < 0 || i >= s.len() {
        Seq::empty()
    } else {
        let e = find_char_from(s, '\n', i);
        proof {
            lemma_find_char_bounds(s, '\n', i);
        }
        if e >= s.len() {
            seq![s.subrange(i, s.len() as int)]
        } else {
            seq![s.subrange(i, line_end(s, i))] + lines_from(s, e + 1)
        }
    }
}

/// The lines of `s`, as `str::lines` yields them.
pub open spec fn lines(s: Seq<char>) -> Seq<Seq<char>> {
    lines_from(s, 0)
}

pub proof fn lemma_line_end_bounds(s: Seq<char>, i: int)
    requires
        0 <= i < s.len(),
    ensures
        i <= line_end(s, i) <= find_char_from(s, '\n', i) <= s.len(),
{
    lemma_find_char_bounds(s, '\n', i);
}

/// The end of the first line of `s[i..]` (line terminator removed) and the position of the
/// `\n` that ends it (`s.len()` when the line runs to the end).
pub fn next_line(s: &[char], i: usize) -> (r: (usize, usize))
    requires
        i < s@.len(),
    ensures
        r.1 == find_char_from(s@, '\n', i as int),
        r.0 == if r.1 >= s@.len() {
            s@.len() as int
        } else {
            line_end(s@, i as int)
        },
        i <= r.0 <= r.1 <= s@.len(),
{
    let e = find_char(s, '\n', i);
    proof {
        lemma_line_end_bounds(s@, i as int);
    }
    if e >= s.len() {
        (s.len(), e)
    } else if e > i && s[e - 1] == '\r' {
        (e - 1, e)
    } else {
        (e, e)
    }
}

/// The lines of `s`, each as its own string.
pub fn lines_of(s: &str) -> (r: Vec<String>)
    ensures
        views_of(r@) == lines(s@),
{
    let cs = chars_of(s);
    let ghost g = s@;
    let mut out: Vec<String> = Vec::new();
    let mut i: usize = 0;
    while i < cs.len()
        invariant
            cs@ == g,
            g == s@,
            i <= cs@.len(),
            lines(g) == views_of(out@) + lines_from(g, i as int),
        decreases cs.len() - i,
    {
        let (end, nl) = next_line(cs.as_slice(), i);
        proof {
            lemma_find_char_bounds(g, '\n', i as int);
        }
        let line = string_range(cs.as_slice(), i, end);
        let ghost rest: Seq<Seq<char>> = if nl >= cs.len() {
            Seq::empty()
        } else {
            lines_from(g, nl + 1)
        };
        assert(lines_from(g, i as int) =~= seq![line@] + rest);
        let ghost before = views_of(out@);
        out.push(line);
        assert(views_of(out@) =~= before.push(line@));
        if nl >= cs.len() {
            i = cs.len();
            assert(lines_from(g, i as int) =~= Seq::<Seq<char>>::empty());
        } else {
            i = nl + 1;
        }
        assert(lines(g) =~= views_of(out@) + lines_from(g, i as int));
    }
    assert(lines_from(g, i as int) =~= Seq::<Seq<char>>::empty());
    assert(lines(g) =~= views_of(out@));
    out
}

/// `pieces` joined with `sep` between each two.
pub open spec fn join_with(pieces: Seq<Seq<char>>, sep: Seq<char>) -> Seq<char>
    decreases pieces.len(),
{
    if pieces.len() == 0 {
        Seq::empty()
    } else if pieces.len() == 1 {
        pieces[0]
    } else {
        join_with(pieces.drop_last(), sep) + sep + pieces.last()
    }
}

/// The first `n` of `v`, joined with `sep`.
pub fn join_prefix(v: &[String], n: usize, sep: &str) -> (r: String)
    requires
        n <= v@.len(),
    ensures
        r@ == join_with(views_of(v@).take(n as int), sep@),
{
    let mut out = String::new();
    let mut i: usize = 0;
    while i < n
        invariant
            n <= v@.len(),
            i <= n,
            out@ == join_with(views_of(v@).take(i as int), sep@),
        decreases n - i,
    {
        let ghost before = out@;
        if i > 0 {
            push_str(&mut out, sep);
        }
        push_str(&mut out, v[i].as_str());
        assert(views_of(v@).take(i + 1).drop_last() =~= views_of(v@).take(i as int));
        if i == 0 {
            assert(out@ =~= views_of(v@).take(1)[0]);
        }
        i += 1;
    }
    assert(views_of(v@).take(0) =~= Seq::<Seq<char>>::empty());
    out
}

/// `s` with leading and trailing whitespace dropped — `str::trim`.
pub open spec fn trim(s: Seq<char>) -> Seq<char> {
    let a = skip_ws_from(s, 0);
    s.subrange(a, trim_end_to(s, a, s.len() as int))
}

/// The characters of `s` with surrounding whitespace dropped.
pub fn trim_chars(s: &[char]) -> (r: Vec<char>)
    ensures
        r@ == trim(s@),
{
    let a = skip_ws(s, 0);
    let b = trim_end_at(s, a, s.len());
    sub_vec(s, a, b)
}

// ---- ordering -------------------------------------------------------------------------------

/// Lexicographic `<` from index `i` on, comparing code points (what `str`'s `Ord` amounts to,
/// since UTF-8 preserves code-point order).
pub open spec fn lt_from(a: Seq<char>, b: Seq<char>, i: nat) -> bool
    decreases a.len() - i,
{
    if i >= a.len() {
        i < b.len()
    } else if i >= b.len() {
        false
    } else if (a[i as int] as u32) < (b[i as int] as u32) {
        true
    } else if (a[i as int] as u32) > (b[i as int] as u32) {
        false
    } else {
        lt_from(a, b, i + 1)
    }
}

/// Lexicographic `<` on character sequences.
pub open spec fn seq_lt(a: Seq<char>, b: Seq<char>) -> bool {
    lt_from(a, b, 0)
}

/// `<` never holds both ways.
pub proof fn lemma_lt_asym(a: Seq<char>, b: Seq<char>, i: nat)
    ensures
        !(lt_from(a, b, i) && lt_from(b, a, i)),
    decreases a.len() - i,
{
    if i < a.len() && i < b.len() && (a[i as int] as u32) == (b[i as int] as u32) {
        lemma_lt_asym(a, b, i + 1);
    }
}

/// "Not greater" is transitive.
pub proof fn lemma_le_trans(a: Seq<char>, b: Seq<char>, c: Seq<char>, i: nat)
    requires
        !lt_from(b, a, i),
        !lt_from(c, b, i),
    ensures
        !lt_from(c, a, i),
    decreases a.len() - i,
{
    if i < a.len() && i < b.len() && i < c.len() && (a[i as int] as u32) == (b[i as int] as u32)
        && (b[i as int] as u32) == (c[i as int] as u32) {
        lemma_le_trans(a, b, c, i + 1);
    }
}

/// `<` is transitive.
pub proof fn lemma_lt_trans(a: Seq<char>, b: Seq<char>, c: Seq<char>, i: nat)
    requires
        lt_from(a, b, i),
        lt_from(b, c, i),
    ensures
        lt_from(a, c, i),
    decreases a.len() - i,
{
    if i < a.len() && i < b.len() && i < c.len() && (a[i as int] as u32) == (b[i as int] as u32)
        && (b[i as int] as u32) == (c[i as int] as u32) {
        lemma_lt_trans(a, b, c, i + 1);
    }
}

/// Two sequences neither of which sorts before the other agree from `i` on.
pub proof fn lemma_lt_trichotomy(a: Seq<char>, b: Seq<char>, i: nat)
    requires
        !lt_from(a, b, i),
        !lt_from(b, a, i),
        i <= a.len(),
        i <= b.len(),
    ensures
        a.len() == b.len(),
        forall|j: int| i <= j < a.len() ==> a[j] == b[j],
    decreases a.len() - i,
{
    if i < a.len() {
        assert(i < b.len());
        assert((a[i as int] as u32) == (b[i as int] as u32));
        lemma_lt_trichotomy(a, b, i + 1);
        let u = a[i as int] as u32;
        vstd::utf8::char_u32_cast(a[i as int], u);
        vstd::utf8::char_u32_cast(b[i as int], u);
    }
}

/// `a < b`, lexicographically.
pub fn less_than(a: &[char], b: &[char]) -> (r: bool)
    ensures
        r == seq_lt(a@, b@),
{
    let mut i: usize = 0;
    while i < a.len() && i < b.len() && (a[i] as u32) == (b[i] as u32)
        invariant
            i <= a@.len(),
            i <= b@.len(),
            lt_from(a@, b@, 0) == lt_from(a@, b@, i as nat),
        decreases a.len() - i,
    {
        i += 1;
    }
    if i >= a.len() {
        i < b.len()
    } else if i >= b.len() {
        false
    } else {
        (a[i] as u32) < (b[i] as u32)
    }
}

/// Every string sorts strictly before the ones after it: a sorted set.
pub open spec fn strictly_sorted(v: Seq<Seq<char>>) -> bool {
    forall|i: int, j: int| 0 <= i < j < v.len() ==> seq_lt(#[trigger] v[i], #[trigger] v[j])
}

pub open spec fn views_of(v: Seq<String>) -> Seq<Seq<char>> {
    v.map_values(|s: String| s@)
}

/// Add `x` to a sorted set of strings (`BTreeSet::insert`).
pub fn insert_sorted_unique(v: &mut Vec<String>, x: String)
    requires
        strictly_sorted(views_of(old(v)@)),
    ensures
        strictly_sorted(views_of(final(v)@)),
        forall|y: Seq<char>| #[trigger] views_of(final(v)@).contains(y) == (views_of(old(v)@).contains(y) || y == x@),
{
    let ghost s = views_of(v@);
    let xc = chars_of(x.as_str());
    let mut j = v.len();
    while j > 0 && less_than(xc.as_slice(), chars_of(v[j - 1].as_str()).as_slice())
        invariant
            j <= v@.len(),
            s == views_of(v@),
            xc@ == x@,
            forall|b: int| j <= b < s.len() ==> seq_lt(x@, #[trigger] s[b]),
        decreases j,
    {
        j -= 1;
    }
    if j > 0 && seq_eq(xc.as_slice(), chars_of(v[j - 1].as_str()).as_slice()) {
        proof {
            assert forall|y: Seq<char>| #[trigger] s.contains(y) == (s.contains(y) || y == x@) by {
                if y == x@ {
                    assert(s[j - 1] == y);
                }
            }
        }
        return;
    }
    let ghost vx = x@;
    v.insert(j, x);
    proof {
        let t = views_of(v@);
        assert(t =~= s.take(j as int) + seq![vx] + s.skip(j as int));
        if j > 0 {
            assert(!seq_lt(vx, s[j - 1]));
            assert(vx != s[j - 1]);
            if !seq_lt(s[j - 1], vx) {
                lemma_lt_trichotomy(vx, s[j - 1], 0);
                assert(vx =~= s[j - 1]);
            }
        }
        assert forall|a: int, b: int| 0 <= a < b < t.len() implies seq_lt(#[trigger] t[a], #[trigger] t[b]) by {
            if b < j {
                assert(t[a] == s[a] && t[b] == s[b]);
            } else if b == j {
                assert(t[a] == s[a]);
                if a < j - 1 {
                    lemma_lt_trans(s[a], s[j - 1], vx, 0);
                }
            } else if a == j {
                assert(t[b] == s[b - 1]);
            } else if a < j {
                assert(t[a] == s[a] && t[b] == s[b - 1]);
                assert(seq_lt(s[a], s[b - 1]));
            } else {
                assert(t[a] == s[a - 1] && t[b] == s[b - 1]);
            }
        }
        assert forall|y: Seq<char>| #[trigger] t.contains(y) == (s.contains(y) || y == vx) by {
            if t.contains(y) {
                let a = choose|a: int| 0 <= a < t.len() && t[a] == y;
                if a < j {
                    assert(s[a] == y);
                } else if a > j {
                    assert(s[a - 1] == y);
                }
            }
            if s.contains(y) {
                let a = choose|a: int| 0 <= a < s.len() && s[a] == y;
                if a < j {
                    assert(t[a] == y);
                } else {
                    assert(t[a + 1] == y);
                }
            }
            if y == vx {
                assert(t[j as int] == y);
            }
        }
    }
}

// ---- bytes -----------------------------------------------------------------------------------

/// Either `c` is not ASCII, or it is one of the bytes of `bytes`.
pub open spec fn ascii_from(bytes: Seq<u8>, c: char) -> bool {
    (c as u32) >= 0x80 || bytes.contains((c as u32) as u8)
}

/// What `String::from_utf8_lossy` makes of a byte string.
pub uninterp spec fn utf8_lossy(bytes: Seq<u8>) -> Seq<char>;

/// `String::from_utf8_lossy`: the text of `bytes`, each invalid sequence replaced by U+FFFD;
/// valid UTF-8 decodes exactly, and an ASCII character of the result is one of the input's own
/// bytes (every multi-byte sequence decodes to a non-ASCII character, and so does U+FFFD).
#[verifier::external_body]
pub(crate) fn decode_lossy(bytes: &[u8]) -> (r: String)
    ensures
        r@ == utf8_lossy(bytes@),
        vstd::utf8::valid_utf8(bytes@) ==> r@ == vstd::utf8::decode_utf8(bytes@),
        forall|i: int| 0 <= i < r@.len() ==> ascii_from(bytes@, #[trigger] r@[i]),
{
    String::from_utf8_lossy(bytes).into_owned()
}

// ---- numbers --------------------------------------------------------------------------------

/// The ASCII digit for `d`.
pub open spec fn digit_char(d: nat) -> char {
    if d == 0 {
        '0'
    } else if d == 1 {
        '1'
    } else if d == 2 {
        '2'
    } else if d == 3 {
        '3'
    } else if d == 4 {
        '4'
    } else if d == 5 {
        '5'
    } else if d == 6 {
        '6'
    } else if d == 7 {
        '7'
    } else if d == 8 {
        '8'
    } else {
        '9'
    }
}

/// `n` written in decimal, as `Display` writes an unsigned integer.
pub open spec fn decimal(n: nat) -> Seq<char>
    decreases n,
{
    if n < 10 {
        seq![digit_char(n)]
    } else {
        decimal(n / 10).push(digit_char(n % 10))
    }
}

/// A decimal has one digit below ten and at least two from ten on; its first digit is a digit.
pub proof fn lemma_decimal_shape(n: nat)
    ensures
        n < 10 ==> decimal(n).len() == 1,
        n >= 10 ==> decimal(n).len() >= 2,
        '0' <= decimal(n)[0] <= '9',
    decreases n,
{
    if n >= 10 {
        lemma_decimal_shape(n / 10);
    }
}

/// Different numbers are written differently.
pub proof fn lemma_decimal_injective(a: nat, b: nat)
    requires
        decimal(a) == decimal(b),
    ensures
        a == b,
    decreases a,
{
    lemma_decimal_shape(a);
    lemma_decimal_shape(b);
    if a >= 10 && b >= 10 {
        let da = decimal(a);
        assert(da.last() == digit_char(a % 10));
        assert(decimal(b).last() == digit_char(b % 10));
        assert(decimal(a / 10) =~= da.drop_last());
        assert(decimal(b / 10) =~= decimal(b).drop_last());
        lemma_decimal_injective(a / 10, b / 10);
    } else if a < 10 && b < 10 {
        assert(decimal(a)[0] == digit_char(a));
        assert(decimal(b)[0] == digit_char(b));
    }
}

fn digit(d: u64) -> (c: char)
    requires
        d < 10,
    ensures
        c == digit_char(d as nat),
{
    if d == 0 {
        '0'
    } else if d == 1 {
        '1'
    } else if d == 2 {
        '2'
    } else if d == 3 {
        '3'
    } else if d == 4 {
        '4'
    } else if d == 5 {
        '5'
    } else if d == 6 {
        '6'
    } else if d == 7 {
        '7'
    } else if d == 8 {
        '8'
    } else {
        '9'
    }
}

/// Append `n` in decimal.
pub fn push_decimal(out: &mut String, n: u64)
    ensures
        final(out)@ == old(out)@ + decimal(n as nat),
    decreases n,
{
    if n >= 10 {
        push_decimal(out, n / 10);
    }
    push_char(out, digit(n % 10));
    assert(old(out)@ + decimal(n as nat) =~= if n >= 10 {
        old(out)@ + decimal((n / 10) as nat) + seq![digit_char((n % 10) as nat)]
    } else {
        old(out)@ + seq![digit_char(n as nat)]
    });
}

/// `n` in decimal.
pub fn decimal_string(n: u64) -> (r: String)
    ensures
        r@ == decimal(n as nat),
{
    let mut out = String::new();
    push_decimal(&mut out, n);
    assert(Seq::<char>::empty() + decimal(n as nat) =~= decimal(n as nat));
    out
}

pub open spec fn is_digit(c: char) -> bool {
    48 <= (c as u32) <= 57
}

/// The value of a run of decimal digits.
pub open spec fn digits_value(s: Seq<char>) -> nat
    decreases s.len(),
{
    if s.len() == 0 {
        0
    } else {
        digits_value(s.drop_last()) * 10 + ((s.last() as u32) - 48) as nat
    }
}

/// Every character of `d` is an ASCII digit.
pub open spec fn all_digits(d: Seq<char>) -> bool {
    forall|i: int| 0 <= i < d.len() ==> is_digit(#[trigger] d[i])
}

/// `s` without one leading `+`, if it has one.
pub open spec fn unsigned_part(s: Seq<char>) -> Seq<char> {
    if s.len() > 0 && s[0] == '+' {
        s.drop_first()
    } else {
        s
    }
}

/// `str::parse::<u32>`: an optional `+`, then at least one ASCII digit, and the value in range.
pub open spec fn parse_u32(s: Seq<char>) -> Option<u32> {
    let d = unsigned_part(s);
    if d.len() > 0 && all_digits(d) && digits_value(d) <= u32::MAX {
        Some(digits_value(d) as u32)
    } else {
        None
    }
}

proof fn lemma_digit_char_value(d: nat)
    requires
        d < 10,
    ensures
        is_digit(digit_char(d)),
        (digit_char(d) as u32) - 48 == d,
{
}

/// A number written in decimal is a run of digits whose value is the number.
pub proof fn lemma_decimal_digits(n: nat)
    ensures
        decimal(n).len() > 0,
        all_digits(decimal(n)),
        digits_value(decimal(n)) == n,
    decreases n,
{
    let s = decimal(n);
    if n >= 10 {
        lemma_decimal_digits(n / 10);
        lemma_digit_char_value(n % 10);
        assert(s.drop_last() =~= decimal(n / 10));
        assert(s.last() == digit_char(n % 10));
        assert((n / 10) * 10 + n % 10 == n) by (nonlinear_arith);
        assert(digits_value(s) == digits_value(decimal(n / 10)) * 10 + ((s.last() as u32) - 48) as nat);
        assert forall|i: int| 0 <= i < s.len() implies is_digit(#[trigger] s[i]) by {
            if i < s.len() - 1 {
                assert(s[i] == decimal(n / 10)[i]);
            }
        }
    } else {
        lemma_digit_char_value(n);
        assert(s.drop_last() =~= Seq::<char>::empty());
        assert(digits_value(s) == digits_value(s.drop_last()) * 10 + ((s.last() as u32) - 48) as nat);
    }
}

/// Law: counts are read in decimal — reading back any `u32` written in decimal (with or without
/// a leading `+`) gives that number.
pub proof fn law_decimal_reads_back(n: u32)
    ensures
        parse_u32(decimal(n as nat)) == Some(n),
        parse_u32(seq!['+'] + decimal(n as nat)) == Some(n),
{
    lemma_decimal_digits(n as nat);
    let d = decimal(n as nat);
    assert(is_digit(d[0]));
    assert(unsigned_part(d) == d);
    assert((seq!['+'] + d).drop_first() =~= d);
    assert(unsigned_part(seq!['+'] + d) == d);
}

proof fn lemma_digits_prefix(d: Seq<char>, i: int)
    requires
        0 <= i <= d.len(),
        all_digits(d),
    ensures
        digits_value(d.take(i)) <= digits_value(d),
    decreases d.len(),
{
    if i < d.len() {
        assert(d.drop_last().take(i) =~= d.take(i));
        lemma_digits_prefix(d.drop_last(), i);
    } else {
        assert(d.take(i) =~= d);
    }
}

/// Parse `s[from..to]` as a `u32`, the way `str::parse::<u32>` does.
pub fn parse_u32_range(s: &[char], from: usize, to: usize) -> (r: Option<u32>)
    requires
        from <= to <= s@.len(),
    ensures
        r == parse_u32(s@.subrange(from as int, to as int)),
{
    let ghost whole = s@.subrange(from as int, to as int);
    let mut start = from;
    if from < to && s[from] == '+' {
        start = from + 1;
    }
    let ghost d = s@.subrange(start as int, to as int);
    assert(d =~= unsigned_part(whole));
    if start >= to {
        return None;
    }
    let mut value: u64 = 0;
    let mut i = start;
    while i < to
        invariant
            from <= start <= i <= to <= s@.len(),
            d == s@.subrange(start as int, to as int),
            whole == s@.subrange(from as int, to as int),
            d == unsigned_part(whole),
            forall|k: int| start <= k < i ==> is_digit(#[trigger] s@[k]),
            value == digits_value(s@.subrange(start as int, i as int)),
            value <= u32::MAX,
        decreases to - i,
    {
        let c = s[i];
        let cu = c as u32;
        if !(cu >= 48 && cu <= 57) {
            assert(d[i - start] == c);
            assert(!is_digit(d[i - start]));
            assert(!all_digits(d));
            return None;
        }
        assert(s@.subrange(start as int, i + 1).drop_last() =~= s@.subrange(
            start as int,
            i as int,
        ));
        let next = value * 10 + (cu - 48) as u64;
        if next > 0xffff_ffff {
            proof {
                let k = (i + 1 - start) as int;
                assert(d.take(k) =~= s@.subrange(start as int, i + 1));
                assert(d.take(k).drop_last() =~= s@.subrange(start as int, i as int));
                assert(d.take(k).last() == c);
                assert(digits_value(d.take(k)) == value * 10 + ((c as u32) - 48) as nat);
                if all_digits(d) {
                    lemma_digits_prefix(d, k);
                }
            }
            return None;
        }
        value = next;
        i += 1;
    }
    assert(s@.subrange(start as int, i as int) =~= d);
    Some(value as u32)
}

} // verus!
