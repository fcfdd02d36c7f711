//! Diff presentation: size caps, binary refusal and terminal-control neutralization.
//!
//! Everything here treats its input as UNTRUSTED. Patch bytes come from repository content and
//! the external renderer is a program the user configured: neither may drive the terminal, so
//! every byte passes the control-sequence scanner before it reaches the screen.
use vstd::prelude::*;
use vstd::utf8::{encode_scalar, encode_utf8};
use crate::text::{
    ascii_from, chars_of, decimal, decode_lossy, find_char_from, join_prefix, join_with, lemma_find_char_bounds,
    line_end, lines, lines_from, lines_of, push_char,
    push_decimal, push_str, string_of, sub_vec, utf8_lossy, views_of,
};

verus! {

/// How escape sequences are treated.
#[derive(Debug, Clone, Copy, PartialEq, Eq, Structural)]
pub enum Mode {
    /// Keep SGR (colors) for styling; drop everything else.
    Styled,
    /// Drop all controls including SGR; keep newlines and tabs.
    Plain,
}

/// The first index at or after `j` holding a CSI final byte (`0x40..=0x7e`), or the end.
pub open spec fn csi_end(b: Seq<u8>, j: int) -> int
    decreases b.len() - j,
{
    if j < 0 || j >= b.len() {
        b.len() as int
    } else if 0x40 <= b[j] <= 0x7e {
        j
    } else {
        csi_end(b, j + 1)
    }
}

/// Where a string-argument sequence (OSC and its kin) whose body starts at `j` ends: just past
/// its BEL or its ST (`ESC \`), or the end of input.
pub open spec fn string_seq_end(b: Seq<u8>, j: int) -> int
    decreases b.len() - j,
{
    if j < 0 || j >= b.len() {
        b.len() as int
    } else if b[j] == 0x07 {
        j + 1
    } else if b[j] == 0x1b && j + 1 < b.len() && b[j + 1] == 0x5c {
        j + 2
    } else {
        string_seq_end(b, j + 1)
    }
}

/// Whether `c` introduces a string-argument sequence: OSC `]`, DCS `P`, SOS `X`, PM `^` and
/// APC `_`.
pub open spec fn is_string_intro(c: u8) -> bool {
    c == 0x5d || c == 0x50 || c == 0x58 || c == 0x5e || c == 0x5f
}

/// Whether a byte outside any escape sequence survives: printable bytes, UTF-8 bytes, newline
/// and tab.
pub open spec fn kept_byte(c: u8) -> bool {
    c >= 0x20 || c == 0x0a || c == 0x09
}

pub proof fn lemma_csi_end_bounds(b: Seq<u8>, j: int)
    requires
        0 <= j,
    ensures
        j <= csi_end(b, j) <= b.len() || (j > b.len() && csi_end(b, j) == b.len()),
    decreases b.len() - j,
{
    if j < b.len() && !(0x40 <= b[j] <= 0x7e) {
        lemma_csi_end_bounds(b, j + 1);
    }
}

pub proof fn lemma_string_seq_end_bounds(b: Seq<u8>, j: int)
    requires
        0 <= j,
    ensures
        j <= string_seq_end(b, j) <= b.len() || (j > b.len() && string_seq_end(b, j) == b.len()),
    decreases b.len() - j,
{
    if j < b.len() && b[j] != 0x07 && !(b[j] == 0x1b && j + 1 < b.len() && b[j + 1] == 0x5c) {
        lemma_string_seq_end_bounds(b, j + 1);
    }
}

/// The bytes of `b[i..]` with every terminal control removed: bare C0 controls other than
/// newline and tab dropped; CSI sequences dropped (except SGR, kept whole in `Styled` mode);
/// string-argument sequences dropped through their BEL or ST; any other escape dropped with the
/// byte after it; a truncated sequence at the end dropped.
pub open spec fn neutralize_from(b: Seq<u8>, i: int, mode: Mode) -> Seq<u8>
    decreases b.len() - i,
{
    if i < 0 || i >= b.len() {
        Seq::empty()
    } else if b[i] != 0x1b {
        (if kept_byte(b[i]) {
            seq![b[i]]
        } else {
            Seq::empty()
        }) + neutralize_from(b, i + 1, mode)
    } else if i + 1 >= b.len() {
        Seq::empty()
    } else if b[i + 1] == 0x5b {
        let j = csi_end(b, i + 2);
        proof {
            lemma_csi_end_bounds(b, i + 2);
        }
        let end = if j < b.len() {
            j + 1
        } else {
            b.len() as int
        };
        (if mode == Mode::Styled && j < b.len() && b[j] == 0x6d {
            b.subrange(i, end)
        } else {
            Seq::empty()
        }) + neutralize_from(b, end, mode)
    } else if is_string_intro(b[i + 1]) {
        proof {
            lemma_string_seq_end_bounds(b, i + 2);
        }
        neutralize_from(b, string_seq_end(b, i + 2), mode)
    } else {
        neutralize_from(b, i + 2, mode)
    }
}

/// The text of `raw` with every terminal control removed, as `String::from_utf8_lossy` reads the
/// surviving bytes.
pub open spec fn neutralized(raw: Seq<char>, mode: Mode) -> Seq<char> {
    utf8_lossy(neutralize_from(encode_utf8(raw), 0, mode))
}

/// Remove terminal-control escape sequences.
///
/// Operates on bytes (control sequences are all ASCII) and passes every other byte through, so
/// UTF-8 content survives verbatim. A truncated sequence at end-of-input is simply dropped.
pub fn neutralize(raw: &str, mode: Mode) -> (r: String)
    ensures
        r@ == neutralized(raw@, mode),
        mode == Mode::Plain ==> no_controls(r@),
        no_controls(raw@) ==> r@ == raw@,
{
    let bytes = raw.as_bytes();
    let ghost b = bytes@;
    let mut out: Vec<u8> = Vec::new();
    let mut i: usize = 0;
    while i < bytes.len()
        invariant
            b == bytes@,
            i <= b.len(),
            out@ + neutralize_from(b, i as int, mode) == neutralize_from(b, 0, mode),
        decreases bytes.len() - i,
    {
        let ghost before = out@;
        if bytes[i] != 0x1b {
            let c = bytes[i];
            // Keep newline and tab; drop every other C0 control. Non-ASCII bytes are UTF-8
            // continuation bytes and pass through untouched.
            if c >= 0x20 || c == 0x0a || c == 0x09 {
                out.push(c);
            }
            assert(out@ + neutralize_from(b, i + 1, mode) =~= before + neutralize_from(b, i as int, mode));
            i += 1;
        } else if i + 1 >= bytes.len() {
            // A lone trailing ESC.
            i += 1;
            assert(neutralize_from(b, i as int, mode) =~= Seq::<u8>::empty());
        } else if bytes[i + 1] == 0x5b {
            // CSI: parameters and intermediates until a final byte in 0x40..=0x7e.
            let start = i;
            let mut j = i + 2;
            while j < bytes.len() && !(0x40 <= bytes[j] && bytes[j] <= 0x7e)
                invariant
                    b == bytes@,
                    i + 2 <= j <= b.len(),
                    csi_end(b, i + 2) == csi_end(b, j as int),
                decreases bytes.len() - j,
            {
                j += 1;
            }
            let end = if j < bytes.len() {
                j + 1
            } else {
                bytes.len()
            };
            // SGR (`m`) is the only sequence that may survive, and only in Styled mode: it
            // paints our own region and cannot move the cursor or drive the terminal.
            if mode == Mode::Styled && j < bytes.len() && bytes[j] == 0x6d {
                let mut k = start;
                while k < end
                    invariant
                        b == bytes@,
                        start <= k <= end <= b.len(),
                        out@ == before + b.subrange(start as int, k as int),
                    decreases end - k,
                {
                    out.push(bytes[k]);
                    assert(out@ =~= before + b.subrange(start as int, k + 1));
                    k += 1;
                }
            }
            assert(out@ + neutralize_from(b, end as int, mode) =~= before + neutralize_from(b, i as int, mode));
            i = end;
        } else if bytes[i + 1] == 0x5d || bytes[i + 1] == 0x50 || bytes[i + 1] == 0x58
            || bytes[i + 1] == 0x5e || bytes[i + 1] == 0x5f {
            // OSC and the other string-argument sequences: drop through BEL or ST (ESC \).
            let mut j = i + 2;
            proof {
                lemma_string_seq_end_bounds(b, i + 2);
            }
            while j < bytes.len()
                invariant_except_break
                    b == bytes@,
                    i + 2 <= j <= b.len(),
                    string_seq_end(b, i + 2) == string_seq_end(b, j as int),
                ensures
                    j == string_seq_end(b, i + 2),
                decreases bytes.len() - j,
            {
                if bytes[j] == 0x07 {
                    j += 1;
                    break;
                }
                if bytes[j] == 0x1b && j + 1 < bytes.len() && bytes[j + 1] == 0x5c {
                    j += 2;
                    break;
                }
                j += 1;
            }
            assert(j == string_seq_end(b, i + 2));
            i = j;
        } else {
            // Any other two-byte escape.
            i += 2;
        }
    }
    assert(out@ =~= neutralize_from(b, 0, mode));
    proof {
        if mode == Mode::Plain {
            lemma_plain_keeps_no_controls(b, 0);
        }
    }
    proof {
        if no_controls(raw@) {
            lemma_inert_text_bytes(raw@);
            lemma_kept_bytes_pass_through(b, 0, mode);
            assert(b.skip(0) =~= b);
            vstd::utf8::encode_utf8_valid_utf8(raw@);
            vstd::utf8::encode_utf8_decode_utf8(raw@);
        }
    }
    let r = decode_lossy(out.as_slice());
    proof {
        if mode == Mode::Plain {
            assert forall|k: int| 0 <= k < r@.len() implies !is_forbidden(#[trigger] r@[k]) by {
                assert(ascii_from(out@, r@[k]));
                if (r@[k] as u32) < 0x20 {
                    let c = (r@[k] as u32) as u8;
                    let m = choose|m: int| 0 <= m < out@.len() && out@[m] == c;
                    assert(kept_byte(out@[m]));
                }
            }
        }
    }
    r
}

/// A character that can drive a terminal on its own: a C0 control other than newline and tab
/// (ESC among them).
pub open spec fn is_forbidden(c: char) -> bool {
    (c as u32) < 0x20 && (c as u32) != 0x0a && (c as u32) != 0x09
}

/// No character of `s` can drive a terminal on its own.
pub open spec fn no_controls(s: Seq<char>) -> bool {
    forall|k: int| 0 <= k < s.len() ==> !is_forbidden(#[trigger] s[k])
}

proof fn lemma_plain_keeps_no_controls(b: Seq<u8>, i: int)
    ensures
        forall|k: int|
            0 <= k < neutralize_from(b, i, Mode::Plain).len() ==> kept_byte(
                #[trigger] neutralize_from(b, i, Mode::Plain)[k],
            ),
    decreases b.len() - i,
{
    if 0 <= i < b.len() {
        if b[i] != 0x1b {
            lemma_plain_keeps_no_controls(b, i + 1);
            let head: Seq<u8> = if kept_byte(b[i]) {
                seq![b[i]]
            } else {
                Seq::empty()
            };
            let rest = neutralize_from(b, i + 1, Mode::Plain);
            assert(neutralize_from(b, i, Mode::Plain) == head + rest);
            assert forall|k: int| 0 <= k < (head + rest).len() implies kept_byte(#[trigger] (head + rest)[k]) by {
                if k < head.len() {
                    assert((head + rest)[k] == b[i]);
                } else {
                    assert((head + rest)[k] == rest[k - head.len()]);
                }
            }
        } else if i + 1 < b.len() {
            if b[i + 1] == 0x5b {
                lemma_csi_end_bounds(b, i + 2);
                let j = csi_end(b, i + 2);
                let end = if j < b.len() {
                    j + 1
                } else {
                    b.len() as int
                };
                lemma_plain_keeps_no_controls(b, end);
                assert(neutralize_from(b, i, Mode::Plain) =~= neutralize_from(b, end, Mode::Plain));
            } else if is_string_intro(b[i + 1]) {
                lemma_string_seq_end_bounds(b, i + 2);
                lemma_plain_keeps_no_controls(b, string_seq_end(b, i + 2));
                assert(neutralize_from(b, i, Mode::Plain) == neutralize_from(b, string_seq_end(b, i + 2), Mode::Plain));
            } else {
                lemma_plain_keeps_no_controls(b, i + 2);
                assert(neutralize_from(b, i, Mode::Plain) == neutralize_from(b, i + 2, Mode::Plain));
            }
        } else {
            assert(neutralize_from(b, i, Mode::Plain) =~= Seq::<u8>::empty());
        }
    } else {
        assert(neutralize_from(b, i, Mode::Plain) =~= Seq::<u8>::empty());
    }
}

/// Drop EVERY terminal control, SGR included, keeping line structure. For status lines and
/// notices, which are plain strings rather than styled spans.
pub fn neutralize_plain_text(raw: &str) -> (r: String)
    ensures
        r@ == neutralized(raw@, Mode::Plain),
        no_controls(r@),
        no_controls(raw@) ==> r@ == raw@,
{
    neutralize(raw, Mode::Plain)
}

/// The UTF-8 bytes of a character that cannot drive a terminal all survive neutralization.
proof fn lemma_inert_char_bytes(c: char)
    requires
        !is_forbidden(c),
    ensures
        forall|k: int| 0 <= k < encode_scalar(c as u32).len() ==> kept_byte(#[trigger] encode_scalar(c as u32)[k]),
{
    let v = c as u32;
    assert(forall|x: u8| #[trigger] (0x80u8 | x) >= 0x80u8) by (bit_vector);
    assert(forall|x: u8| #[trigger] (0xC0u8 | x) >= 0x80u8) by (bit_vector);
    assert(forall|x: u8| #[trigger] (0xE0u8 | x) >= 0x80u8) by (bit_vector);
    assert(forall|x: u8| #[trigger] (0xF0u8 | x) >= 0x80u8) by (bit_vector);
    if v <= 0x7f {
        assert((v & 0x7F) as u8 == v as u8 && v as u8 == v) by (bit_vector)
            requires
                v <= 0x7f,
        ;
    }
}

/// The UTF-8 bytes of text with no terminal control all survive neutralization.
proof fn lemma_inert_text_bytes(s: Seq<char>)
    requires
        no_controls(s),
    ensures
        forall|k: int| 0 <= k < encode_utf8(s).len() ==> kept_byte(#[trigger] encode_utf8(s)[k]),
    decreases s.len(),
{
    if s.len() > 0 {
        let rest = s.drop_first();
        assert(!is_forbidden(s[0]));
        assert forall|k: int| 0 <= k < rest.len() implies !is_forbidden(#[trigger] rest[k]) by {
            assert(rest[k] == s[k + 1]);
        }
        lemma_inert_char_bytes(s[0]);
        lemma_inert_text_bytes(rest);
        let e = encode_scalar(s[0] as u32);
        assert forall|k: int| 0 <= k < encode_utf8(s).len() implies kept_byte(#[trigger] encode_utf8(s)[k]) by {
            if k < e.len() {
                assert(encode_utf8(s)[k] == e[k]);
            } else {
                assert(encode_utf8(s)[k] == encode_utf8(rest)[k - e.len()]);
            }
        }
    }
}

/// Bytes that all survive pass through neutralization unchanged, in either mode.
proof fn lemma_kept_bytes_pass_through(b: Seq<u8>, i: int, mode: Mode)
    requires
        0 <= i <= b.len(),
        forall|k: int| i <= k < b.len() ==> kept_byte(#[trigger] b[k]),
    ensures
        neutralize_from(b, i, mode) == b.skip(i),
    decreases b.len() - i,
{
    if i < b.len() {
        assert(kept_byte(b[i]));
        lemma_kept_bytes_pass_through(b, i + 1, mode);
        assert(b.skip(i) =~= seq![b[i]] + b.skip(i + 1));
    } else {
        assert(b.skip(i) =~= Seq::<u8>::empty());
    }
}

/// Law: bytes with no terminal control pass through neutralization unchanged, so neutralizing
/// already-neutralized bytes changes nothing.
pub proof fn law_plain_neutralization_is_idempotent(b: Seq<u8>)
    ensures
        (forall|k: int| 0 <= k < b.len() ==> kept_byte(#[trigger] b[k])) ==> neutralize_from(b, 0, Mode::Plain) == b,
        neutralize_from(neutralize_from(b, 0, Mode::Plain), 0, Mode::Plain) == neutralize_from(b, 0, Mode::Plain),
{
    if forall|k: int| 0 <= k < b.len() ==> kept_byte(#[trigger] b[k]) {
        lemma_kept_bytes_pass_through(b, 0, Mode::Plain);
        assert(b.skip(0) =~= b);
    }
    let n = neutralize_from(b, 0, Mode::Plain);
    lemma_plain_keeps_no_controls(b, 0);
    lemma_kept_bytes_pass_through(n, 0, Mode::Plain);
    assert(n.skip(0) =~= n);
}

/// Law: plain neutralization leaves nothing that can drive a terminal — no ESC, no bare C0
/// control other than newline and tab — whatever the input.
pub proof fn law_plain_text_has_no_controls(raw: Seq<char>)
    ensures
        forall|k: int|
            0 <= k < neutralize_from(encode_utf8(raw), 0, Mode::Plain).len() ==> kept_byte(
                #[trigger] neutralize_from(encode_utf8(raw), 0, Mode::Plain)[k],
            ),
{
    lemma_plain_keeps_no_controls(encode_utf8(raw), 0);
}


// ---- caps ---------------------------------------------------------------------------------------

/// 2 MiB.
pub const DEFAULT_MAX_BYTES: u64 = 2097152;
/// 5000 lines.
pub const DEFAULT_MAX_LINES: usize = 5000;
/// How many leading bytes are inspected for the binary check.
pub const BINARY_SNIFF_BYTES: usize = 8192;

/// The display caps.
#[derive(Debug, Clone, Copy, PartialEq, Eq)]
pub struct Caps {
    pub max_bytes: u64,
    pub max_lines: usize,
}

impl Default for Caps {
    fn default() -> (c: Caps)
        ensures
            c.max_bytes == DEFAULT_MAX_BYTES,
            c.max_lines == DEFAULT_MAX_LINES,
    {
        Caps { max_bytes: DEFAULT_MAX_BYTES, max_lines: DEFAULT_MAX_LINES }
    }
}

/// The guarded result of preparing content for display.
#[derive(Debug, Clone, PartialEq, Eq)]
pub enum Prepared {
    /// Binary content: a placeholder, never the raw bytes.
    Binary,
    /// Capped content plus the notice explaining what was cut.
    Truncated { text: String, notice: String },
    /// Content shown whole.
    Full { text: String },
}

/// [`Prepared`] as plain values.
pub enum PreparedV {
    Binary,
    Truncated(Seq<char>, Seq<char>),
    Full(Seq<char>),
}

impl View for Prepared {
    type V = PreparedV;

    open spec fn view(&self) -> PreparedV {
        match self {
            Prepared::Binary => PreparedV::Binary,
            Prepared::Truncated { text, notice } => PreparedV::Truncated(text@, notice@),
            Prepared::Full { text } => PreparedV::Full(text@),
        }
    }
}

/// The text a prepared result displays (empty for `Binary`, which has its own placeholder).
pub open spec fn prepared_text(p: PreparedV) -> Seq<char> {
    match p {
        PreparedV::Binary => Seq::empty(),
        PreparedV::Truncated(t, _) => t,
        PreparedV::Full(t) => t,
    }
}

/// The truncation notice of a prepared result, if any.
pub open spec fn prepared_notice(p: PreparedV) -> Option<Seq<char>> {
    match p {
        PreparedV::Truncated(_, n) => Some(n),
        _ => None,
    }
}

impl Prepared {
    /// The text to display (empty for `Binary`, which has its own placeholder).
    pub fn text(&self) -> (r: &str)
        ensures
            r@ == prepared_text(self@),
    {
        match self {
            Prepared::Binary => {
                proof {
                    reveal_strlit("");
                }
                ""
            },
            Prepared::Truncated { text, .. } => text.as_str(),
            Prepared::Full { text } => text.as_str(),
        }
    }

    /// The truncation notice, if any.
    pub fn notice(&self) -> (r: Option<&str>)
        ensures
            match r {
                Some(n) => prepared_notice(self@) == Some(n@),
                None => prepared_notice(self@) is None,
            },
    {
        match self {
            Prepared::Truncated { notice, .. } => Some(notice.as_str()),
            _ => None,
        }
    }
}

/// Whether `bytes` look binary: a NUL in the sniffed prefix is the classic, cheap signal.
pub open spec fn binary_spec(bytes: Seq<u8>) -> bool {
    exists|i: int| 0 <= i < bytes.len() && i < BINARY_SNIFF_BYTES && #[trigger] bytes[i] == 0
}

/// Whether `bytes` look binary: a NUL in the sniffed prefix is the classic, cheap signal.
pub fn is_binary(bytes: &[u8]) -> (r: bool)
    ensures
        r == binary_spec(bytes@),
{
    let mut i: usize = 0;
    while i < bytes.len() && i < BINARY_SNIFF_BYTES
        invariant
            i <= bytes@.len(),
            i <= BINARY_SNIFF_BYTES,
            forall|k: int| 0 <= k < i ==> bytes@[k] != 0,
        decreases bytes.len() - i,
    {
        if bytes[i] == 0 {
            return true;
        }
        i += 1;
    }
    false
}

/// The UTF-8 width of one character.
pub open spec fn char_width(c: char) -> nat {
    encode_scalar(c as u32).len()
}

fn char_width_exec(c: char) -> (w: u64)
    ensures
        w == char_width(c),
{
    let u = c as u32;
    proof {
        vstd::utf8::char_is_scalar(c);
    }
    if u < 0x80 {
        1
    } else if u < 0x800 {
        2
    } else if u < 0x10000 {
        3
    } else {
        4
    }
}

/// How many leading characters of `s` fit in `max` bytes of UTF-8.
pub open spec fn fit_prefix(s: Seq<char>, max: int) -> nat
    decreases s.len(),
{
    if s.len() == 0 || char_width(s[0]) > max {
        0
    } else {
        1 + fit_prefix(s.drop_first(), max - char_width(s[0]))
    }
}

/// `s` cut to at most `max` bytes, backing up to a character boundary so no character is split.
pub open spec fn truncate_bytes(s: Seq<char>, max: int) -> Seq<char> {
    s.take(fit_prefix(s, max) as int)
}

proof fn lemma_fit_prefix_le(s: Seq<char>, max: int)
    ensures
        fit_prefix(s, max) <= s.len(),
    decreases s.len(),
{
    if s.len() > 0 && char_width(s[0]) <= max {
        lemma_fit_prefix_le(s.drop_first(), max - char_width(s[0]));
    }
}

fn truncate_to_bytes(s: &str, max_bytes: u64) -> (r: String)
    ensures
        r@ == truncate_bytes(s@, max_bytes as int),
{
    let cs = chars_of(s);
    let ghost v = s@;
    let mut k: usize = 0;
    let mut used: u64 = 0;
    let mut stop = false;
    assert(v.skip(0) =~= v);
    while k < cs.len() && !stop
        invariant
            cs@ == v,
            k <= v.len(),
            used <= max_bytes,
            fit_prefix(v, max_bytes as int) == k + fit_prefix(v.skip(k as int), max_bytes - used),
            stop ==> k < v.len() && char_width(v[k as int]) > max_bytes - used,
        decreases cs.len() - k, if stop { 0int } else { 1int },
    {
        let w = char_width_exec(cs[k]);
        assert(v.skip(k as int)[0] == v[k as int]);
        assert(v.skip(k as int).drop_first() =~= v.skip(k + 1));
        if w > max_bytes - used {
            stop = true;
        } else {
            used = used + w;
            k += 1;
        }
    }
    assert(fit_prefix(v, max_bytes as int) == k) by {
        if k == cs.len() {
            assert(v.skip(k as int).len() == 0);
        } else {
            assert(v.skip(k as int)[0] == v[k as int]);
        }
    }
    let r = string_of(sub_vec(cs.as_slice(), 0, k).as_slice());
    assert(r@ =~= truncate_bytes(v, max_bytes as int));
    r
}

/// Whether `s` takes more than `max` bytes of UTF-8.
fn exceeds_bytes(s: &str, max: u64) -> (r: bool)
    ensures
        r == (encode_utf8(s@).len() > max),
{
    let cs = chars_of(s);
    let ghost v = s@;
    let mut total: u128 = 0;
    let mut k: usize = 0;
    assert(v.skip(0) =~= v);
    while k < cs.len()
        invariant
            cs@ == v,
            v == s@,
            k <= v.len(),
            total <= max,
            encode_utf8(v).len() == total + encode_utf8(v.skip(k as int)).len(),
        decreases cs.len() - k,
    {
        let w = char_width_exec(cs[k]);
        assert(v.skip(k as int)[0] == v[k as int]);
        assert(v.skip(k as int).drop_first() =~= v.skip(k + 1));
        total = total + w as u128;
        k += 1;
        if total > max as u128 {
            return true;
        }
    }
    assert(v.skip(k as int).len() == 0);
    false
}

/// A short human label for a byte cap.
pub open spec fn human_bytes_spec(n: u64) -> Seq<char> {
    let kib = n / 1024;
    if kib >= 1024 && kib % 1024 == 0 {
        decimal((kib / 1024) as nat) + " MB"@
    } else {
        decimal(kib as nat) + " KB"@
    }
}

/// A short human label for a byte cap.
pub fn human_bytes(n: u64) -> (r: String)
    ensures
        r@ == human_bytes_spec(n),
{
    let kib = n / 1024;
    let mut out = String::new();
    if kib >= 1024 && kib % 1024 == 0 {
        push_decimal(&mut out, kib / 1024);
        push_str(&mut out, " MB");
    } else {
        push_decimal(&mut out, kib);
        push_str(&mut out, " KB");
    }
    assert(out@ =~= human_bytes_spec(n));
    out
}

/// The caps applied to `t`: at most `max_lines` lines (the first ones, rejoined with `\n`), then
/// at most `max_bytes` bytes; the notice names every cap that bit, in that order.
pub open spec fn cap_spec(t: Seq<char>, caps: Caps) -> PreparedV {
    let ls = lines(t);
    let by_lines = ls.len() > caps.max_lines;
    let t1 = if by_lines {
        join_with(ls.take(caps.max_lines as int), "\n"@)
    } else {
        t
    };
    let by_bytes = encode_utf8(t1).len() > caps.max_bytes;
    let t2 = if by_bytes {
        truncate_bytes(t1, caps.max_bytes as int)
    } else {
        t1
    };
    let line_reason = "truncated at "@ + decimal(caps.max_lines as nat) + " lines"@;
    let byte_reason = "truncated at "@ + human_bytes_spec(caps.max_bytes);
    if by_lines && by_bytes {
        PreparedV::Truncated(t2, line_reason + "; "@ + byte_reason)
    } else if by_lines {
        PreparedV::Truncated(t2, line_reason)
    } else if by_bytes {
        PreparedV::Truncated(t2, byte_reason)
    } else {
        PreparedV::Full(t2)
    }
}

/// How many newlines `s` holds.
pub open spec fn newline_count(s: Seq<char>) -> nat
    decreases s.len(),
{
    if s.len() == 0 {
        0
    } else {
        newline_count(s.drop_last()) + if s.last() == '\n' {
            1nat
        } else {
            0nat
        }
    }
}

proof fn lemma_newline_count_concat(a: Seq<char>, b: Seq<char>)
    ensures
        newline_count(a + b) == newline_count(a) + newline_count(b),
    decreases b.len(),
{
    if b.len() == 0 {
        assert(a + b =~= a);
    } else {
        lemma_newline_count_concat(a, b.drop_last());
        assert((a + b).drop_last() =~= a + b.drop_last());
        assert((a + b).last() == b.last());
    }
}

proof fn lemma_newline_count_none(s: Seq<char>)
    requires
        forall|k: int| 0 <= k < s.len() ==> #[trigger] s[k] != '\n',
    ensures
        newline_count(s) == 0,
    decreases s.len(),
{
    if s.len() > 0 {
        assert forall|k: int| 0 <= k < s.drop_last().len() implies #[trigger] s.drop_last()[k] != '\n' by {
            assert(s.drop_last()[k] == s[k]);
        }
        lemma_newline_count_none(s.drop_last());
        assert(s.last() == s[s.len() - 1]);
    }
}

proof fn lemma_join_cons(a: Seq<char>, rest: Seq<Seq<char>>, sep: Seq<char>)
    requires
        rest.len() >= 1,
    ensures
        join_with(seq![a] + rest, sep) == a + sep + join_with(rest, sep),
    decreases rest.len(),
{
    let all = seq![a] + rest;
    assert(join_with(all, sep) == join_with(all.drop_last(), sep) + sep + all.last());
    if rest.len() == 1 {
        assert(all.drop_last() =~= seq![a]);
        assert(all.last() == rest[0]);
        assert(join_with(seq![a], sep) == a);
        assert(join_with(rest, sep) == rest[0]);
    } else {
        lemma_join_cons(a, rest.drop_last(), sep);
        assert(all.drop_last() =~= seq![a] + rest.drop_last());
        assert(all.last() == rest.last());
        assert(join_with(rest, sep) == join_with(rest.drop_last(), sep) + sep + rest.last());
        assert(a + sep + join_with(rest.drop_last(), sep) + sep + rest.last() =~= a + sep + (join_with(
            rest.drop_last(),
            sep,
        ) + sep + rest.last()));
    }
}

/// The first `k` lines of `s[i..]`, rejoined with `\n`, are `s[i..j]` for the position `j` of
/// the `k`-th newline from `i`, when `s` holds no `\r` and more than `k` lines follow.
proof fn lemma_head_lines(s: Seq<char>, i: int, k: int)
    requires
        forall|m: int| 0 <= m < s.len() ==> #[trigger] s[m] != '\r',
        0 <= i <= s.len(),
        1 <= k < lines_from(s, i).len(),
    ensures
        exists|j: int|
            i <= j < s.len() && s[j] == '\n' && join_with(lines_from(s, i).take(k), "\n"@) == #[trigger] s.subrange(i, j)
                && newline_count(s.subrange(i, j)) == k - 1,
    decreases k,
{
    reveal_strlit("\n");
    let e = find_char_from(s, '\n', i);
    lemma_find_char_bounds(s, '\n', i);
    if e >= s.len() {
        assert(lines_from(s, i).len() == 1);
    }
    assert(e < s.len() && s[e] == '\n');
    if e > i {
        assert(s[e - 1] != '\r');
    }
    assert(line_end(s, i) == e);
    let first = s.subrange(i, e);
    let rest = lines_from(s, e + 1);
    assert(lines_from(s, i) == seq![first] + rest);
    assert forall|m: int| 0 <= m < first.len() implies #[trigger] first[m] != '\n' by {
        assert(first[m] == s[i + m]);
    }
    lemma_newline_count_none(first);
    if k == 1 {
        assert(lines_from(s, i).take(1) =~= seq![first]);
        assert(s.subrange(i, e) == first);
    } else {
        lemma_head_lines(s, e + 1, k - 1);
        let j = choose|j: int|
            e + 1 <= j < s.len() && s[j] == '\n' && join_with(rest.take(k - 1), "\n"@) == #[trigger] s.subrange(e + 1, j)
                && newline_count(s.subrange(e + 1, j)) == k - 2;
        assert(lines_from(s, i).take(k) =~= seq![first] + rest.take(k - 1));
        lemma_join_cons(first, rest.take(k - 1), "\n"@);
        assert(s.subrange(i, j) =~= first + seq!['\n'] + s.subrange(e + 1, j));
        assert("\n"@ =~= seq!['\n']);
        lemma_newline_count_concat(first + seq!['\n'], s.subrange(e + 1, j));
        lemma_newline_count_concat(first, seq!['\n']);
        assert(newline_count(seq!['\n']) == 1) by {
            assert(seq!['\n'].drop_last() =~= Seq::<char>::empty());
            assert(newline_count(Seq::<char>::empty()) == 0);
            assert(seq!['\n'].last() == '\n');
        }
        assert(s.subrange(i, j) == join_with(lines_from(s, i).take(k), "\n"@));
    }
}

/// Law: the caps keep the head of the diff. For text with no `\r`, what is shown is always a
/// prefix of the text; when the line cap bites, it is cut just before the `max_lines`-th newline
/// (so it holds exactly the first `max_lines` lines), further cut only where the byte cap also
/// bites; and when neither cap bites, the text is shown whole.
pub proof fn law_caps_keep_the_head(t: Seq<char>, caps: Caps)
    requires
        forall|m: int| 0 <= m < t.len() ==> #[trigger] t[m] != '\r',
    ensures
        prepared_text(cap_spec(t, caps)).is_prefix_of(t),
        lines(t).len() <= caps.max_lines && encode_utf8(t).len() <= caps.max_bytes ==> cap_spec(t, caps)
            == PreparedV::Full(t),
        lines(t).len() > caps.max_lines && caps.max_lines >= 1 ==> exists|j: int|
            0 <= j < t.len() && t[j] == '\n' && newline_count(#[trigger] t.take(j)) == caps.max_lines - 1
                && prepared_text(cap_spec(t, caps)).is_prefix_of(t.take(j)) && (encode_utf8(t.take(j)).len()
                <= caps.max_bytes ==> prepared_text(cap_spec(t, caps)) == t.take(j)),
{
    let ls = lines(t);
    let by_lines = ls.len() > caps.max_lines;
    let t1 = if by_lines {
        join_with(ls.take(caps.max_lines as int), "\n"@)
    } else {
        t
    };
    let by_bytes = encode_utf8(t1).len() > caps.max_bytes;
    let t2 = if by_bytes {
        truncate_bytes(t1, caps.max_bytes as int)
    } else {
        t1
    };
    assert(prepared_text(cap_spec(t, caps)) == t2);
    lemma_fit_prefix_le(t1, caps.max_bytes as int);
    assert(t2.is_prefix_of(t1)) by {
        if by_bytes {
            assert(t2 =~= t1.subrange(0, t2.len() as int));
        } else {
            assert(t1 =~= t1.subrange(0, t1.len() as int));
        }
    }
    if by_lines {
        if caps.max_lines >= 1 {
            lemma_head_lines(t, 0, caps.max_lines as int);
            let j = choose|j: int|
                0 <= j < t.len() && t[j] == '\n' && join_with(lines_from(t, 0).take(caps.max_lines as int), "\n"@)
                    == #[trigger] t.subrange(0, j) && newline_count(t.subrange(0, j)) == caps.max_lines - 1;
            assert(t1 == t.take(j));
            assert(t2 =~= t.subrange(0, t2.len() as int));
            assert(t.take(j) =~= t.subrange(0, j));
        } else {
            assert(ls.take(0) =~= Seq::<Seq<char>>::empty());
            assert(t1 == Seq::<char>::empty());
            assert(t2 =~= t.subrange(0, 0));
        }
    } else {
        assert(t2 =~= t.subrange(0, t2.len() as int));
    }
}

/// Apply the line and byte caps, producing the notice when either bites.
pub fn cap(text: String, caps: Caps) -> (r: Prepared)
    ensures
        r@ == cap_spec(text@, caps),
{
    let ls = lines_of(text.as_str());
    let by_lines = ls.len() > caps.max_lines;
    let t1 = if by_lines {
        join_prefix(ls.as_slice(), caps.max_lines, "\n")
    } else {
        text
    };
    assert(t1@ == if by_lines {
        join_with(lines(text@).take(caps.max_lines as int), "\n"@)
    } else {
        text@
    });
    let by_bytes = exceeds_bytes(t1.as_str(), caps.max_bytes);
    let t2 = if by_bytes {
        truncate_to_bytes(t1.as_str(), caps.max_bytes)
    } else {
        t1
    };
    let mut line_reason = String::from_str("truncated at ");
    push_decimal(&mut line_reason, caps.max_lines as u64);
    push_str(&mut line_reason, " lines");
    let mut byte_reason = String::from_str("truncated at ");
    let h = human_bytes(caps.max_bytes);
    push_str(&mut byte_reason, h.as_str());
    if by_lines && by_bytes {
        let mut notice = line_reason;
        push_str(&mut notice, "; ");
        push_str(&mut notice, byte_reason.as_str());
        Prepared::Truncated { text: t2, notice }
    } else if by_lines {
        Prepared::Truncated { text: t2, notice: line_reason }
    } else if by_bytes {
        Prepared::Truncated { text: t2, notice: byte_reason }
    } else {
        Prepared::Full { text: t2 }
    }
}

/// A line with which git says itself that it declined to diff a binary file.
pub open spec fn is_binary_marker(l: Seq<char>) -> bool {
    (l.len() >= 13 && l.take(13) == "Binary files "@) || l == "GIT binary patch"@
}

/// Raw `git diff` output prepared for display: binary content (a NUL in the sniffed prefix, or
/// git's own binary marker line) becomes a placeholder; anything else is decoded and capped.
pub open spec fn prepare_patch_spec(bytes: Seq<u8>, caps: Caps) -> PreparedV {
    if binary_spec(bytes) {
        PreparedV::Binary
    } else if exists|i: int| 0 <= i < lines(utf8_lossy(bytes)).len() && #[trigger] is_binary_marker(lines(utf8_lossy(bytes))[i]) {
        PreparedV::Binary
    } else {
        cap_spec(utf8_lossy(bytes), caps)
    }
}

/// Prepare raw `git diff` output for display.
pub fn prepare_patch(bytes: &[u8], caps: Caps) -> (r: Prepared)
    ensures
        r@ == prepare_patch_spec(bytes@, caps),
{
    if is_binary(bytes) {
        return Prepared::Binary;
    }
    let text = decode_lossy(bytes);
    let ls = lines_of(text.as_str());
    let mut i: usize = 0;
    while i < ls.len()
        invariant
            i <= ls@.len(),
            text@ == utf8_lossy(bytes@),
            views_of(ls@) == lines(text@),
            forall|k: int| 0 <= k < i ==> !#[trigger] is_binary_marker(views_of(ls@)[k]),
        decreases ls.len() - i,
    {
        let l = chars_of(ls[i].as_str());
        assert(views_of(ls@)[i as int] == l@);
        // git says so itself when it declines to diff a binary file.
        let marker = (l.len() >= 13 && crate::text::range_eq(l.as_slice(), 0, 13, "Binary files "))
            || crate::text::chars_eq(l.as_slice(), "GIT binary patch");
        if marker {
            proof {
                if l@.len() >= 13 {
                    assert(l@.subrange(0, 13) =~= l@.take(13));
                }
                assert(is_binary_marker(lines(utf8_lossy(bytes@))[i as int]));
            }
            return Prepared::Binary;
        }
        proof {
            if l@.len() >= 13 {
                assert(l@.subrange(0, 13) =~= l@.take(13));
            }
        }
        i += 1;
    }
    cap(text, caps)
}


// ---- untracked files ------------------------------------------------------------------------------

/// Every line as an addition: `+line\n` each.
pub open spec fn added_lines(ls: Seq<Seq<char>>) -> Seq<char>
    decreases ls.len(),
{
    if ls.len() == 0 {
        Seq::empty()
    } else {
        added_lines(ls.drop_last()) + "+"@ + ls.last() + "\n"@
    }
}

/// A synthetic all-additions patch for a new file at `rel` holding `ls`: a real unified-diff
/// header, so an external renderer styles it exactly like any other addition.
pub open spec fn synthetic_patch(rel: Seq<char>, ls: Seq<Seq<char>>) -> Seq<char> {
    "diff --git a/"@ + rel + " b/"@ + rel + "\n"@ + "new file mode 100644\n"@ + "--- /dev/null\n"@
        + "+++ b/"@ + rel + "\n"@ + "@@ -0,0 +1,"@ + decimal(ls.len()) + " @@\n"@ + added_lines(ls)
}

/// An untracked file prepared for display from what a bounded read of it gave: a message when
/// it could not be read, a placeholder when it is binary, else its synthetic patch, capped.
pub open spec fn untracked_spec(rel: Seq<char>, content: Option<Seq<u8>>, caps: Caps) -> PreparedV {
    match content {
        None => PreparedV::Full("could not read "@ + rel),
        Some(b) => if binary_spec(b) {
            PreparedV::Binary
        } else {
            cap_spec(synthetic_patch(rel, lines(utf8_lossy(b))), caps)
        },
    }
}

/// How much of an untracked file to read: one byte past the byte cap, so a file that exceeds
/// the cap is detectable rather than looking like an exact fit, and a huge file is never read
/// whole.
pub fn untracked_read_limit(caps: Caps) -> (r: u64)
    ensures
        r == if caps.max_bytes == u64::MAX {
            u64::MAX as int
        } else {
            caps.max_bytes + 1
        },
{
    if caps.max_bytes == u64::MAX {
        u64::MAX
    } else {
        caps.max_bytes + 1
    }
}

/// Prepare an untracked file as a synthetic all-additions patch, from the bytes a bounded read
/// of it gave (`None` when it could not be read).
pub fn prepare_untracked_bytes(rel: &str, content: Option<&[u8]>, caps: Caps) -> (r: Prepared)
    ensures
        r@ == untracked_spec(
            rel@,
            match content {
                Some(b) => Some(b@),
                None => None,
            },
            caps,
        ),
{
    let buf = match content {
        Some(b) => b,
        None => {
            let mut msg = String::from_str("could not read ");
            push_str(&mut msg, rel);
            return Prepared::Full { text: msg };
        },
    };
    if is_binary(buf) {
        return Prepared::Binary;
    }
    let body = decode_lossy(buf);
    let ls = lines_of(body.as_str());
    let mut out = String::from_str("diff --git a/");
    push_str(&mut out, rel);
    push_str(&mut out, " b/");
    push_str(&mut out, rel);
    push_str(&mut out, "\n");
    push_str(&mut out, "new file mode 100644\n");
    push_str(&mut out, "--- /dev/null\n");
    push_str(&mut out, "+++ b/");
    push_str(&mut out, rel);
    push_str(&mut out, "\n");
    push_str(&mut out, "@@ -0,0 +1,");
    push_decimal(&mut out, ls.len() as u64);
    push_str(&mut out, " @@\n");
    let ghost header = out@;
    let mut i: usize = 0;
    while i < ls.len()
        invariant
            i <= ls@.len(),
            out@ == header + added_lines(views_of(ls@).take(i as int)),
        decreases ls.len() - i,
    {
        push_str(&mut out, "+");
        push_str(&mut out, ls[i].as_str());
        push_str(&mut out, "\n");
        assert(views_of(ls@).take(i + 1).drop_last() =~= views_of(ls@).take(i as int));
        assert(out@ =~= header + added_lines(views_of(ls@).take(i + 1)));
        i += 1;
    }
    assert(views_of(ls@).take(i as int) =~= views_of(ls@));
    assert(out@ =~= synthetic_patch(rel@, lines(utf8_lossy(buf@))));
    cap(out, caps)
}

// ---- the external renderer ------------------------------------------------------------------------

/// An external diff styler. `None` from [`DiffRenderer::render`] means "not available" — a
/// fallback, never an error.
pub trait DiffRenderer: Send + Sync {
    fn render(&self, patch: &str) -> Option<String>;

    /// The program's name, for the fallback notice.
    fn name(&self) -> &str;
}

/// No external styling at all: what `diff_tool = ""` selects. Produces no notice, because an
/// explicitly disabled renderer is a choice, not a problem.
pub struct NoRenderer;

impl DiffRenderer for NoRenderer {
    fn render(&self, _patch: &str) -> (r: Option<String>)
        ensures
            r is None,
    {
        None
    }

    fn name(&self) -> (r: &str)
        ensures
            r@ == Seq::<char>::empty(),
    {
        proof {
            reveal_strlit("");
        }
        ""
    }
}

/// A finished diff body, in whatever form the display takes, plus a notice to surface.
pub struct Rendered<T> {
    pub text: T,
    pub notice: Option<String>,
}

/// What to hand the external renderer: the prepared text, never binary content — there is
/// nothing to style and no reason to hand repository bytes to another program.
pub fn styling_input(prepared: &Prepared) -> (r: Option<&str>)
    ensures
        match r {
            Some(t) => !(prepared@ is Binary) && t@ == prepared_text(prepared@),
            None => prepared@ is Binary,
        },
{
    match prepared {
        Prepared::Binary => None,
        Prepared::Truncated { text, .. } => Some(text.as_str()),
        Prepared::Full { text } => Some(text.as_str()),
    }
}

/// The body and notice shown for prepared content, given what the renderer made of its text
/// (`None`: it is not available) and the renderer's name. Binary content shows a placeholder
/// and never reaches the renderer. A renderer that failed is reported by name — unless it has
/// none, which means the user disabled styling and needs no apology — and the plain text is
/// shown; the notices are joined with `; `.
pub open spec fn compose_spec(p: PreparedV, styled: Option<Seq<char>>, name: Seq<char>) -> (Seq<char>, Option<Seq<char>>) {
    match p {
        PreparedV::Binary => ("Binary file differs"@, None),
        _ => {
            let fallback = styled is None && name.len() > 0;
            let body = match styled {
                Some(s) => s,
                None => prepared_text(p),
            };
            let fb = name + " is not available — showing plain text"@;
            let notice = match prepared_notice(p) {
                Some(n) => if fallback {
                    Some(n + "; "@ + fb)
                } else {
                    Some(n)
                },
                None => if fallback {
                    Some(fb)
                } else {
                    None
                },
            };
            (body, notice)
        },
    }
}

/// The body and notice shown for prepared content, given what the renderer made of its text.
pub fn compose(prepared: &Prepared, styled: Option<String>, renderer_name: &str) -> (r: (String, Option<String>))
    ensures
        (r.0@, match r.1 {
            Some(n) => Some(n@),
            None => None,
        }) == compose_spec(
            prepared@,
            match styled {
                Some(s) => Some(s@),
                None => None,
            },
            renderer_name@,
        ),
{
    if let Prepared::Binary = prepared {
        return (String::from_str("Binary file differs"), None);
    }
    let name_chars = chars_of(renderer_name);
    let fallback = styled.is_none() && name_chars.len() > 0;
    let body = match styled {
        Some(s) => s,
        None => String::from_str(prepared.text()),
    };
    let mut fb = String::from_str(renderer_name);
    push_str(&mut fb, " is not available — showing plain text");
    let notice = match prepared.notice() {
        Some(n) => if fallback {
            let mut joined = String::from_str(n);
            push_str(&mut joined, "; ");
            push_str(&mut joined, fb.as_str());
            Some(joined)
        } else {
            Some(String::from_str(n))
        },
        None => if fallback {
            Some(fb)
        } else {
            None
        },
    };
    (body, notice)
}

// ---- laws --------------------------------------------------------------------------------------

proof fn lemma_truncate_fits(s: Seq<char>, max: int)
    requires
        max >= 0,
    ensures
        encode_utf8(truncate_bytes(s, max)).len() <= max,
    decreases s.len(),
{
    let k = fit_prefix(s, max);
    lemma_fit_prefix_le(s, max);
    if k > 0 {
        let w = char_width(s[0]);
        lemma_truncate_fits(s.drop_first(), max - w);
        assert(s.take(k as int).drop_first() =~= s.drop_first().take(k - 1));
        assert(s.take(k as int)[0] == s[0]);
    } else {
        assert(s.take(0) =~= Seq::<char>::empty());
    }
}

/// Law: whatever the content, capped text never exceeds the byte cap.
pub proof fn law_capped_text_fits_the_byte_cap(t: Seq<char>, caps: Caps)
    ensures
        encode_utf8(prepared_text(cap_spec(t, caps))).len() <= caps.max_bytes,
{
    let ls = lines(t);
    let t1 = if ls.len() > caps.max_lines {
        join_with(ls.take(caps.max_lines as int), "\n"@)
    } else {
        t
    };
    if encode_utf8(t1).len() > caps.max_bytes {
        lemma_truncate_fits(t1, caps.max_bytes as int);
    }
}

/// Law: binary content is shown as a placeholder and never styled, whatever the renderer did.
pub proof fn law_binary_is_never_styled(styled: Option<Seq<char>>, name: Seq<char>)
    ensures
        compose_spec(PreparedV::Binary, styled, name) == ("Binary file differs"@, None::<Seq<char>>),
{
}
} // verus!
