//! The pure parts of the program's edges: which behavior an argv selects, the OSC 52 clipboard
//! sequence, and the `$EDITOR` argv. Running them — the terminal, stdout, the child process —
//! is the caller's part.
use vstd::prelude::*;
use crate::config::Settings;
use crate::text::{
    chars_of, trim, trim_chars, find_ws, find_ws_from, is_ws, lemma_find_ws_bounds, lemma_skip_ws_bounds, push_char,
    push_str, skip_ws, skip_ws_from, string_of, str_eq, sub_vec, views_of,
};

verus! {

/// Which of the binary's four behaviors a given argv selects.
#[derive(Debug, Clone, Copy, PartialEq, Eq, Structural)]
pub enum Dispatch {
    Version,
    LaunchDecision,
    LaunchDecisionTab,
    Tui,
}

/// The behavior an argv selects, by its first argument.
pub open spec fn classify_spec(args: Seq<Seq<char>>) -> Dispatch {
    if args.len() < 2 {
        Dispatch::Tui
    } else if args[1] == "--version"@ {
        Dispatch::Version
    } else if args[1] == "--launch-decision"@ {
        Dispatch::LaunchDecision
    } else if args[1] == "--launch-decision-tab"@ {
        Dispatch::LaunchDecisionTab
    } else {
        Dispatch::Tui
    }
}

/// Which behavior an argv selects. Kept separate from running it so this routing decision is
/// testable without a terminal, a child process, or stdin.
pub fn classify(args: &[String]) -> (r: Dispatch)
    ensures
        r == classify_spec(views_of(args@)),
{
    if args.len() < 2 {
        return Dispatch::Tui;
    }
    let a = args[1].as_str();
    assert(views_of(args@)[1] == a@);
    if str_eq(a, "--version") {
        Dispatch::Version
    } else if str_eq(a, "--launch-decision") {
        Dispatch::LaunchDecision
    } else if str_eq(a, "--launch-decision-tab") {
        Dispatch::LaunchDecisionTab
    } else {
        Dispatch::Tui
    }
}

// ---- base64 ------------------------------------------------------------------------------------

/// The base64 digit for a value below 64 (RFC 4648's standard alphabet).
pub open spec fn b64_digit(v: int) -> char {
    if v < 26 {
        (65 + v) as char
    } else if v < 52 {
        (97 + v - 26) as char
    } else if v < 62 {
        (48 + v - 52) as char
    } else if v == 62 {
        '+'
    } else {
        '/'
    }
}

/// The four digits of one group of up to three bytes, `=`-padded.
pub open spec fn b64_group(g: Seq<u8>) -> Seq<char> {
    let b0 = g[0] as int;
    let b1 = if g.len() > 1 {
        g[1] as int
    } else {
        0
    };
    let b2 = if g.len() > 2 {
        g[2] as int
    } else {
        0
    };
    seq![
        b64_digit(b0 / 4),
        b64_digit((b0 % 4) * 16 + b1 / 16),
        if g.len() > 1 {
            b64_digit((b1 % 16) * 4 + b2 / 64)
        } else {
            '='
        },
        if g.len() > 2 {
            b64_digit(b2 % 64)
        } else {
            '='
        },
    ]
}

/// Standard base64 (RFC 4648): each group of three bytes as four digits, the last partial group
/// padded with `=`.
pub open spec fn base64_spec(b: Seq<u8>) -> Seq<char>
    decreases b.len(),
{
    if b.len() == 0 {
        Seq::empty()
    } else if b.len() <= 3 {
        b64_group(b)
    } else {
        b64_group(b.take(3)) + base64_spec(b.skip(3))
    }
}

fn digit(v: u32) -> (c: char)
    requires
        v < 64,
    ensures
        c == b64_digit(v as int),
{
    if v < 26 {
        ((65 + v) as u8) as char
    } else if v < 52 {
        ((97 + v - 26) as u8) as char
    } else if v < 62 {
        ((48 + v - 52) as u8) as char
    } else if v == 62 {
        '+'
    } else {
        '/'
    }
}

/// Standard base64 (RFC 4648) — a few lines, so OSC 52 needs no extra dependency.
pub fn base64_encode(input: &[u8]) -> (r: String)
    ensures
        r@ == base64_spec(input@),
{
    let mut out = String::new();
    let mut i: usize = 0;
    assert(input@.skip(0) =~= input@);
    while i < input.len()
        invariant
            i <= input@.len(),
            out@ + base64_spec(input@.skip(i as int)) == base64_spec(input@),
        decreases input.len() - i,
    {
        let rest = input.len() - i;
        let b0 = input[i] as u32;
        let b1: u32 = if rest > 1 {
            input[i + 1] as u32
        } else {
            0
        };
        let b2: u32 = if rest > 2 {
            input[i + 2] as u32
        } else {
            0
        };
        let ghost before = out@;
        let ghost s = input@.skip(i as int);
        let ghost g = if s.len() <= 3 {
            s
        } else {
            s.take(3)
        };
        push_char(&mut out, digit(b0 / 4));
        push_char(&mut out, digit((b0 % 4) * 16 + b1 / 16));
        push_char(&mut out, if rest > 1 {
            digit((b1 % 16) * 4 + b2 / 64)
        } else {
            '='
        });
        push_char(&mut out, if rest > 2 {
            digit(b2 % 64)
        } else {
            '='
        });
        proof {
            assert(g[0] == input@[i as int]);
            if rest > 1 {
                assert(g[1] == input@[i + 1]);
            }
            if rest > 2 {
                assert(g[2] == input@[i + 2]);
            }
            assert(out@ =~= before + b64_group(g));
        }
        if rest <= 3 {
            i = input.len();
            assert(input@.skip(i as int) =~= Seq::<u8>::empty());
        } else {
            assert(s.skip(3) =~= input@.skip(i + 3));
            i = i + 3;
        }
    }
    assert(input@.skip(i as int) =~= Seq::<u8>::empty());
    out
}

/// Whether `c` is a base64 digit or the padding `=`.
pub open spec fn is_b64_char(c: char) -> bool {
    ('A' <= c <= 'Z') || ('a' <= c <= 'z') || ('0' <= c <= '9') || c == '+' || c == '/' || c == '='
}

/// Law: base64 text is made only of the alphabet and padding, so it can carry no ESC or BEL
/// whatever the bytes it encodes.
pub proof fn law_base64_is_inert(b: Seq<u8>)
    ensures
        forall|k: int| 0 <= k < base64_spec(b).len() ==> is_b64_char(#[trigger] base64_spec(b)[k]),
    decreases b.len(),
{
    if b.len() > 3 {
        law_base64_is_inert(b.skip(3));
        let g = b64_group(b.take(3));
        let rest = base64_spec(b.skip(3));
        assert forall|k: int| 0 <= k < (g + rest).len() implies is_b64_char(#[trigger] (g + rest)[k]) by {
            if k >= g.len() {
                assert((g + rest)[k] == rest[k - g.len()]);
            }
        }
    }
}

/// `ESC ] 52 ; c ; <base64> BEL`: the terminal clipboard sequence for `text`.
pub open spec fn osc52_spec(text: Seq<char>) -> Seq<char> {
    seq!['\x1b', ']', '5', '2', ';', 'c', ';'] + base64_spec(vstd::utf8::encode_utf8(text)) + seq!['\x07']
}

/// `ESC ] 52 ; c ; <base64> BEL`. The payload is base64 precisely so an attacker-chosen file
/// name cannot carry an ESC or BEL that terminates the sequence early.
pub fn osc52_sequence(text: &str) -> (r: String)
    ensures
        r@ == osc52_spec(text@),
{
    let mut out = String::new();
    push_char(&mut out, '\x1b');
    push_str(&mut out, "]52;c;");
    let b = base64_encode(text.as_bytes());
    push_str(&mut out, b.as_str());
    push_char(&mut out, '\x07');
    proof {
        reveal_strlit("]52;c;");
    }
    assert(out@ =~= osc52_spec(text@));
    out
}

// ---- the editor ----------------------------------------------------------------------------------

/// The whitespace-separated words of `s[i..]` (`str::split_whitespace`).
pub open spec fn words_from(s: Seq<char>, i: int) -> Seq<Seq<char>>
    decreases s.len() - i,
{
    let st = skip_ws_from(s, i);
    if i < 0 || st >= s.len() {
        Seq::empty()
    } else {
        proof {
            lemma_skip_ws_bounds(s, i);
            lemma_find_ws_bounds(s, st);
        }
        seq![s.subrange(st, find_ws_from(s, st))] + words_from(s, find_ws_from(s, st))
    }
}

/// The editor argv: `$EDITOR` split into program plus arguments, `vi` when it names nothing
/// (POSIX guarantees `vi`, and a silent dead `e` key would be worse), then the path.
pub open spec fn editor_argv_spec(editor: Option<Seq<char>>, path: Seq<char>) -> Seq<Seq<char>> {
    let words = match editor {
        Some(e) => words_from(e, 0),
        None => Seq::empty(),
    };
    (if words.len() == 0 {
        seq!["vi"@]
    } else {
        words
    }).push(path)
}

/// Split `$EDITOR` into program plus arguments and append the path.
pub fn editor_argv(editor: Option<String>, path: &str) -> (r: Vec<String>)
    ensures
        views_of(r@) == editor_argv_spec(
            match editor {
                Some(e) => Some(e@),
                None => None,
            },
            path@,
        ),
{
    let spec = match &editor {
        Some(e) => chars_of(e.as_str()),
        None => Vec::new(),
    };
    let ghost sv = spec@;
    let mut argv: Vec<String> = Vec::new();
    let mut i: usize = 0;
    while i < spec.len()
        invariant
            sv == spec@,
            i <= spec@.len(),
            words_from(sv, 0) == views_of(argv@) + words_from(sv, i as int),
        decreases spec.len() - i,
    {
        let st = skip_ws(spec.as_slice(), i);
        proof {
            lemma_skip_ws_bounds(sv, i as int);
        }
        if st >= spec.len() {
            assert(words_from(sv, i as int) =~= Seq::<Seq<char>>::empty());
            i = spec.len();
            assert(words_from(sv, i as int) =~= Seq::<Seq<char>>::empty());
        } else {
            let en = find_ws(spec.as_slice(), st);
            proof {
                lemma_find_ws_bounds(sv, st as int);
            }
            let w = string_of(sub_vec(spec.as_slice(), st, en).as_slice());
            let ghost before = views_of(argv@);
            argv.push(w);
            assert(views_of(argv@) =~= before.push(w@));
            assert(words_from(sv, 0) =~= views_of(argv@) + words_from(sv, en as int));
            i = en;
        }
    }
    assert(words_from(sv, i as int) =~= Seq::<Seq<char>>::empty());
    assert(sv == match editor {
        Some(e) => e@,
        None => Seq::<char>::empty(),
    });
    if argv.len() == 0 {
        argv.push(String::from_str("vi"));
    }
    let ghost before = views_of(argv@);
    argv.push(String::from_str(path));
    assert(views_of(argv@) =~= before.push(path@));
    argv
}

// ---- the renderer ----------------------------------------------------------------------------------

/// The external diff renderer the config names: its program, or `None` (plain text) when the
/// setting is blank.
pub fn build_renderer(settings: &Settings) -> (r: Option<String>)
    ensures
        match r {
            Some(p) => trim(settings.diff_tool@).len() > 0 && p@ == settings.diff_tool@,
            None => trim(settings.diff_tool@).len() == 0,
        },
{
    let t = trim_chars(chars_of(settings.diff_tool.as_str()).as_slice());
    if t.len() == 0 {
        None
    } else {
        Some(settings.diff_tool.clone())
    }
}

} // verus!
