//! The notebook index document: a JSON object with one `"notes"` member,
//! an array of `{"rel_path": ..., "labels": [...]}` objects.
//!
//! The encoder pretty-prints the document with two-space indentation, one
//! member or element per line. The parser is more liberal: it skips any
//! whitespace between tokens, and a note object may close right after its
//! `"rel_path"` member, in which case its labels default to the empty
//! list. Within strings the encoder writes the named escapes for the
//! quote, the backslash and the usual control characters, and a
//! four-digit hexadecimal escape for every other control character; the
//! parser understands all of those, the escaped solidus, and arbitrary
//! hexadecimal escapes for values in the basic plane that are scalar
//! values. Other characters stand for themselves.
//!
//! Every parsing function consumes a prefix of the character sequence it
//! is given and hands back the rest, so that the statement "parsing an
//! encoded document yields the encoded records" can be proved piece by
//! piece; see [`lemma_index_round_trip`].

use vstd::prelude::*;
use crate::notebook::NoteMetadata;
use crate::notebook::NoteView;
use crate::notebook::notes_views;
use crate::text::push_char;
use crate::text::str_eq;

verus! {

/// The digit character for a value below sixteen.
pub open spec fn hex_digit(n: int) -> char {
    if n == 0 {
        '0'
    } else if n == 1 {
        '1'
    } else if n == 2 {
        '2'
    } else if n == 3 {
        '3'
    } else if n == 4 {
        '4'
    } else if n == 5 {
        '5'
    } else if n == 6 {
        '6'
    } else if n == 7 {
        '7'
    } else if n == 8 {
        '8'
    } else if n == 9 {
        '9'
    } else if n == 10 {
        'a'
    } else if n == 11 {
        'b'
    } else if n == 12 {
        'c'
    } else if n == 13 {
        'd'
    } else if n == 14 {
        'e'
    } else {
        'f'
    }
}

/// The value of a hexadecimal digit character, upper or lower case.
pub open spec fn hex_val(c: char) -> Option<int> {
    if 48 <= (c as u32) && (c as u32) <= 57 {
        Some((c as u32) - 48)
    } else if 97 <= (c as u32) && (c as u32) <= 102 {
        Some((c as u32) - 87)
    } else if 65 <= (c as u32) && (c as u32) <= 70 {
        Some((c as u32) - 55)
    } else {
        None
    }
}

/// The value of four hexadecimal digits.
pub open spec fn hex4_val(a: char, b: char, c: char, d: char) -> Option<int> {
    match (hex_val(a), hex_val(b), hex_val(c), hex_val(d)) {
        (Some(x), Some(y), Some(z), Some(w)) => Some(x * 4096 + y * 256 + z * 16 + w),
        _ => None,
    }
}

/// Whether a basic-plane value is a scalar value (not a surrogate).
pub open spec fn is_bmp_scalar(v: int) -> bool {
    0 <= v < 0xD800 || 0xE000 <= v <= 0xFFFF
}

/// The escape sequence a character is written as inside a string.
pub open spec fn esc_char(c: char) -> Seq<char> {
    if c == '"' {
        seq!['\\', '"']
    } else if c == '\\' {
        seq!['\\', '\\']
    } else if c == '\n' {
        seq!['\\', 'n']
    } else if c == '\r' {
        seq!['\\', 'r']
    } else if c == '\t' {
        seq!['\\', 't']
    } else if c == '\u{0008}' {
        seq!['\\', 'b']
    } else if c == '\u{000C}' {
        seq!['\\', 'f']
    } else if (c as u32) < 0x20 {
        seq!['\\', 'u', '0', '0', hex_digit((c as u32) as int / 16), hex_digit(
            (c as u32) as int % 16,
        )]
    } else {
        seq![c]
    }
}

/// The body of an encoded string: each character escaped.
pub open spec fn spec_escape(s: Seq<char>) -> Seq<char>
    decreases s.len(),
{
    if s.len() == 0 {
        Seq::empty()
    } else {
        esc_char(s[0]) + spec_escape(s.skip(1))
    }
}

/// An encoded string: the escaped body in quotes.
pub open spec fn spec_quoted(s: Seq<char>) -> Seq<char> {
    seq!['"'] + spec_escape(s) + seq!['"']
}

/// A line break followed by `k` spaces of indentation.
pub open spec fn ws_nl(k: nat) -> Seq<char> {
    seq!['\n'] + Seq::new(k, |i: int| ' ')
}

/// The encoded label list body: one encoded string per line at eight
/// spaces of indentation, joined by commas.
pub open spec fn spec_encode_strings(ls: Seq<Seq<char>>) -> Seq<char>
    decreases ls.len(),
{
    if ls.len() == 0 {
        Seq::empty()
    } else if ls.len() == 1 {
        ws_nl(8) + spec_quoted(ls[0])
    } else {
        ws_nl(8) + spec_quoted(ls[0]) + seq![','] + spec_encode_strings(ls.skip(1))
    }
}

/// One encoded note object, pretty-printed at four spaces of indentation.
pub open spec fn spec_encode_note(n: NoteView) -> Seq<char> {
    seq!['{'] + ws_nl(6) + seq!['"', 'r', 'e', 'l', '_', 'p', 'a', 't', 'h', '"', ':', ' ']
        + spec_quoted(n.rel_path) + seq![','] + ws_nl(6) + seq![
        '"',
        'l',
        'a',
        'b',
        'e',
        'l',
        's',
        '"',
        ':',
        ' ',
    ] + (if n.labels.len() == 0 {
        seq!['[', ']']
    } else {
        seq!['['] + spec_encode_strings(n.labels) + ws_nl(6) + seq![']']
    }) + ws_nl(4) + seq!['}']
}

/// The encoded note list body: one note object per line at four spaces
/// of indentation, joined by commas.
pub open spec fn spec_encode_notes(ns: Seq<NoteView>) -> Seq<char>
    decreases ns.len(),
{
    if ns.len() == 0 {
        Seq::empty()
    } else if ns.len() == 1 {
        ws_nl(4) + spec_encode_note(ns[0])
    } else {
        ws_nl(4) + spec_encode_note(ns[0]) + seq![','] + spec_encode_notes(ns.skip(1))
    }
}

/// The whole index document, pretty-printed.
pub open spec fn spec_encode_doc(ns: Seq<NoteView>) -> Seq<char> {
    seq!['{'] + ws_nl(2) + seq!['"', 'n', 'o', 't', 'e', 's', '"', ':', ' ', '['] + (if ns.len()
        == 0 {
        seq![']']
    } else {
        spec_encode_notes(ns) + ws_nl(2) + seq![']']
    }) + seq!['\n', '}']
}

/// The whitespace the parser skips between tokens.
pub open spec fn is_ws(c: char) -> bool {
    c == ' ' || c == '\n' || c == '\t' || c == '\r'
}

/// The input with its leading whitespace removed.
pub open spec fn spec_skip_ws(s: Seq<char>) -> Seq<char>
    decreases s.len(),
{
    if s.len() > 0 && is_ws(s[0]) {
        spec_skip_ws(s.skip(1))
    } else {
        s
    }
}

/// The character an escape letter stands for, if it is a known escape.
pub open spec fn unesc_char(c: char) -> Option<char> {
    if c == '"' {
        Some('"')
    } else if c == '\\' {
        Some('\\')
    } else if c == 'n' {
        Some('\n')
    } else if c == 'r' {
        Some('\r')
    } else if c == 't' {
        Some('\t')
    } else if c == 'b' {
        Some('\u{0008}')
    } else if c == 'f' {
        Some('\u{000C}')
    } else if c == '/' {
        Some('/')
    } else {
        None
    }
}

/// Parses a string body up to and over the closing quote.
pub open spec fn spec_parse_string_body(s: Seq<char>) -> Option<(Seq<char>, Seq<char>)>
    decreases s.len(),
{
    if s.len() == 0 {
        None
    } else if s[0] == '"' {
        Some((Seq::empty(), s.skip(1)))
    } else if s[0] == '\\' {
        if s.len() < 2 {
            None
        } else if s[1] == 'u' {
            if s.len() < 6 {
                None
            } else {
                match hex4_val(s[2], s[3], s[4], s[5]) {
                    Some(v) => if is_bmp_scalar(v) {
                        match spec_parse_string_body(s.skip(6)) {
                            Some((w, rest)) => Some((seq![(v as u32) as char] + w, rest)),
                            None => None,
                        }
                    } else {
                        None
                    },
                    None => None,
                }
            }
        } else {
            match unesc_char(s[1]) {
                Some(c) => match spec_parse_string_body(s.skip(2)) {
                    Some((v, rest)) => Some((seq![c] + v, rest)),
                    None => None,
                },
                None => None,
            }
        }
    } else {
        match spec_parse_string_body(s.skip(1)) {
            Some((v, rest)) => Some((seq![s[0]] + v, rest)),
            None => None,
        }
    }
}

/// Parses a quoted string, skipping leading whitespace.
pub open spec fn spec_parse_string(s: Seq<char>) -> Option<(Seq<char>, Seq<char>)> {
    let t = spec_skip_ws(s);
    if t.len() > 0 && t[0] == '"' {
        spec_parse_string_body(t.skip(1))
    } else {
        None
    }
}

/// Skipping whitespace never lengthens the input.
pub proof fn lemma_skip_ws_le(s: Seq<char>)
    ensures
        spec_skip_ws(s).len() <= s.len(),
    decreases s.len(),
{
    if s.len() > 0 && is_ws(s[0]) {
        lemma_skip_ws_le(s.skip(1));
    }
}

/// A parsed string body strictly consumes input.
pub proof fn lemma_string_body_shrinks(s: Seq<char>)
    ensures
        spec_parse_string_body(s) matches Some(p) ==> p.1.len() < s.len(),
    decreases s.len(),
{
    if s.len() > 0 && s[0] != '"' {
        if s[0] == '\\' {
            if s.len() >= 2 {
                lemma_string_body_shrinks(s.skip(2));
            }
            if s.len() >= 6 {
                lemma_string_body_shrinks(s.skip(6));
            }
        } else {
            lemma_string_body_shrinks(s.skip(1));
        }
    }
}

/// A parsed string strictly consumes input.
pub proof fn lemma_parse_string_shrinks(s: Seq<char>)
    ensures
        spec_parse_string(s) matches Some(p) ==> p.1.len() < s.len(),
{
    lemma_skip_ws_le(s);
    let t = spec_skip_ws(s);
    if t.len() > 0 && t[0] == '"' {
        lemma_string_body_shrinks(t.skip(1));
    }
}

/// Parses the elements of a string list after the opening bracket, over
/// the closing bracket.
pub open spec fn spec_parse_string_elems(s: Seq<char>) -> Option<(Seq<Seq<char>>, Seq<char>)>
    decreases s.len(),
    via spec_parse_string_elems_decreases
{
    match spec_parse_string(s) {
        Some((v, r)) => {
            let t = spec_skip_ws(r);
            if t.len() > 0 && t[0] == ',' {
                match spec_parse_string_elems(t.skip(1)) {
                    Some((vs, rest)) => Some((seq![v] + vs, rest)),
                    None => None,
                }
            } else if t.len() > 0 && t[0] == ']' {
                Some((seq![v], t.skip(1)))
            } else {
                None
            }
        },
        None => None,
    }
}

#[via_fn]
proof fn spec_parse_string_elems_decreases(s: Seq<char>) {
    lemma_parse_string_shrinks(s);
    match spec_parse_string(s) {
        Some((v, r)) => {
            lemma_skip_ws_le(r);
        },
        None => {},
    }
}

/// Parses a whole string list, bracket to bracket.
pub open spec fn spec_parse_string_list(s: Seq<char>) -> Option<(Seq<Seq<char>>, Seq<char>)> {
    let t = spec_skip_ws(s);
    if t.len() > 0 && t[0] == '[' {
        let u = spec_skip_ws(t.skip(1));
        if u.len() > 0 && u[0] == ']' {
            Some((Seq::empty(), u.skip(1)))
        } else {
            spec_parse_string_elems(t.skip(1))
        }
    } else {
        None
    }
}

/// Parses one note object. The object must open with its `"rel_path"`
/// member; a `"labels"` member may follow, and defaults to the empty
/// list when absent.
pub open spec fn spec_parse_note(s: Seq<char>) -> Option<(NoteView, Seq<char>)> {
    let t = spec_skip_ws(s);
    if t.len() > 0 && t[0] == '{' {
        match spec_parse_string(t.skip(1)) {
            Some((k1, r1)) => if k1 == seq!['r', 'e', 'l', '_', 'p', 'a', 't', 'h'] {
                let u = spec_skip_ws(r1);
                if u.len() > 0 && u[0] == ':' {
                    match spec_parse_string(u.skip(1)) {
                        Some((rp, r2)) => {
                            let w = spec_skip_ws(r2);
                            if w.len() > 0 && w[0] == '}' {
                                Some((NoteView { rel_path: rp, labels: Seq::empty() }, w.skip(1)))
                            } else if w.len() > 0 && w[0] == ',' {
                                match spec_parse_string(w.skip(1)) {
                                    Some((k2, r3)) => if k2 == seq!['l', 'a', 'b', 'e', 'l', 's'] {
                                        let x = spec_skip_ws(r3);
                                        if x.len() > 0 && x[0] == ':' {
                                            match spec_parse_string_list(x.skip(1)) {
                                                Some((ls, r4)) => {
                                                    let y = spec_skip_ws(r4);
                                                    if y.len() > 0 && y[0] == '}' {
                                                        Some(
                                                            (
                                                                NoteView {
                                                                    rel_path: rp,
                                                                    labels: ls,
                                                                },
                                                                y.skip(1),
                                                            ),
                                                        )
                                                    } else {
                                                        None
                                                    }
                                                },
                                                None => None,
                                            }
                                        } else {
                                            None
                                        }
                                    } else {
                                        None
                                    },
                                    None => None,
                                }
                            } else {
                                None
                            }
                        },
                        None => None,
                    }
                } else {
                    None
                }
            } else {
                None
            },
            None => None,
        }
    } else {
        None
    }
}

/// A parsed string list strictly consumes input.
pub proof fn lemma_string_list_shrinks(s: Seq<char>)
    ensures
        spec_parse_string_list(s) matches Some(p) ==> p.1.len() < s.len(),
    decreases s.len(),
{
    lemma_skip_ws_le(s);
    let t = spec_skip_ws(s);
    if t.len() > 0 && t[0] == '[' {
        lemma_skip_ws_le(t.skip(1));
        lemma_string_elems_shrinks(t.skip(1));
    }
}

/// Parsed string elements strictly consume input.
pub proof fn lemma_string_elems_shrinks(s: Seq<char>)
    ensures
        spec_parse_string_elems(s) matches Some(p) ==> p.1.len() < s.len(),
    decreases s.len(),
{
    lemma_parse_string_shrinks(s);
    match spec_parse_string(s) {
        Some((v, r)) => {
            lemma_skip_ws_le(r);
            let t = spec_skip_ws(r);
            if t.len() > 0 && t[0] == ',' {
                lemma_string_elems_shrinks(t.skip(1));
            }
        },
        None => {},
    }
}

/// A parsed note object strictly consumes input.
pub proof fn lemma_parse_note_shrinks(s: Seq<char>)
    ensures
        spec_parse_note(s) matches Some(p) ==> p.1.len() < s.len(),
{
    lemma_skip_ws_le(s);
    let t = spec_skip_ws(s);
    if t.len() > 0 && t[0] == '{' {
        lemma_parse_string_shrinks(t.skip(1));
        match spec_parse_string(t.skip(1)) {
            Some((k1, r1)) => {
                lemma_skip_ws_le(r1);
                let u = spec_skip_ws(r1);
                if u.len() > 0 && u[0] == ':' {
                    lemma_parse_string_shrinks(u.skip(1));
                    match spec_parse_string(u.skip(1)) {
                        Some((rp, r2)) => {
                            lemma_skip_ws_le(r2);
                            let w = spec_skip_ws(r2);
                            if w.len() > 0 && w[0] == ',' {
                                lemma_parse_string_shrinks(w.skip(1));
                                match spec_parse_string(w.skip(1)) {
                                    Some((k2, r3)) => {
                                        lemma_skip_ws_le(r3);
                                        let x = spec_skip_ws(r3);
                                        if x.len() > 0 && x[0] == ':' {
                                            lemma_string_list_shrinks(x.skip(1));
                                            match spec_parse_string_list(x.skip(1)) {
                                                Some((ls, r4)) => {
                                                    lemma_skip_ws_le(r4);
                                                },
                                                None => {},
                                            }
                                        }
                                    },
                                    None => {},
                                }
                            }
                        },
                        None => {},
                    }
                }
            },
            None => {},
        }
    }
}

/// Parses the elements of the note list after the opening bracket, over
/// the closing bracket.
pub open spec fn spec_parse_note_elems(s: Seq<char>) -> Option<(Seq<NoteView>, Seq<char>)>
    decreases s.len(),
    via spec_parse_note_elems_decreases
{
    match spec_parse_note(s) {
        Some((n, r)) => {
            let t = spec_skip_ws(r);
            if t.len() > 0 && t[0] == ',' {
                match spec_parse_note_elems(t.skip(1)) {
                    Some((ns, rest)) => Some((seq![n] + ns, rest)),
                    None => None,
                }
            } else if t.len() > 0 && t[0] == ']' {
                Some((seq![n], t.skip(1)))
            } else {
                None
            }
        },
        None => None,
    }
}

#[via_fn]
proof fn spec_parse_note_elems_decreases(s: Seq<char>) {
    lemma_parse_note_shrinks(s);
    match spec_parse_note(s) {
        Some((n, r)) => {
            lemma_skip_ws_le(r);
        },
        None => {},
    }
}

/// Parses a whole index document; the result is the note list, provided
/// nothing but whitespace follows the closing brace.
pub open spec fn spec_parse_doc(s: Seq<char>) -> Option<Seq<NoteView>> {
    let t = spec_skip_ws(s);
    if t.len() > 0 && t[0] == '{' {
        match spec_parse_string(t.skip(1)) {
            Some((k, r1)) => if k == seq!['n', 'o', 't', 'e', 's'] {
                let u = spec_skip_ws(r1);
                if u.len() > 0 && u[0] == ':' {
                    let v = spec_skip_ws(u.skip(1));
                    if v.len() > 0 && v[0] == '[' {
                        let w = spec_skip_ws(v.skip(1));
                        if w.len() > 0 && w[0] == ']' {
                            let z = spec_skip_ws(w.skip(1));
                            if z.len() > 0 && z[0] == '}' && spec_skip_ws(z.skip(1)).len() == 0 {
                                Some(Seq::empty())
                            } else {
                                None
                            }
                        } else {
                            match spec_parse_note_elems(v.skip(1)) {
                                Some((ns, r2)) => {
                                    let z = spec_skip_ws(r2);
                                    if z.len() > 0 && z[0] == '}' && spec_skip_ws(
                                        z.skip(1),
                                    ).len() == 0 {
                                        Some(ns)
                                    } else {
                                        None
                                    }
                                },
                                None => None,
                            }
                        }
                    } else {
                        None
                    }
                } else {
                    None
                }
            } else {
                None
            },
            None => None,
        }
    } else {
        None
    }
}

/// Whether a character is written as an escape: the quote, the
/// backslash, and every control character.
pub open spec fn is_esc_special(c: char) -> bool {
    c == '"' || c == '\\' || (c as u32) < 0x20
}

/// Skipping whitespace leaves input that does not start with any alone.
proof fn lemma_skip_ws_id(s: Seq<char>)
    requires
        s.len() == 0 || !is_ws(s[0]),
    ensures
        spec_skip_ws(s) == s,
{
}

/// A character survives the round trip through its scalar value.
proof fn lemma_char_round(c: char)
    ensures
        (c as u32) as char == c,
{
}

/// Reading back the digit written for a value below sixteen.
proof fn lemma_hex_round(d: int)
    requires
        0 <= d < 16,
    ensures
        hex_val(hex_digit(d)) == Some(d),
{
}

/// Escaping text that holds no character needing an escape is the
/// identity.
proof fn lemma_escape_plain(v: Seq<char>)
    requires
        forall|i: int| 0 <= i < v.len() ==> !is_esc_special(#[trigger] v[i]),
    ensures
        spec_escape(v) == v,
    decreases v.len(),
{
    if v.len() > 0 {
        lemma_escape_plain(v.skip(1));
        assert(esc_char(v[0]) =~= seq![v[0]]);
        assert(seq![v[0]] + v.skip(1) =~= v);
    } else {
        assert(spec_escape(v) =~= v);
    }
}

/// Escaping distributes over appending one character at the end.
proof fn lemma_escape_snoc(t: Seq<char>, c: char)
    ensures
        spec_escape(t.push(c)) == spec_escape(t) + esc_char(c),
    decreases t.len(),
{
    if t.len() == 0 {
        assert(t.push(c).skip(1) =~= Seq::<char>::empty());
        assert(t.push(c)[0] == c);
        assert(spec_escape(t.push(c)) == esc_char(c) + spec_escape(t.push(c).skip(1)));
        assert(spec_escape(Seq::<char>::empty()) =~= Seq::<char>::empty());
        assert(spec_escape(t) =~= Seq::<char>::empty());
        assert(spec_escape(t.push(c)) =~= spec_escape(t) + esc_char(c));
    } else {
        assert(t.push(c).skip(1) =~= t.skip(1).push(c));
        lemma_escape_snoc(t.skip(1), c);
        assert(t.push(c)[0] == t[0]);
        assert(spec_escape(t.push(c)) == esc_char(t[0]) + spec_escape(t.skip(1).push(c)));
        assert(spec_escape(t) == esc_char(t[0]) + spec_escape(t.skip(1)));
        assert(spec_escape(t.push(c)) =~= spec_escape(t) + esc_char(c));
    }
}

/// Parsing a string body from escaped text followed by the closing quote
/// yields the original text and the rest.
proof fn lemma_parse_body_escape(v: Seq<char>, rest: Seq<char>)
    ensures
        spec_parse_string_body(spec_escape(v) + seq!['"'] + rest) == Some((v, rest)),
    decreases v.len(),
{
    let s = spec_escape(v) + seq!['"'] + rest;
    if v.len() == 0 {
        assert(spec_escape(v) =~= Seq::<char>::empty());
        assert(s =~= seq!['"'] + rest);
        assert(s[0] == '"');
        assert(s.skip(1) =~= rest);
    } else {
        let c = v[0];
        let e = esc_char(c);
        let s2 = spec_escape(v.skip(1)) + seq!['"'] + rest;
        assert(spec_escape(v) == e + spec_escape(v.skip(1)));
        assert(s =~= e + s2);
        lemma_parse_body_escape(v.skip(1), rest);
        if c == '"' || c == '\\' || c == '\n' || c == '\r' || c == '\t' || c == '\u{0008}' || c
            == '\u{000C}' {
            assert(e.len() == 2 && e[0] == '\\');
            assert(s.len() >= 2);
            assert(s[0] == '\\');
            assert(s[1] == e[1]);
            assert(e[1] != 'u');
            assert(unesc_char(e[1]) == Some(c));
            assert(s.skip(2) =~= s2);
            assert(spec_parse_string_body(s) == Some((seq![c] + v.skip(1), rest)));
            assert(seq![c] + v.skip(1) =~= v);
        } else if is_esc_special(c) {
            let cv = (c as u32) as int;
            assert(0 <= cv < 0x20);
            assert(e == seq!['\\', 'u', '0', '0', hex_digit(cv / 16), hex_digit(cv % 16)]);
            assert(s.len() >= 6);
            assert(s[0] == '\\');
            assert(s[1] == 'u');
            assert(s[2] == '0' && s[3] == '0');
            assert(s[4] == hex_digit(cv / 16) && s[5] == hex_digit(cv % 16));
            lemma_hex_round(cv / 16);
            lemma_hex_round(cv % 16);
            assert(hex_val('0') == Some(0int));
            assert(hex4_val(s[2], s[3], s[4], s[5]) == Some((cv / 16) * 16 + cv % 16));
            assert((cv / 16) * 16 + cv % 16 == cv);
            assert(is_bmp_scalar(cv));
            assert(s.skip(6) =~= s2);
            lemma_char_round(c);
            assert(((cv as u32) as char) == c);
            assert(spec_parse_string_body(s) == Some((seq![c] + v.skip(1), rest)));
            assert(seq![c] + v.skip(1) =~= v);
        } else {
            assert(e =~= seq![c]);
            assert(s[0] == c);
            assert(c != '"' && c != '\\');
            assert(s.skip(1) =~= s2);
            assert(spec_parse_string_body(s) == Some((seq![c] + v.skip(1), rest)));
            assert(seq![c] + v.skip(1) =~= v);
        }
    }
}

/// Parsing a quoted string from its encoding, behind any run of
/// whitespace, yields the original text.
proof fn lemma_parse_string_after_ws(v: Seq<char>, ws: Seq<char>, rest: Seq<char>)
    requires
        forall|i: int| 0 <= i < ws.len() ==> is_ws(#[trigger] ws[i]),
    ensures
        spec_parse_string(ws + spec_quoted(v) + rest) == Some((v, rest)),
{
    let tail = spec_quoted(v) + rest;
    let s = ws + spec_quoted(v) + rest;
    assert(s =~= ws + tail);
    lemma_skip_ws_run(ws, tail);
    assert(tail[0] == '"');
    lemma_skip_ws_id(tail);
    assert(spec_skip_ws(s) == tail);
    assert(tail.skip(1) =~= spec_escape(v) + seq!['"'] + rest);
    lemma_parse_body_escape(v, rest);
}

/// Skipping whitespace walks over any run of whitespace at the front.
proof fn lemma_skip_ws_run(ws: Seq<char>, s: Seq<char>)
    requires
        forall|i: int| 0 <= i < ws.len() ==> is_ws(#[trigger] ws[i]),
    ensures
        spec_skip_ws(ws + s) == spec_skip_ws(s),
    decreases ws.len(),
{
    if ws.len() == 0 {
        assert(ws + s =~= s);
    } else {
        assert((ws + s)[0] == ws[0]);
        assert((ws + s).skip(1) =~= ws.skip(1) + s);
        lemma_skip_ws_run(ws.skip(1), s);
    }
}

/// The indentation runs the encoder writes are all whitespace.
proof fn lemma_ws_nl_all_ws(k: nat)
    ensures
        forall|i: int| 0 <= i < ws_nl(k).len() ==> is_ws(#[trigger] ws_nl(k)[i]),
{
    assert forall|i: int| 0 <= i < ws_nl(k).len() implies is_ws(#[trigger] ws_nl(k)[i]) by {
        if i == 0 {
            assert(ws_nl(k)[0] == '\n');
        } else {
            assert(ws_nl(k)[i] == ' ');
        }
    }
}

/// Parsing a quoted string behind one of the encoder's indentation runs.
proof fn lemma_parse_string_nl(v: Seq<char>, k: nat, rest: Seq<char>)
    ensures
        spec_parse_string(ws_nl(k) + spec_quoted(v) + rest) == Some((v, rest)),
{
    lemma_ws_nl_all_ws(k);
    lemma_parse_string_after_ws(v, ws_nl(k), rest);
}

/// Parsing the encoded elements of a non-empty label list, up to and
/// over the closing bracket on its own line, yields the original
/// strings.
proof fn lemma_parse_string_elems_enc(ls: Seq<Seq<char>>, rest: Seq<char>)
    requires
        ls.len() >= 1,
    ensures
        spec_parse_string_elems(spec_encode_strings(ls) + ws_nl(6) + seq![']'] + rest) == Some(
            (ls, rest),
        ),
    decreases ls.len(),
{
    let s = spec_encode_strings(ls) + ws_nl(6) + seq![']'] + rest;
    if ls.len() == 1 {
        assert(spec_encode_strings(ls) == ws_nl(8) + spec_quoted(ls[0]));
        let tail = ws_nl(6) + seq![']'] + rest;
        assert(s =~= ws_nl(8) + spec_quoted(ls[0]) + tail);
        lemma_parse_string_nl(ls[0], 8, tail);
        assert(spec_parse_string(s) == Some((ls[0], tail)));
        lemma_ws_nl_all_ws(6);
        lemma_skip_ws_run(ws_nl(6), seq![']'] + rest);
        assert(tail =~= ws_nl(6) + (seq![']'] + rest));
        lemma_skip_ws_id(seq![']'] + rest);
        let t = spec_skip_ws(tail);
        assert(t == seq![']'] + rest);
        assert(t[0] == ']');
        assert(t.skip(1) =~= rest);
        assert(seq![ls[0]] =~= ls);
    } else {
        assert(spec_encode_strings(ls) == ws_nl(8) + spec_quoted(ls[0]) + seq![',']
            + spec_encode_strings(ls.skip(1)));
        let x = spec_encode_strings(ls.skip(1)) + ws_nl(6) + seq![']'] + rest;
        let tail = seq![','] + x;
        assert(s =~= ws_nl(8) + spec_quoted(ls[0]) + tail);
        lemma_parse_string_nl(ls[0], 8, tail);
        assert(spec_parse_string(s) == Some((ls[0], tail)));
        lemma_skip_ws_id(tail);
        assert(tail[0] == ',');
        assert(tail.skip(1) =~= x);
        lemma_parse_string_elems_enc(ls.skip(1), rest);
        assert(spec_parse_string_elems(s) == Some((seq![ls[0]] + ls.skip(1), rest)));
        assert(seq![ls[0]] + ls.skip(1) =~= ls);
    }
}

/// The labels part of an encoded note object: `[]` for no labels, the
/// bracketed one-per-line list otherwise.
pub open spec fn spec_labels_part(ls: Seq<Seq<char>>) -> Seq<char> {
    if ls.len() == 0 {
        seq!['[', ']']
    } else {
        seq!['['] + spec_encode_strings(ls) + ws_nl(6) + seq![']']
    }
}

/// Parsing an encoded label list yields the original strings.
proof fn lemma_parse_string_list_enc(ls: Seq<Seq<char>>, rest: Seq<char>)
    ensures
        spec_parse_string_list(spec_labels_part(ls) + rest) == Some((ls, rest)),
{
    let s = spec_labels_part(ls) + rest;
    if ls.len() == 0 {
        assert(s =~= seq!['['] + (seq![']'] + rest));
        assert(s[0] == '[');
        lemma_skip_ws_id(s);
        assert(s.skip(1) =~= seq![']'] + rest);
        lemma_skip_ws_id(seq![']'] + rest);
        assert((seq![']'] + rest)[0] == ']');
        assert((seq![']'] + rest).skip(1) =~= rest);
        assert(Seq::<Seq<char>>::empty() =~= ls);
    } else {
        let inner = spec_encode_strings(ls) + ws_nl(6) + seq![']'] + rest;
        assert(s =~= seq!['['] + inner);
        assert(s[0] == '[');
        lemma_skip_ws_id(s);
        assert(s.skip(1) =~= inner);
        // The inner text starts with an indentation run and then a quote,
        // so the empty-list branch of the parser does not fire.
        let strs_tail = spec_quoted(ls[0]) + (if ls.len() == 1 {
            Seq::<char>::empty()
        } else {
            seq![','] + spec_encode_strings(ls.skip(1))
        }) + ws_nl(6) + seq![']'] + rest;
        assert(inner =~= ws_nl(8) + strs_tail) by {
            if ls.len() == 1 {
                assert(spec_encode_strings(ls) == ws_nl(8) + spec_quoted(ls[0]));
            } else {
                assert(spec_encode_strings(ls) == ws_nl(8) + spec_quoted(ls[0]) + seq![',']
                    + spec_encode_strings(ls.skip(1)));
            }
        }
        lemma_ws_nl_all_ws(8);
        lemma_skip_ws_run(ws_nl(8), strs_tail);
        assert(strs_tail[0] == '"');
        lemma_skip_ws_id(strs_tail);
        let u = spec_skip_ws(inner);
        assert(u == strs_tail);
        assert(u[0] != ']');
        lemma_parse_string_elems_enc(ls, rest);
    }
}

/// Parsing an encoded note object yields the original record.
#[verifier::rlimit(60)]
proof fn lemma_parse_note_enc(n: NoteView, rest: Seq<char>)
    ensures
        spec_parse_note(spec_encode_note(n) + rest) == Some((n, rest)),
{
    let key1 = seq!['r', 'e', 'l', '_', 'p', 'a', 't', 'h'];
    let key2 = seq!['l', 'a', 'b', 'e', 'l', 's'];
    assert(forall|i: int| 0 <= i < key1.len() ==> !is_esc_special(#[trigger] key1[i]));
    lemma_escape_plain(key1);
    assert(forall|i: int| 0 <= i < key2.len() ==> !is_esc_special(#[trigger] key2[i]));
    lemma_escape_plain(key2);
    let s = spec_encode_note(n) + rest;
    // The text decomposed at each token boundary, inside out.
    let tail_d = ws_nl(4) + seq!['}'] + rest;
    let tail_c = seq![' '] + spec_labels_part(n.labels) + tail_d;
    let tail_b = seq![','] + ws_nl(6) + spec_quoted(key2) + (seq![':'] + tail_c);
    let tail_a = seq![':', ' '] + spec_quoted(n.rel_path) + tail_b;
    let key_part = ws_nl(6) + spec_quoted(key1) + tail_a;
    assert(s =~= seq!['{'] + key_part);
    assert(s[0] == '{');
    lemma_skip_ws_id(s);
    assert(s.skip(1) =~= key_part);
    lemma_ws_nl_all_ws(6);
    lemma_parse_string_after_ws(key1, ws_nl(6), tail_a);
    assert(spec_parse_string(key_part) == Some((key1, tail_a)));
    lemma_skip_ws_id(tail_a);
    assert(tail_a[0] == ':');
    assert(tail_a.skip(1) =~= seq![' '] + spec_quoted(n.rel_path) + tail_b);
    assert(is_ws(' '));
    lemma_parse_string_after_ws(n.rel_path, seq![' '], tail_b);
    assert(spec_parse_string(tail_a.skip(1)) == Some((n.rel_path, tail_b)));
    lemma_skip_ws_id(tail_b);
    assert(tail_b[0] == ',');
    assert(tail_b.skip(1) =~= ws_nl(6) + spec_quoted(key2) + (seq![':'] + tail_c));
    lemma_parse_string_after_ws(key2, ws_nl(6), seq![':'] + tail_c);
    assert(spec_parse_string(tail_b.skip(1)) == Some((key2, seq![':'] + tail_c)));
    lemma_skip_ws_id(seq![':'] + tail_c);
    assert((seq![':'] + tail_c)[0] == ':');
    assert((seq![':'] + tail_c).skip(1) =~= tail_c);
    // The list parser skips the space after the colon itself.
    lemma_parse_string_list_enc(n.labels, tail_d);
    assert(spec_parse_string_list(tail_c) == Some((n.labels, tail_d))) by {
        let direct = spec_labels_part(n.labels) + tail_d;
        assert(tail_c =~= seq![' '] + direct);
        assert(forall|i: int| 0 <= i < seq![' '].len() ==> is_ws(#[trigger] seq![' '][i]));
        lemma_skip_ws_run(seq![' '], direct);
    }
    lemma_ws_nl_all_ws(4);
    lemma_skip_ws_run(ws_nl(4), seq!['}'] + rest);
    assert(tail_d =~= ws_nl(4) + (seq!['}'] + rest));
    lemma_skip_ws_id(seq!['}'] + rest);
    let y = spec_skip_ws(tail_d);
    assert(y == seq!['}'] + rest);
    assert(y[0] == '}');
    assert(y.skip(1) =~= rest);
    assert(spec_parse_note(s) == Some((NoteView { rel_path: n.rel_path, labels: n.labels }, rest)));
    assert(NoteView { rel_path: n.rel_path, labels: n.labels } == n);
}

/// Parsing the encoded elements of a non-empty note list, up to and over
/// the closing bracket on its own line, yields the original records.
proof fn lemma_parse_note_elems_enc(ns: Seq<NoteView>, rest: Seq<char>)
    requires
        ns.len() >= 1,
    ensures
        spec_parse_note_elems(spec_encode_notes(ns) + ws_nl(2) + seq![']'] + rest) == Some(
            (ns, rest),
        ),
    decreases ns.len(),
{
    let s = spec_encode_notes(ns) + ws_nl(2) + seq![']'] + rest;
    lemma_ws_nl_all_ws(4);
    if ns.len() == 1 {
        assert(spec_encode_notes(ns) == ws_nl(4) + spec_encode_note(ns[0]));
        let tail = ws_nl(2) + seq![']'] + rest;
        let direct = spec_encode_note(ns[0]) + tail;
        assert(s =~= ws_nl(4) + direct);
        lemma_skip_ws_run(ws_nl(4), direct);
        lemma_parse_note_enc(ns[0], tail);
        assert(spec_parse_note(s) == Some((ns[0], tail)));
        lemma_ws_nl_all_ws(2);
        lemma_skip_ws_run(ws_nl(2), seq![']'] + rest);
        assert(tail =~= ws_nl(2) + (seq![']'] + rest));
        lemma_skip_ws_id(seq![']'] + rest);
        let t = spec_skip_ws(tail);
        assert(t == seq![']'] + rest);
        assert(t[0] == ']');
        assert(t.skip(1) =~= rest);
        assert(seq![ns[0]] =~= ns);
    } else {
        assert(spec_encode_notes(ns) == ws_nl(4) + spec_encode_note(ns[0]) + seq![',']
            + spec_encode_notes(ns.skip(1)));
        let x = spec_encode_notes(ns.skip(1)) + ws_nl(2) + seq![']'] + rest;
        let tail = seq![','] + x;
        let direct = spec_encode_note(ns[0]) + tail;
        assert(s =~= ws_nl(4) + direct);
        lemma_skip_ws_run(ws_nl(4), direct);
        lemma_parse_note_enc(ns[0], tail);
        assert(spec_parse_note(s) == Some((ns[0], tail)));
        lemma_skip_ws_id(tail);
        assert(tail[0] == ',');
        assert(tail.skip(1) =~= x);
        lemma_parse_note_elems_enc(ns.skip(1), rest);
        assert(spec_parse_note_elems(s) == Some((seq![ns[0]] + ns.skip(1), rest)));
        assert(seq![ns[0]] + ns.skip(1) =~= ns);
    }
}

/// Round trip of the index document: parsing what the encoder wrote for
/// any list of note records yields exactly those records.
#[verifier::rlimit(60)]
pub proof fn lemma_index_round_trip(ns: Seq<NoteView>)
    ensures
        spec_parse_doc(spec_encode_doc(ns)) == Some(ns),
{
    let key = seq!['n', 'o', 't', 'e', 's'];
    assert(forall|i: int| 0 <= i < key.len() ==> !is_esc_special(#[trigger] key[i]));
    lemma_escape_plain(key);
    let s = spec_encode_doc(ns);
    let body = if ns.len() == 0 {
        seq![']']
    } else {
        spec_encode_notes(ns) + ws_nl(2) + seq![']']
    };
    let close = seq!['\n', '}'];
    let tail_a = seq![':', ' ', '['] + body + close;
    let key_part = ws_nl(2) + spec_quoted(key) + tail_a;
    assert(s =~= seq!['{'] + key_part);
    assert(s[0] == '{');
    lemma_skip_ws_id(s);
    assert(s.skip(1) =~= key_part);
    lemma_ws_nl_all_ws(2);
    lemma_parse_string_after_ws(key, ws_nl(2), tail_a);
    assert(spec_parse_string(key_part) == Some((key, tail_a)));
    lemma_skip_ws_id(tail_a);
    assert(tail_a[0] == ':');
    let after_colon = seq![' ', '['] + body + close;
    assert(tail_a.skip(1) =~= after_colon);
    let bracket_on = seq!['['] + body + close;
    assert(after_colon =~= seq![' '] + bracket_on);
    assert(forall|i: int| 0 <= i < seq![' '].len() ==> is_ws(#[trigger] seq![' '][i]));
    lemma_skip_ws_run(seq![' '], bracket_on);
    lemma_skip_ws_id(bracket_on);
    let v = spec_skip_ws(after_colon);
    assert(v == bracket_on);
    assert(v[0] == '[');
    let inner = body + close;
    assert(v.skip(1) =~= inner);
    if ns.len() == 0 {
        assert(inner =~= seq![']'] + close);
        lemma_skip_ws_id(inner);
        assert(inner[0] == ']');
        assert(inner.skip(1) =~= close);
        assert(close =~= seq!['\n'] + seq!['}']);
        assert(is_ws('\n'));
        assert(forall|i: int| 0 <= i < seq!['\n'].len() ==> is_ws(#[trigger] seq!['\n'][i]));
        lemma_skip_ws_run(seq!['\n'], seq!['}']);
        lemma_skip_ws_id(seq!['}']);
        let z = spec_skip_ws(close);
        assert(z == seq!['}']);
        assert(z[0] == '}');
        assert(z.skip(1) =~= Seq::<char>::empty());
        assert(spec_skip_ws(z.skip(1)).len() == 0);
        assert(Seq::<NoteView>::empty() =~= ns);
    } else {
        let elems_text = spec_encode_notes(ns) + ws_nl(2) + seq![']'] + close;
        assert(inner =~= elems_text);
        // The body starts with an indentation run and then a brace, so
        // the empty-array branch of the parser does not fire.
        let first_note = spec_encode_note(ns[0]);
        let direct = if ns.len() == 1 {
            first_note + (ws_nl(2) + seq![']'] + close)
        } else {
            first_note + (seq![','] + spec_encode_notes(ns.skip(1)) + ws_nl(2) + seq![']'] + close)
        };
        assert(inner =~= ws_nl(4) + direct) by {
            if ns.len() == 1 {
                assert(spec_encode_notes(ns) == ws_nl(4) + first_note);
            } else {
                assert(spec_encode_notes(ns) == ws_nl(4) + first_note + seq![',']
                    + spec_encode_notes(ns.skip(1)));
            }
        }
        lemma_ws_nl_all_ws(4);
        lemma_skip_ws_run(ws_nl(4), direct);
        assert(direct[0] == '{') by {
            assert(first_note[0] == '{');
        }
        lemma_skip_ws_id(direct);
        let w = spec_skip_ws(inner);
        assert(w == direct);
        assert(w[0] != ']');
        lemma_parse_note_elems_enc(ns, close);
        assert(spec_parse_note_elems(inner) == Some((ns, close)));
        assert(close =~= seq!['\n'] + seq!['}']);
        assert(forall|i: int| 0 <= i < seq!['\n'].len() ==> is_ws(#[trigger] seq!['\n'][i]));
        lemma_skip_ws_run(seq!['\n'], seq!['}']);
        lemma_skip_ws_id(seq!['}']);
        let z = spec_skip_ws(close);
        assert(z == seq!['}']);
        assert(z[0] == '}');
        assert(z.skip(1) =~= Seq::<char>::empty());
        assert(spec_skip_ws(z.skip(1)).len() == 0);
    }
}


/// The digit character for a value below sixteen.
fn hex_digit_exec(d: u32) -> (r: char)
    requires
        d < 16,
    ensures
        r == hex_digit(d as int),
{
    if d == 0 {
        '0'
    } else if d == 1 {
        '1'
    } else if d == 2 {
        '2'
    } else if d == 3 {
        '3'
    } else if d == 4 {
        '4'
    } else if d == 5 {
        '5'
    } else if d == 6 {
        '6'
    } else if d == 7 {
        '7'
    } else if d == 8 {
        '8'
    } else if d == 9 {
        '9'
    } else if d == 10 {
        'a'
    } else if d == 11 {
        'b'
    } else if d == 12 {
        'c'
    } else if d == 13 {
        'd'
    } else if d == 14 {
        'e'
    } else {
        'f'
    }
}

/// Appends the encoding of one string: quotes around the escaped body.
fn append_quoted(out: &mut String, s: &str)
    ensures
        final(out)@ == old(out)@ + spec_quoted(s@),
{
    out.append("\"");
    proof {
        reveal_strlit("\"");
        assert("\""@ =~= seq!['"']);
        assert(s@.take(0) =~= Seq::<char>::empty());
        assert(spec_escape(s@.take(0)) =~= Seq::<char>::empty());
        assert(out@ =~= old(out)@ + seq!['"'] + spec_escape(s@.take(0)));
    }
    let n = s.unicode_len();
    let mut i: usize = 0;
    while i < n
        invariant
            n == s@.len(),
            i <= n,
            out@ == old(out)@ + seq!['"'] + spec_escape(s@.take(i as int)),
        decreases n - i,
    {
        let c = s.get_char(i);
        proof {
            lemma_escape_snoc(s@.take(i as int), c);
            assert(s@.take(i as int + 1) =~= s@.take(i as int).push(c));
        }
        if c == '"' {
            out.append("\\\"");
            proof {
                reveal_strlit("\\\"");
                assert("\\\""@ =~= seq!['\\', '"']);
            }
        } else if c == '\\' {
            out.append("\\\\");
            proof {
                reveal_strlit("\\\\");
                assert("\\\\"@ =~= seq!['\\', '\\']);
            }
        } else if c == '\n' {
            out.append("\\n");
            proof {
                reveal_strlit("\\n");
                assert("\\n"@ =~= seq!['\\', 'n']);
            }
        } else if c == '\r' {
            out.append("\\r");
            proof {
                reveal_strlit("\\r");
                assert("\\r"@ =~= seq!['\\', 'r']);
            }
        } else if c == '\t' {
            out.append("\\t");
            proof {
                reveal_strlit("\\t");
                assert("\\t"@ =~= seq!['\\', 't']);
            }
        } else if c == '\u{0008}' {
            out.append("\\b");
            proof {
                reveal_strlit("\\b");
                assert("\\b"@ =~= seq!['\\', 'b']);
            }
        } else if c == '\u{000C}' {
            out.append("\\f");
            proof {
                reveal_strlit("\\f");
                assert("\\f"@ =~= seq!['\\', 'f']);
            }
        } else if (c as u32) < 0x20 {
            out.append("\\u00");
            proof {
                reveal_strlit("\\u00");
                assert("\\u00"@ =~= seq!['\\', 'u', '0', '0']);
            }
            let v: u32 = c as u32;
            let hi = hex_digit_exec(v / 16);
            let lo = hex_digit_exec(v % 16);
            push_char(out, hi);
            push_char(out, lo);
            proof {
                assert(esc_char(c) =~= seq!['\\', 'u', '0', '0', hex_digit((c as u32) as int / 16), hex_digit((c as u32) as int % 16)]);
            }
        } else {
            push_char(out, c);
            proof {
                assert(esc_char(c) =~= seq![c]);
            }
        }
        proof {
            assert(out@ =~= old(out)@ + seq!['"'] + spec_escape(s@.take(i as int + 1)));
        }
        i = i + 1;
    }
    proof {
        assert(s@.take(n as int) =~= s@);
    }
    out.append("\"");
    proof {
        reveal_strlit("\"");
        assert("\""@ =~= seq!['"']);
        assert(out@ =~= old(out)@ + spec_quoted(s@));
    }
}

/// Appends the encodings of the strings from position `i` on, joined by
/// commas.
fn append_strings(out: &mut String, ls: &Vec<String>, i: usize)
    requires
        i <= ls@.len(),
    ensures
        final(out)@ == old(out)@ + spec_encode_strings(ls.deep_view().skip(i as int)),
    decreases ls@.len() - i,
{
    let ghost dv = ls.deep_view();
    proof {
        assert(dv.len() == ls@.len());
    }
    if i >= ls.len() {
        proof {
            assert(dv.skip(i as int).len() == 0);
            assert(spec_encode_strings(dv.skip(i as int)) =~= Seq::<char>::empty());
            assert(out@ =~= old(out)@ + spec_encode_strings(dv.skip(i as int)));
        }
    } else if i + 1 == ls.len() {
        out.append("\n        ");
        proof {
            reveal_strlit("\n        ");
            assert("\n        "@ =~= ws_nl(8));
        }
        append_quoted(out, ls[i].as_str());
        proof {
            assert(dv.skip(i as int).len() == 1);
            assert(dv.skip(i as int)[0] == dv[i as int]);
            assert(dv[i as int] == ls@[i as int]@);
            assert(spec_encode_strings(dv.skip(i as int)) == ws_nl(8) + spec_quoted(dv[i as int]));
            assert(out@ =~= old(out)@ + spec_encode_strings(dv.skip(i as int)));
        }
    } else {
        out.append("\n        ");
        proof {
            reveal_strlit("\n        ");
            assert("\n        "@ =~= ws_nl(8));
        }
        append_quoted(out, ls[i].as_str());
        out.append(",");
        proof {
            reveal_strlit(",");
            assert(","@ =~= seq![',']);
        }
        append_strings(out, ls, i + 1);
        proof {
            assert(dv.skip(i as int).len() > 1);
            assert(dv.skip(i as int)[0] == dv[i as int]);
            assert(dv[i as int] == ls@[i as int]@);
            assert(dv.skip(i as int).skip(1) =~= dv.skip(i as int + 1));
            assert(spec_encode_strings(dv.skip(i as int)) == ws_nl(8) + spec_quoted(dv[i as int])
                + seq![','] + spec_encode_strings(dv.skip(i as int + 1)));
            assert(out@ =~= old(out)@ + spec_encode_strings(dv.skip(i as int)));
        }
    }
}

/// Appends the encoding of one note object.
fn append_note(out: &mut String, note: &NoteMetadata)
    ensures
        final(out)@ == old(out)@ + spec_encode_note(note@),
{
    out.append("{\n      \"rel_path\": ");
    proof {
        reveal_strlit("{\n      \"rel_path\": ");
        assert("{\n      \"rel_path\": "@ =~= seq!['{'] + ws_nl(6) + seq![
            '"',
            'r',
            'e',
            'l',
            '_',
            'p',
            'a',
            't',
            'h',
            '"',
            ':',
            ' ',
        ]);
    }
    append_quoted(out, note.rel_path.as_str());
    out.append(",\n      \"labels\": ");
    proof {
        reveal_strlit(",\n      \"labels\": ");
        assert(",\n      \"labels\": "@ =~= seq![','] + ws_nl(6) + seq![
            '"',
            'l',
            'a',
            'b',
            'e',
            'l',
            's',
            '"',
            ':',
            ' ',
        ]);
    }
    if note.labels.len() == 0 {
        out.append("[]");
        proof {
            reveal_strlit("[]");
            assert("[]"@ =~= seq!['[', ']']);
            assert(note.labels.deep_view().len() == 0);
        }
    } else {
        out.append("[");
        proof {
            reveal_strlit("[");
            assert("["@ =~= seq!['[']);
        }
        append_strings(out, &note.labels, 0);
        out.append("\n      ]");
        proof {
            reveal_strlit("\n      ]");
            assert("\n      ]"@ =~= ws_nl(6) + seq![']']);
            assert(note.labels.deep_view().skip(0) =~= note.labels.deep_view());
            assert(note.labels.deep_view().len() > 0);
        }
    }
    out.append("\n    }");
    proof {
        reveal_strlit("\n    }");
        assert("\n    }"@ =~= ws_nl(4) + seq!['}']);
        assert(note.labels.deep_view() == note@.labels);
        assert(out@ =~= old(out)@ + spec_encode_note(note@));
    }
}

/// Appends the encodings of the notes from position `i` on, joined by
/// commas.
fn append_notes(out: &mut String, notes: &Vec<NoteMetadata>, i: usize)
    requires
        i <= notes@.len(),
    ensures
        final(out)@ == old(out)@ + spec_encode_notes(notes_views(notes@).skip(i as int)),
    decreases notes@.len() - i,
{
    let ghost nv = notes_views(notes@);
    proof {
        assert(nv.len() == notes@.len());
    }
    if i >= notes.len() {
        proof {
            assert(nv.skip(i as int).len() == 0);
            assert(spec_encode_notes(nv.skip(i as int)) =~= Seq::<char>::empty());
            assert(out@ =~= old(out)@ + spec_encode_notes(nv.skip(i as int)));
        }
    } else if i + 1 == notes.len() {
        out.append("\n    ");
        proof {
            reveal_strlit("\n    ");
            assert("\n    "@ =~= ws_nl(4));
        }
        append_note(out, &notes[i]);
        proof {
            assert(nv.skip(i as int).len() == 1);
            assert(nv.skip(i as int)[0] == nv[i as int]);
            assert(nv[i as int] == notes@[i as int]@);
            assert(spec_encode_notes(nv.skip(i as int)) == ws_nl(4) + spec_encode_note(
                nv[i as int],
            ));
            assert(out@ =~= old(out)@ + spec_encode_notes(nv.skip(i as int)));
        }
    } else {
        out.append("\n    ");
        proof {
            reveal_strlit("\n    ");
            assert("\n    "@ =~= ws_nl(4));
        }
        append_note(out, &notes[i]);
        out.append(",");
        proof {
            reveal_strlit(",");
            assert(","@ =~= seq![',']);
        }
        append_notes(out, notes, i + 1);
        proof {
            assert(nv.skip(i as int).len() > 1);
            assert(nv.skip(i as int)[0] == nv[i as int]);
            assert(nv[i as int] == notes@[i as int]@);
            assert(nv.skip(i as int).skip(1) =~= nv.skip(i as int + 1));
            assert(spec_encode_notes(nv.skip(i as int)) == ws_nl(4) + spec_encode_note(
                nv[i as int],
            ) + seq![','] + spec_encode_notes(nv.skip(i as int + 1)));
            assert(out@ =~= old(out)@ + spec_encode_notes(nv.skip(i as int)));
        }
    }
}

/// Writes the whole index document for a note list.
pub fn encode_index_document(notes: &Vec<NoteMetadata>) -> (r: String)
    ensures
        r@ == spec_encode_doc(notes_views(notes@)),
{
    let mut out = String::new();
    out.append("{\n  \"notes\": [");
    proof {
        reveal_strlit("{\n  \"notes\": [");
        assert("{\n  \"notes\": ["@ =~= seq!['{'] + ws_nl(2) + seq![
            '"',
            'n',
            'o',
            't',
            'e',
            's',
            '"',
            ':',
            ' ',
            '[',
        ]);
    }
    if notes.len() == 0 {
        out.append("]\n}");
        proof {
            reveal_strlit("]\n}");
            assert("]\n}"@ =~= seq![']', '\n', '}']);
            assert(notes_views(notes@).len() == 0);
            assert(out@ =~= spec_encode_doc(notes_views(notes@)));
        }
    } else {
        append_notes(&mut out, notes, 0);
        out.append("\n  ]\n}");
        proof {
            reveal_strlit("\n  ]\n}");
            assert("\n  ]\n}"@ =~= ws_nl(2) + seq![']', '\n', '}']);
            assert(notes_views(notes@).skip(0) =~= notes_views(notes@));
            assert(notes_views(notes@).len() > 0);
            assert(out@ =~= spec_encode_doc(notes_views(notes@)));
        }
    }
    out
}

/// A suffix of a sequence decomposes into its head and the next suffix.
proof fn lemma_suffix_cons(s: Seq<char>, i: int)
    requires
        0 <= i < s.len(),
    ensures
        s.skip(i) == seq![s[i]] + s.skip(i + 1),
{
    assert(s.skip(i) =~= seq![s[i]] + s.skip(i + 1));
}

fn ws_char(c: char) -> (r: bool)
    ensures
        r == is_ws(c),
{
    c == ' ' || c == '\n' || c == '\t' || c == '\r'
}

/// Advances over whitespace.
fn skip_ws_exec(s: &str, i: usize) -> (j: usize)
    requires
        i <= s@.len(),
    ensures
        i <= j <= s@.len(),
        s@.skip(j as int) == spec_skip_ws(s@.skip(i as int)),
{
    let n = s.unicode_len();
    let mut j = i;
    while j < n && ws_char(s.get_char(j))
        invariant
            n == s@.len(),
            i <= j <= n,
            spec_skip_ws(s@.skip(i as int)) == spec_skip_ws(s@.skip(j as int)),
        decreases n - j,
    {
        proof {
            lemma_suffix_cons(s@, j as int);
            assert(s@.skip(j as int)[0] == s@[j as int]);
            assert(s@.skip(j as int).skip(1) =~= s@.skip(j as int + 1));
        }
        j = j + 1;
    }
    proof {
        if j < n {
            assert(s@.skip(j as int)[0] == s@[j as int]);
            assert(!is_ws(s@.skip(j as int)[0]));
        } else {
            assert(s@.skip(j as int).len() == 0);
        }
        assert(spec_skip_ws(s@.skip(j as int)) == s@.skip(j as int));
    }
    j
}

/// Skips whitespace and consumes one expected character.
fn expect_char_exec(s: &str, i: usize, c: char) -> (r: Option<usize>)
    requires
        i <= s@.len(),
    ensures
        match r {
            Some(j) => i < j <= s@.len() && ({
                let t = spec_skip_ws(s@.skip(i as int));
                t.len() > 0 && t[0] == c && s@.skip(j as int) == t.skip(1)
            }),
            None => !({
                let t = spec_skip_ws(s@.skip(i as int));
                t.len() > 0 && t[0] == c
            }),
        },
{
    let n = s.unicode_len();
    let j = skip_ws_exec(s, i);
    if j < n && s.get_char(j) == c {
        proof {
            lemma_suffix_cons(s@, j as int);
        }
        Some(j + 1)
    } else {
        proof {
            if j < n {
                assert(s@.skip(j as int)[0] == s@[j as int]);
            }
        }
        None
    }
}

fn unesc_exec(c: char) -> (r: Option<char>)
    ensures
        r == unesc_char(c),
{
    if c == '"' {
        Some('"')
    } else if c == '\\' {
        Some('\\')
    } else if c == 'n' {
        Some('\n')
    } else if c == 'r' {
        Some('\r')
    } else if c == 't' {
        Some('\t')
    } else if c == 'b' {
        Some('\u{0008}')
    } else if c == 'f' {
        Some('\u{000C}')
    } else if c == '/' {
        Some('/')
    } else {
        None
    }
}

fn hex_val_exec(c: char) -> (r: Option<u32>)
    ensures
        match r {
            Some(x) => hex_val(c) == Some(x as int) && x < 16,
            None => hex_val(c) is None,
        },
{
    let cv = c as u32;
    if 48 <= cv && cv <= 57 {
        Some(cv - 48)
    } else if 97 <= cv && cv <= 102 {
        Some(cv - 87)
    } else if 65 <= cv && cv <= 70 {
        Some(cv - 55)
    } else {
        None
    }
}

/// Reads a string body up to and over the closing quote.
fn parse_string_body_exec(s: &str, i0: usize) -> (r: Option<(String, usize)>)
    requires
        i0 <= s@.len(),
    ensures
        match r {
            Some(p) => i0 <= p.1 <= s@.len() && spec_parse_string_body(s@.skip(i0 as int)) == Some(
                (p.0@, s@.skip(p.1 as int)),
            ),
            None => spec_parse_string_body(s@.skip(i0 as int)) is None,
        },
{
    let n = s.unicode_len();
    let mut acc = String::new();
    let mut i = i0;
    loop
        invariant
            n == s@.len(),
            i0 <= i <= n,
            spec_parse_string_body(s@.skip(i0 as int)) is Some <==> spec_parse_string_body(
                s@.skip(i as int),
            ) is Some,
            spec_parse_string_body(s@.skip(i as int)) matches Some(p)
                ==> spec_parse_string_body(s@.skip(i0 as int)) == Some((acc@ + p.0, p.1)),
        decreases n - i,
    {
        if i >= n {
            proof {
                assert(s@.skip(i as int).len() == 0);
                assert(spec_parse_string_body(s@.skip(i as int)) is None);
            }
            return None;
        }
        let c = s.get_char(i);
        proof {
            lemma_suffix_cons(s@, i as int);
            assert(s@.skip(i as int)[0] == c);
        }
        if c == '"' {
            proof {
                assert(s@.skip(i as int).skip(1) =~= s@.skip(i as int + 1));
                assert(spec_parse_string_body(s@.skip(i as int)) == Some((
                    Seq::<char>::empty(),
                    s@.skip(i as int + 1),
                )));
                assert(acc@ + Seq::<char>::empty() =~= acc@);
            }
            return Some((acc, i + 1));
        } else if c == '\\' {
            if i + 1 >= n {
                proof {
                    assert(s@.skip(i as int).len() < 2);
                    assert(spec_parse_string_body(s@.skip(i as int)) is None);
                }
                return None;
            }
            let d = s.get_char(i + 1);
            proof {
                lemma_suffix_cons(s@, i as int + 1);
                assert(s@.skip(i as int)[1] == d);
            }
            if d == 'u' {
                if n - i < 6 {
                    proof {
                        assert(s@.skip(i as int).len() < 6);
                        assert(spec_parse_string_body(s@.skip(i as int)) is None);
                    }
                    return None;
                }
                let c2 = s.get_char(i + 2);
                let c3 = s.get_char(i + 3);
                let c4 = s.get_char(i + 4);
                let c5 = s.get_char(i + 5);
                proof {
                    assert(s@.skip(i as int)[2] == c2);
                    assert(s@.skip(i as int)[3] == c3);
                    assert(s@.skip(i as int)[4] == c4);
                    assert(s@.skip(i as int)[5] == c5);
                }
                let v2 = match hex_val_exec(c2) {
                    Some(x) => x,
                    None => {
                        proof {
                            assert(spec_parse_string_body(s@.skip(i as int)) is None);
                        }
                        return None;
                    },
                };
                let v3 = match hex_val_exec(c3) {
                    Some(x) => x,
                    None => {
                        proof {
                            assert(spec_parse_string_body(s@.skip(i as int)) is None);
                        }
                        return None;
                    },
                };
                let v4 = match hex_val_exec(c4) {
                    Some(x) => x,
                    None => {
                        proof {
                            assert(spec_parse_string_body(s@.skip(i as int)) is None);
                        }
                        return None;
                    },
                };
                let v5 = match hex_val_exec(c5) {
                    Some(x) => x,
                    None => {
                        proof {
                            assert(spec_parse_string_body(s@.skip(i as int)) is None);
                        }
                        return None;
                    },
                };
                let v: u32 = v2 * 4096 + v3 * 256 + v4 * 16 + v5;
                proof {
                    assert(hex4_val(c2, c3, c4, c5) == Some(v as int));
                }
                if 0xD800 <= v && v <= 0xDFFF {
                    proof {
                        assert(!is_bmp_scalar(v as int));
                        assert(spec_parse_string_body(s@.skip(i as int)) is None);
                    }
                    return None;
                }
                let u = match crate::text::char_from_u32(v) {
                    Some(u) => u,
                    None => {
                        proof {
                            assert(v < 0xD800 || (0xE000 <= v && v <= 0x10FFFF));
                            assert(false);
                        }
                        return None;
                    },
                };
                proof {
                    lemma_char_round(u);
                    assert(u as u32 == v);
                    assert(((v as int) as u32) as char == u);
                    assert(is_bmp_scalar(v as int));
                    assert(s@.skip(i as int).skip(6) =~= s@.skip(i as int + 6));
                    let ghost tail = spec_parse_string_body(s@.skip(i as int + 6));
                    assert(spec_parse_string_body(s@.skip(i as int)) == (match tail {
                        Some((w, rest)) => Some::<(Seq<char>, Seq<char>)>((seq![u] + w, rest)),
                        None => None::<(Seq<char>, Seq<char>)>,
                    }));
                }
                let ghost pre_acc = acc@;
                push_char(&mut acc, u);
                proof {
                    assert(acc@ =~= pre_acc + seq![u]);
                    match spec_parse_string_body(s@.skip(i as int + 6)) {
                        Some(p) => {
                            assert(pre_acc + (seq![u] + p.0) =~= acc@ + p.0);
                        },
                        None => {},
                    }
                }
                i = i + 6;
            } else {
                match unesc_exec(d) {
                Some(u) => {
                    proof {
                        assert(s@.skip(i as int).skip(2) =~= s@.skip(i as int + 2));
                        let ghost tail = spec_parse_string_body(s@.skip(i as int + 2));
                        assert(spec_parse_string_body(s@.skip(i as int)) == (match tail {
                            Some((v, rest)) => Some::<(Seq<char>, Seq<char>)>((seq![u] + v, rest)),
                            None => None::<(Seq<char>, Seq<char>)>,
                        }));
                    }
                    let ghost pre_acc = acc@;
                    push_char(&mut acc, u);
                    proof {
                        assert(acc@ =~= pre_acc + seq![u]);
                        match spec_parse_string_body(s@.skip(i as int + 2)) {
                            Some(p) => {
                                assert(pre_acc + (seq![u] + p.0) =~= acc@ + p.0);
                            },
                            None => {},
                        }
                    }
                    i = i + 2;
                },
                None => {
                    proof {
                        assert(spec_parse_string_body(s@.skip(i as int)) is None);
                    }
                    return None;
                },
                }
            }
        } else {
            proof {
                assert(s@.skip(i as int).skip(1) =~= s@.skip(i as int + 1));
                let ghost tail = spec_parse_string_body(s@.skip(i as int + 1));
                assert(spec_parse_string_body(s@.skip(i as int)) == (match tail {
                    Some((v, rest)) => Some::<(Seq<char>, Seq<char>)>((seq![c] + v, rest)),
                    None => None::<(Seq<char>, Seq<char>)>,
                }));
            }
            let ghost pre_acc = acc@;
            push_char(&mut acc, c);
            proof {
                assert(acc@ =~= pre_acc + seq![c]);
                match spec_parse_string_body(s@.skip(i as int + 1)) {
                    Some(p) => {
                        assert(pre_acc + (seq![c] + p.0) =~= acc@ + p.0);
                    },
                    None => {},
                }
            }
            i = i + 1;
        }
    }
}

/// Reads a quoted string, skipping leading whitespace.
fn parse_string_exec(s: &str, i: usize) -> (r: Option<(String, usize)>)
    requires
        i <= s@.len(),
    ensures
        match r {
            Some(p) => i < p.1 <= s@.len() && spec_parse_string(s@.skip(i as int)) == Some(
                (p.0@, s@.skip(p.1 as int)),
            ),
            None => spec_parse_string(s@.skip(i as int)) is None,
        },
{
    let n = s.unicode_len();
    let j = skip_ws_exec(s, i);
    if j < n && s.get_char(j) == '"' {
        proof {
            lemma_suffix_cons(s@, j as int);
            assert(s@.skip(j as int)[0] == '"');
            assert(s@.skip(j as int).skip(1) =~= s@.skip(j as int + 1));
        }
        parse_string_body_exec(s, j + 1)
    } else {
        proof {
            if j < n {
                assert(s@.skip(j as int)[0] == s@[j as int]);
            } else {
                assert(s@.skip(j as int).len() == 0);
            }
        }
        None
    }
}

/// Reads a string list, brackets included.
fn parse_string_list_exec(s: &str, i: usize) -> (r: Option<(Vec<String>, usize)>)
    requires
        i <= s@.len(),
    ensures
        match r {
            Some(p) => i < p.1 <= s@.len() && spec_parse_string_list(s@.skip(i as int)) == Some(
                (p.0.deep_view(), s@.skip(p.1 as int)),
            ),
            None => spec_parse_string_list(s@.skip(i as int)) is None,
        },
{
    let n = s.unicode_len();
    match expect_char_exec(s, i, '[') {
        None => None,
        Some(j1) => {
            let j2 = skip_ws_exec(s, j1);
            if j2 < n && s.get_char(j2) == ']' {
                proof {
                    lemma_suffix_cons(s@, j2 as int);
                    assert(s@.skip(j2 as int)[0] == ']');
                    assert(s@.skip(j2 as int).skip(1) =~= s@.skip(j2 as int + 1));
                }
                let vs: Vec<String> = Vec::new();
                proof {
                    assert(vs.deep_view() =~= Seq::<Seq<char>>::empty());
                }
                Some((vs, j2 + 1))
            } else {
                proof {
                    if j2 < n {
                        assert(s@.skip(j2 as int)[0] == s@[j2 as int]);
                    } else {
                        assert(s@.skip(j2 as int).len() == 0);
                    }
                }
                let mut vs: Vec<String> = Vec::new();
                let mut cur = j1;
                proof {
                    assert(vs.deep_view() =~= Seq::<Seq<char>>::empty());
                    assert(vs.deep_view() + Seq::<Seq<char>>::empty() =~= vs.deep_view());
                }
                loop
                    invariant
                        n == s@.len(),
                        i < j1,
                        j1 <= cur <= n,
                        spec_parse_string_elems(s@.skip(j1 as int)) is Some
                            <==> spec_parse_string_elems(s@.skip(cur as int)) is Some,
                        spec_parse_string_elems(s@.skip(cur as int)) matches Some(p)
                            ==> spec_parse_string_elems(s@.skip(j1 as int)) == Some(
                            (vs.deep_view() + p.0, p.1),
                        ),
                        spec_parse_string_list(s@.skip(i as int)) == spec_parse_string_elems(
                            s@.skip(j1 as int),
                        ),
                    decreases n - cur,
                {
                    match parse_string_exec(s, cur) {
                        None => {
                            proof {
                                assert(spec_parse_string_elems(s@.skip(cur as int)) is None);
                            }
                            return None;
                        },
                        Some((v, j)) => {
                            let ghost pre_vs = vs.deep_view();
                            let ghost gv = v@;
                            vs.push(v);
                            proof {
                                assert(vs.deep_view() =~= pre_vs + seq![gv]);
                            }
                            let k = skip_ws_exec(s, j);
                            if k < n && s.get_char(k) == ',' {
                                proof {
                                    lemma_suffix_cons(s@, k as int);
                                    assert(s@.skip(k as int)[0] == ',');
                                    assert(s@.skip(k as int).skip(1) =~= s@.skip(k as int + 1));
                                    let ghost tail = spec_parse_string_elems(s@.skip(k as int + 1));
                                    assert(spec_parse_string_elems(s@.skip(cur as int)) == (
                                    match tail {
                                        Some(
                                            (ws, rest),
                                        ) => Some::<(Seq<Seq<char>>, Seq<char>)>(
                                            (seq![gv] + ws, rest),
                                        ),
                                        None => None::<(Seq<Seq<char>>, Seq<char>)>,
                                    }));
                                    match tail {
                                        Some(p) => {
                                            assert(pre_vs + (seq![gv] + p.0) =~= vs.deep_view()
                                                + p.0);
                                        },
                                        None => {},
                                    }
                                }
                                cur = k + 1;
                            } else if k < n && s.get_char(k) == ']' {
                                proof {
                                    lemma_suffix_cons(s@, k as int);
                                    assert(s@.skip(k as int)[0] == ']');
                                    assert(s@.skip(k as int).skip(1) =~= s@.skip(k as int + 1));
                                    assert(spec_parse_string_elems(s@.skip(cur as int)) == Some((
                                        seq![gv],
                                        s@.skip(k as int + 1),
                                    )));
                                    assert(pre_vs + seq![gv] =~= vs.deep_view());
                                    assert(spec_parse_string_elems(s@.skip(j1 as int)) == Some((
                                        vs.deep_view(),
                                        s@.skip(k as int + 1),
                                    )));
                                    assert(spec_parse_string_list(s@.skip(i as int)) == Some((
                                        vs.deep_view(),
                                        s@.skip(k as int + 1),
                                    )));
                                }
                                return Some((vs, k + 1));
                            } else {
                                proof {
                                    if k < n {
                                        assert(s@.skip(k as int)[0] == s@[k as int]);
                                    } else {
                                        assert(s@.skip(k as int).len() == 0);
                                    }
                                    assert(spec_parse_string_elems(
                                        s@.skip(cur as int),
                                    ) is None);
                                }
                                return None;
                            }
                        },
                    }
                }
            }
        },
    }
}

/// Reads one note object.
fn parse_note_exec(s: &str, i: usize) -> (r: Option<(NoteMetadata, usize)>)
    requires
        i <= s@.len(),
    ensures
        match r {
            Some(p) => i < p.1 <= s@.len() && spec_parse_note(s@.skip(i as int)) == Some(
                (p.0@, s@.skip(p.1 as int)),
            ),
            None => spec_parse_note(s@.skip(i as int)) is None,
        },
{
    let n = s.unicode_len();
    proof {
        reveal_strlit("rel_path");
        assert("rel_path"@ =~= seq!['r', 'e', 'l', '_', 'p', 'a', 't', 'h']);
        reveal_strlit("labels");
        assert("labels"@ =~= seq!['l', 'a', 'b', 'e', 'l', 's']);
    }
    let j1 = match expect_char_exec(s, i, '{') {
        Some(j1) => j1,
        None => {
            return None;
        },
    };
    let (k1, j2) = match parse_string_exec(s, j1) {
        Some(p) => p,
        None => {
            return None;
        },
    };
    if !str_eq(k1.as_str(), "rel_path") {
        return None;
    }
    let j3 = match expect_char_exec(s, j2, ':') {
        Some(j3) => j3,
        None => {
            return None;
        },
    };
    let (rp, j4) = match parse_string_exec(s, j3) {
        Some(p) => p,
        None => {
            return None;
        },
    };
    let k = skip_ws_exec(s, j4);
    if k < n && s.get_char(k) == '}' {
        proof {
            lemma_suffix_cons(s@, k as int);
            assert(s@.skip(k as int)[0] == '}');
            assert(s@.skip(k as int).skip(1) =~= s@.skip(k as int + 1));
        }
        let note = NoteMetadata { rel_path: rp, labels: Vec::new() };
        proof {
            assert(note@.labels =~= Seq::<Seq<char>>::empty());
        }
        Some((note, k + 1))
    } else if k < n && s.get_char(k) == ',' {
        proof {
            lemma_suffix_cons(s@, k as int);
            assert(s@.skip(k as int)[0] == ',');
            assert(s@.skip(k as int).skip(1) =~= s@.skip(k as int + 1));
        }
        let (k2, j5) = match parse_string_exec(s, k + 1) {
            Some(p) => p,
            None => {
                return None;
            },
        };
        if !str_eq(k2.as_str(), "labels") {
            return None;
        }
        let j6 = match expect_char_exec(s, j5, ':') {
            Some(j6) => j6,
            None => {
                return None;
            },
        };
        let (ls, j7) = match parse_string_list_exec(s, j6) {
            Some(p) => p,
            None => {
                return None;
            },
        };
        let y = skip_ws_exec(s, j7);
        if y < n && s.get_char(y) == '}' {
            proof {
                lemma_suffix_cons(s@, y as int);
                assert(s@.skip(y as int)[0] == '}');
                assert(s@.skip(y as int).skip(1) =~= s@.skip(y as int + 1));
            }
            let note = NoteMetadata { rel_path: rp, labels: ls };
            Some((note, y + 1))
        } else {
            proof {
                if y < n {
                    assert(s@.skip(y as int)[0] == s@[y as int]);
                } else {
                    assert(s@.skip(y as int).len() == 0);
                }
            }
            None
        }
    } else {
        proof {
            if k < n {
                assert(s@.skip(k as int)[0] == s@[k as int]);
            } else {
                assert(s@.skip(k as int).len() == 0);
            }
        }
        None
    }
}

/// Reads the whole index document; `None` when the text is not a
/// well-formed index.
pub fn parse_index_document(s: &str) -> (r: Option<Vec<NoteMetadata>>)
    ensures
        match spec_parse_doc(s@) {
            Some(ns) => r matches Some(v) && notes_views(v@) == ns,
            None => r is None,
        },
{
    let n = s.unicode_len();
    proof {
        reveal_strlit("notes");
        assert("notes"@ =~= seq!['n', 'o', 't', 'e', 's']);
        assert(s@.skip(0) =~= s@);
    }
    let j1 = match expect_char_exec(s, 0, '{') {
        Some(j1) => j1,
        None => {
            return None;
        },
    };
    let (k1, j2) = match parse_string_exec(s, j1) {
        Some(p) => p,
        None => {
            return None;
        },
    };
    if !str_eq(k1.as_str(), "notes") {
        return None;
    }
    let j3 = match expect_char_exec(s, j2, ':') {
        Some(j3) => j3,
        None => {
            return None;
        },
    };
    let j4 = match expect_char_exec(s, j3, '[') {
        Some(j4) => j4,
        None => {
            return None;
        },
    };
    let j5 = skip_ws_exec(s, j4);
    if j5 < n && s.get_char(j5) == ']' {
        proof {
            lemma_suffix_cons(s@, j5 as int);
            assert(s@.skip(j5 as int)[0] == ']');
            assert(s@.skip(j5 as int).skip(1) =~= s@.skip(j5 as int + 1));
        }
        let j6 = match expect_char_exec(s, j5 + 1, '}') {
            Some(j6) => j6,
            None => {
                return None;
            },
        };
        let j7 = skip_ws_exec(s, j6);
        if j7 == n {
            let vs: Vec<NoteMetadata> = Vec::new();
            proof {
                assert(s@.skip(j7 as int).len() == 0);
                assert(notes_views(vs@) =~= Seq::<NoteView>::empty());
            }
            Some(vs)
        } else {
            proof {
                assert(s@.skip(j7 as int).len() > 0);
            }
            None
        }
    } else {
        proof {
            if j5 < n {
                assert(s@.skip(j5 as int)[0] == s@[j5 as int]);
            } else {
                assert(s@.skip(j5 as int).len() == 0);
            }
        }
        let mut vs: Vec<NoteMetadata> = Vec::new();
        let mut cur = j4;
        proof {
            assert(notes_views(vs@) =~= Seq::<NoteView>::empty());
        }
        loop
            invariant
                n == s@.len(),
                j4 <= cur <= n,
                spec_parse_note_elems(s@.skip(j4 as int)) is Some <==> spec_parse_note_elems(
                    s@.skip(cur as int),
                ) is Some,
                spec_parse_note_elems(s@.skip(cur as int)) matches Some(p)
                    ==> spec_parse_note_elems(s@.skip(j4 as int)) == Some(
                    (notes_views(vs@) + p.0, p.1),
                ),
                spec_parse_doc(s@) == (match spec_parse_note_elems(s@.skip(j4 as int)) {
                    Some((ns, r2)) => {
                        let z = spec_skip_ws(r2);
                        if z.len() > 0 && z[0] == '}' && spec_skip_ws(z.skip(1)).len() == 0 {
                            Some(ns)
                        } else {
                            None
                        }
                    },
                    None => None,
                }),
            decreases n - cur,
        {
            match parse_note_exec(s, cur) {
                None => {
                    proof {
                        assert(spec_parse_note_elems(s@.skip(cur as int)) is None);
                    }
                    return None;
                },
                Some((note, j)) => {
                    let ghost pre_vs = notes_views(vs@);
                    let ghost gn = note@;
                    vs.push(note);
                    proof {
                        assert(notes_views(vs@) =~= pre_vs + seq![gn]);
                    }
                    let k = skip_ws_exec(s, j);
                    if k < n && s.get_char(k) == ',' {
                        proof {
                            lemma_suffix_cons(s@, k as int);
                            assert(s@.skip(k as int)[0] == ',');
                            assert(s@.skip(k as int).skip(1) =~= s@.skip(k as int + 1));
                            let ghost tail = spec_parse_note_elems(s@.skip(k as int + 1));
                            assert(spec_parse_note_elems(s@.skip(cur as int)) == (match tail {
                                Some((ns, rest)) => Some::<(Seq<NoteView>, Seq<char>)>(
                                    (seq![gn] + ns, rest),
                                ),
                                None => None::<(Seq<NoteView>, Seq<char>)>,
                            }));
                            match tail {
                                Some(p) => {
                                    assert(pre_vs + (seq![gn] + p.0) =~= notes_views(vs@) + p.0);
                                },
                                None => {},
                            }
                        }
                        cur = k + 1;
                    } else if k < n && s.get_char(k) == ']' {
                        proof {
                            lemma_suffix_cons(s@, k as int);
                            assert(s@.skip(k as int)[0] == ']');
                            assert(s@.skip(k as int).skip(1) =~= s@.skip(k as int + 1));
                            assert(spec_parse_note_elems(s@.skip(cur as int)) == Some((
                                seq![gn],
                                s@.skip(k as int + 1),
                            )));
                            assert(pre_vs + seq![gn] =~= notes_views(vs@));
                            assert(spec_parse_note_elems(s@.skip(j4 as int)) == Some((
                                notes_views(vs@),
                                s@.skip(k as int + 1),
                            )));
                        }
                        let j6 = match expect_char_exec(s, k + 1, '}') {
                            Some(j6) => j6,
                            None => {
                                return None;
                            },
                        };
                        let j7 = skip_ws_exec(s, j6);
                        if j7 == n {
                            proof {
                                assert(s@.skip(j7 as int).len() == 0);
                            }
                            return Some(vs);
                        } else {
                            proof {
                                assert(s@.skip(j7 as int).len() > 0);
                            }
                            return None;
                        }
                    } else {
                        proof {
                            if k < n {
                                assert(s@.skip(k as int)[0] == s@[k as int]);
                            } else {
                                assert(s@.skip(k as int).len() == 0);
                            }
                            assert(spec_parse_note_elems(s@.skip(cur as int)) is None);
                        }
                        return None;
                    }
                },
            }
        }
    }
}

/// The note list an index load yields: an absent file reads as a new,
/// empty notebook, and a file that does not parse also reads as empty —
/// the load is deliberately fail-soft.
pub fn notes_from_index(text: Option<&str>) -> (r: Vec<NoteMetadata>)
    ensures
        match text {
            Some(t) => match spec_parse_doc(t@) {
                Some(ns) => notes_views(r@) == ns,
                None => r@.len() == 0,
            },
            None => r@.len() == 0,
        },
{
    match text {
        Some(t) => match parse_index_document(t) {
            Some(vs) => vs,
            None => Vec::new(),
        },
        None => Vec::new(),
    }
}

} // verus!
