//! The indentation-based format: a line-oriented block parser (block
//! mappings and sequences, scalars, comments) and the canonical two-space
//! block encoder, with the proof that the one inverts the other.

use vstd::prelude::*;
use crate::text::{is_int_literal, int_text, quoted_text, parse_quoted, spaces, digits_val, is_digit};
use crate::value::{Doc, unique_keys};
use crate::json::{at_least, parse_quoted_x, digits_end_x, jparse_number_x, lemma_digits_end, push_all};
use crate::value::{Value, ParseError, ParseErrorKind, value_model, list_model, dict_model, lemma_list_model, lemma_dict_model, lemma_list_model_cons, lemma_dict_model_cons};

verus! {

broadcast use vstd::std_specs::vec::group_vec_axioms;

// ----------------------------------------------------------- line scan

/// Position of the newline that ends the line starting at `i`, or the end
/// of the text.
pub open spec fn line_end(s: Seq<char>, i: int) -> int
    decreases s.len() - i,
{
    if 0 <= i < s.len() && s[i] != '\n' {
        line_end(s, i + 1)
    } else {
        i
    }
}

/// First non-space position in `[i, e)`, or `e`.
pub open spec fn indent_end(s: Seq<char>, i: int, e: int) -> int
    decreases e - i,
{
    if i < e && 0 <= i < s.len() && s[i] == ' ' {
        indent_end(s, i + 1, e)
    } else {
        i
    }
}

/// End of the line once trailing spaces are dropped: the least `r` with
/// `b <= r <= e` such that `[r, e)` is all spaces.
pub open spec fn rtrim_end(s: Seq<char>, b: int, e: int) -> int
    decreases e,
{
    if b < e && 0 <= e - 1 < s.len() && s[e - 1] == ' ' {
        rtrim_end(s, b, e - 1)
    } else {
        e
    }
}

/// The meaningful lines of the text from position `i` on: for each line
/// that is neither blank nor a comment, its indent and its body with
/// trailing spaces dropped.
pub open spec fn yaml_items(s: Seq<char>, i: int) -> Seq<(int, Seq<char>)>
    decreases s.len() - i + 1,
{
    if !(0 <= i < s.len()) {
        Seq::empty()
    } else {
        let e1 = line_end(s, i);
        let e2 = if e1 < i {
            i
        } else {
            e1
        };
        let e = if e2 > s.len() {
            s.len() as int
        } else {
            e2
        };
        let b0 = indent_end(s, i, e);
        let b = if b0 < i {
            i
        } else {
            b0
        };
        let r = rtrim_end(s, b, e);
        let rest = yaml_items(s, e + 1);
        if b >= e {
            rest
        } else if s[b] == '#' {
            rest
        } else {
            seq![((b - i) as int, s.subrange(b, r))] + rest
        }
    }
}

// -------------------------------------------------------------- scalars

/// A sequence-item line: a lone dash, or a dash and a space.
pub open spec fn is_dash_line(b: Seq<char>) -> bool {
    (b.len() == 1 && b[0] == '-') || (b.len() >= 2 && b[0] == '-' && b[1] == ' ')
}

/// Position `p` separates a mapping key from its value: a colon followed
/// by a space or the end of the line.
pub open spec fn colon_split_at(b: Seq<char>, p: int) -> bool {
    0 <= p < b.len() && b[p] == ':' && (p + 1 == b.len() || b[p + 1] == ' ')
}

/// First key separator at or after `j`, or the length of `b` if none.
pub open spec fn find_colon(b: Seq<char>, j: int) -> int
    decreases b.len() - j,
{
    if 0 <= j < b.len() {
        if colon_split_at(b, j) {
            j
        } else {
            find_colon(b, j + 1)
        }
    } else {
        b.len() as int
    }
}

/// Split a line into a mapping key and the separator position, if the
/// line is a mapping entry.  A line that opens a flow collection is
/// never a mapping entry: its colons belong to the flow syntax.
pub open spec fn key_split(b: Seq<char>) -> Option<(Seq<char>, int)> {
    if b.len() == 0 {
        None
    } else if b[0] == '[' || b[0] == '{' {
        None
    } else if b[0] == '"' {
        match parse_quoted(b, 1) {
            Some((k, q)) => if colon_split_at(b, q) {
                Some((k, q))
            } else {
                None
            },
            None => None,
        }
    } else {
        let p = find_colon(b, 0);
        if 1 <= p < b.len() {
            Some((b.subrange(0, p), p))
        } else {
            None
        }
    }
}

/// A string the encoder may write without quotes: nothing that could be
/// read back as another scalar, a comment, a key separator, a sequence
/// dash, or a structural character.
pub open spec fn plain_emit(t: Seq<char>) -> bool {
    &&& t.len() >= 1
    &&& t[0] != ' ' && t[t.len() - 1] != ' '
    &&& t[0] != '"' && t[0] != '\'' && t[0] != '[' && t[0] != '{' && t[0] != ']' && t[0] != '}'
        && t[0] != ',' && t[0] != '&' && t[0] != '*' && t[0] != '!' && t[0] != '|' && t[0] != '>'
        && t[0] != '%' && t[0] != '@' && t[0] != '`'
    &&& !is_dash_line(t)
    &&& forall|k: int|
        0 <= k < t.len() ==> #[trigger] t[k] != '\n' && t[k] != '#' && t[k] != '\\' && t[k] != '\r'
            && t[k] != '\t'
    &&& forall|p: int| !colon_split_at(t, p)
    &&& t != seq!['n', 'u', 'l', 'l'] && t != seq!['~'] && t != seq!['t', 'r', 'u', 'e'] && t
        != seq!['f', 'a', 'l', 's', 'e']
    &&& !is_int_literal(t)
    &&& !is_float_literal(t)
}

/// A character that may occur in a numeric-looking token.
pub open spec fn floatish_char(c: char) -> bool {
    is_digit(c) || c == '.' || c == 'e' || c == 'E' || c == '+' || c == '-'
}

pub open spec fn dotlike(c: char) -> bool {
    c == '.' || c == 'e' || c == 'E'
}

/// The body of a float-looking token: digit-led, numeric characters
/// only, holding at least one dot or exponent mark.
pub open spec fn float_body(u: Seq<char>) -> bool {
    &&& u.len() >= 1
    &&& is_digit(u[0])
    &&& exists|k: int| 0 <= k < u.len() && dotlike(#[trigger] u[k])
    &&& forall|k: int| 0 <= k < u.len() ==> floatish_char(#[trigger] u[k])
}

/// A token that reads as a floating-point literal: an optional sign,
/// then digits, dots and exponent marks, holding at least one dot or
/// mark.  Such a scalar is rejected rather than silently read as text:
/// the data model holds no floating-point numbers.
pub open spec fn is_float_literal(t: Seq<char>) -> bool {
    if t.len() >= 1 && (t[0] == '-' || t[0] == '+') {
        float_body(t.skip(1))
    } else {
        float_body(t)
    }
}

/// A plain scalar the decoder accepts as a string.  Alias-like and
/// single-quoted tokens and float-looking tokens are refused rather
/// than silently read as text.
pub open spec fn plain_accept(t: Seq<char>) -> bool {
    &&& t.len() >= 1
    &&& t[0] != ' ' && t[0] != '\'' && t[0] != '&' && t[0] != '*'
    &&& forall|k: int| 0 <= k < t.len() ==> #[trigger] t[k] != '\n' && t[k] != '#'
    &&& forall|p: int| !colon_split_at(t, p)
    &&& !is_float_literal(t)
}

/// First position at or after `i` that is not a space.
pub open spec fn fskip(t: Seq<char>, i: int) -> int
    decreases t.len() - i,
{
    if 0 <= i < t.len() && t[i] == ' ' {
        fskip(t, i + 1)
    } else {
        i
    }
}

/// From `j` on the token holds only spaces, or spaces and then a
/// comment.
pub open spec fn only_comment_after(t: Seq<char>, j: int) -> bool {
    let k = at_least(j, fskip(t, j));
    k >= t.len() || t[k] == '#'
}

/// First position of a comment mark preceded by a space, or the length.
pub open spec fn find_hash_sp(t: Seq<char>, i: int) -> int
    decreases t.len() - i,
{
    if 0 <= i < t.len() {
        if i >= 1 && t[i] == '#' && t[i - 1] == ' ' {
            i
        } else {
            find_hash_sp(t, i + 1)
        }
    } else {
        t.len() as int
    }
}

/// The token with any trailing comment and trailing spaces dropped.
pub open spec fn strip_tail(t: Seq<char>) -> Seq<char> {
    let c0 = find_hash_sp(t, 0);
    let c = if c0 < 0 {
        0
    } else if c0 > t.len() {
        t.len() as int
    } else {
        c0
    };
    let r0 = rtrim_end(t, 0, c);
    let r = if r0 < 0 {
        0
    } else if r0 > c {
        c
    } else {
        r0
    };
    t.subrange(0, r)
}

/// A character that ends a flow element.
pub open spec fn flow_delim(c: char) -> bool {
    c == ',' || c == ']' || c == '}'
}

/// End of the flow scalar that starts at `i`.
pub open spec fn atom_end(t: Seq<char>, i: int) -> int
    decreases t.len() - i,
{
    if 0 <= i < t.len() && !flow_delim(t[i]) {
        atom_end(t, i + 1)
    } else {
        i
    }
}

/// End of the plain flow key that starts at `i`: the first colon or
/// flow delimiter.
pub open spec fn colon_end(t: Seq<char>, i: int) -> int
    decreases t.len() - i,
{
    if 0 <= i < t.len() && t[i] != ':' && !flow_delim(t[i]) {
        colon_end(t, i + 1)
    } else {
        i
    }
}

/// Read one unquoted scalar token: null, boolean, integer, or plain
/// string.
pub open spec fn atom_classify(u: Seq<char>) -> Option<Doc> {
    if u == seq!['n', 'u', 'l', 'l'] || u == seq!['~'] {
        Some(Doc::Null)
    } else if u == seq!['t', 'r', 'u', 'e'] {
        Some(Doc::Bool(true))
    } else if u == seq!['f', 'a', 'l', 's', 'e'] {
        Some(Doc::Bool(false))
    } else if is_int_literal(u) {
        let v = crate::text::int_of_literal(u);
        if i64::MIN <= v <= i64::MAX {
            Some(Doc::Int(v))
        } else {
            None
        }
    } else if plain_accept(u) {
        Some(Doc::Text(u))
    } else {
        None
    }
}

/// Parse one flow (inline) value starting at `i`: a bracketed sequence,
/// a braced mapping, a quoted string, or a scalar delimited by a comma
/// or closing bracket.
pub open spec fn fparse_value(t: Seq<char>, i: int) -> Option<(Doc, int)>
    decreases t.len() - i, 2int,
{
    if i < 0 {
        None
    } else {
        let j = at_least(i, fskip(t, i));
        if j >= t.len() {
            None
        } else {
            let c = t[j];
            if c == '[' {
                let j2 = at_least(j + 1, fskip(t, j + 1));
                if j2 < t.len() && t[j2] == ']' {
                    Some((Doc::List(Seq::empty()), j2 + 1))
                } else {
                    match fparse_items(t, j + 1) {
                        Some((ds, k)) => Some((Doc::List(ds), k)),
                        None => None,
                    }
                }
            } else if c == '{' {
                let j2 = at_least(j + 1, fskip(t, j + 1));
                if j2 < t.len() && t[j2] == '}' {
                    Some((Doc::Dict(Seq::empty()), j2 + 1))
                } else {
                    match fparse_entries(t, j + 1) {
                        Some((es, k)) => if unique_keys(es) {
                            Some((Doc::Dict(es), k))
                        } else {
                            None
                        },
                        None => None,
                    }
                }
            } else if c == '"' {
                match parse_quoted(t, j + 1) {
                    Some((content, k)) => Some((Doc::Text(content), k)),
                    None => None,
                }
            } else {
                let e0 = atom_end(t, j);
                let e = if e0 < j {
                    j
                } else if e0 > t.len() {
                    t.len() as int
                } else {
                    e0
                };
                let r0 = rtrim_end(t, j, e);
                let r = if r0 < j {
                    j
                } else if r0 > e {
                    e
                } else {
                    r0
                };
                if r <= j {
                    None
                } else {
                    match atom_classify(t.subrange(j, r)) {
                        Some(d) => Some((d, e)),
                        None => None,
                    }
                }
            }
        }
    }
}

/// Parse the items of a nonempty flow sequence, up to and including the
/// closing bracket.
pub open spec fn fparse_items(t: Seq<char>, i: int) -> Option<(Seq<Doc>, int)>
    decreases t.len() - i, 3int,
{
    if i < 0 {
        None
    } else {
        match fparse_value(t, i) {
            None => None,
            Some((d, k0)) => {
                let k1 = at_least(i + 1, k0);
                let k = if k1 > t.len() {
                    t.len() as int
                } else {
                    k1
                };
                let m = at_least(k, fskip(t, k));
                if m >= t.len() {
                    None
                } else if t[m] == ',' {
                    match fparse_items(t, m + 1) {
                        Some((ds, e)) => Some((seq![d] + ds, e)),
                        None => None,
                    }
                } else if t[m] == ']' {
                    Some((seq![d], m + 1))
                } else {
                    None
                }
            },
        }
    }
}

/// Parse the entries of a nonempty flow mapping, up to and including
/// the closing brace.
pub open spec fn fparse_entries(t: Seq<char>, i: int) -> Option<(Seq<(Seq<char>, Doc)>, int)>
    decreases t.len() - i, 3int,
{
    if i < 0 {
        None
    } else {
        let j = at_least(i, fskip(t, i));
        if j >= t.len() {
            None
        } else {
            let kv: Option<(Seq<char>, int)> = if t[j] == '"' {
                match parse_quoted(t, j + 1) {
                    Some((key, q0)) => Some((key, at_least(j + 2, q0))),
                    None => None,
                }
            } else {
                let k0 = colon_end(t, j);
                let ke = if k0 < j {
                    j
                } else if k0 > t.len() {
                    t.len() as int
                } else {
                    k0
                };
                if ke < t.len() && t[ke] == ':' {
                    let r0 = rtrim_end(t, j, ke);
                    let r = if r0 < j {
                        j
                    } else if r0 > ke {
                        ke
                    } else {
                        r0
                    };
                    if r > j {
                        Some((t.subrange(j, r), ke))
                    } else {
                        None
                    }
                } else {
                    None
                }
            };
            match kv {
                None => None,
                Some((key, q1)) => {
                    let q2 = if q1 > t.len() {
                        t.len() as int
                    } else {
                        q1
                    };
                    let q = at_least(q2, fskip(t, q2));
                    if q < t.len() && t[q] == ':' {
                        match fparse_value(t, q + 1) {
                            None => None,
                            Some((d, k0)) => {
                                let k1 = at_least(q + 2, k0);
                                let k = if k1 > t.len() {
                                    t.len() as int
                                } else {
                                    k1
                                };
                                let m = at_least(k, fskip(t, k));
                                if m >= t.len() {
                                    None
                                } else if t[m] == ',' {
                                    match fparse_entries(t, m + 1) {
                                        Some((es, e)) => Some((seq![(key, d)] + es, e)),
                                        None => None,
                                    }
                                } else if t[m] == '}' {
                                    Some((seq![(key, d)], m + 1))
                                } else {
                                    None
                                }
                            },
                        }
                    } else {
                        None
                    }
                },
            }
        }
    }
}

/// Read one scalar-position token: a quoted string or a flow (inline)
/// collection, each optionally followed by a comment; otherwise an
/// unquoted scalar with any trailing comment dropped.
pub open spec fn classify(t: Seq<char>) -> Option<Doc> {
    if t.len() == 0 {
        None
    } else if t[0] == '"' {
        match parse_quoted(t, 1) {
            Some((c, j)) => if only_comment_after(t, j) {
                Some(Doc::Text(c))
            } else {
                None
            },
            None => None,
        }
    } else if t[0] == '[' || t[0] == '{' {
        match fparse_value(t, 0) {
            Some((d, j)) => if only_comment_after(t, j) {
                Some(d)
            } else {
                None
            },
            None => None,
        }
    } else {
        atom_classify(strip_tail(t))
    }
}

// -------------------------------------------------------------- parsing

/// A scalar, or an empty container: anything that fits on one line.
pub open spec fn is_scalarish(d: Doc) -> bool {
    match d {
        Doc::List(items) => items.len() == 0,
        Doc::Dict(entries) => entries.len() == 0,
        _ => true,
    }
}

/// Parse the block that starts at line `i`, whose lines are indented by
/// `ind`: a sequence of dash lines, a mapping of key lines, or a single
/// scalar line.
pub open spec fn yparse_block(ls: Seq<(int, Seq<char>)>, i: int, ind: int) -> Option<(Doc, int)>
    decreases ls.len() - i, 1int,
{
    if !(0 <= i < ls.len()) {
        None
    } else {
        let b = ls[i].1;
        if is_dash_line(b) {
            match yparse_seq(ls, i, ind) {
                Some((ds, j)) => Some((Doc::List(ds), j)),
                None => None,
            }
        } else {
            match key_split(b) {
                Some(kp) => match yparse_map(ls, i, ind) {
                    Some((es, j)) => if unique_keys(es) {
                        Some((Doc::Dict(es), j))
                    } else {
                        None
                    },
                    None => None,
                },
                None => match classify(b) {
                    Some(d) => Some((d, i + 1)),
                    None => None,
                },
            }
        }
    }
}

/// Parse consecutive dash lines at indent `ind` into sequence items.
pub open spec fn yparse_seq(ls: Seq<(int, Seq<char>)>, i: int, ind: int) -> Option<
    (Seq<Doc>, int),
>
    decreases ls.len() - i, 0int,
{
    if !(0 <= i < ls.len()) || ls[i].0 != ind || !is_dash_line(ls[i].1) {
        Some((Seq::empty(), i))
    } else {
        let b = ls[i].1;
        let item: Option<(Doc, int)> = if b.len() == 1 || only_comment_after(b.skip(2), 0) {
            if i + 1 < ls.len() && ls[i + 1].0 > ind {
                yparse_block(ls, i + 1, ls[i + 1].0)
            } else {
                Some((Doc::Null, i + 1))
            }
        } else {
            let tok = b.skip(2);
            match key_split(tok) {
                Some((kk, p)) => {
                    let v: Option<Doc> = if p + 1 == tok.len() || only_comment_after(
                        tok.skip(p + 2),
                        0,
                    ) {
                        Some(Doc::Null)
                    } else {
                        classify(tok.skip(p + 2))
                    };
                    match v {
                        Some(d) => Some((Doc::Dict(seq![(kk, d)]), i + 1)),
                        None => None,
                    }
                },
                None => match classify(tok) {
                    Some(d) => Some((d, i + 1)),
                    None => None,
                },
            }
        };
        match item {
            None => None,
            Some((d, j0)) => {
                let j1 = if j0 < i + 1 {
                    i + 1
                } else {
                    j0
                };
                let j = if j1 > ls.len() {
                    ls.len() as int
                } else {
                    j1
                };
                match yparse_seq(ls, j, ind) {
                    Some((ds, e)) => Some((seq![d] + ds, e)),
                    None => None,
                }
            },
        }
    }
}

/// Parse consecutive key lines at indent `ind` into mapping entries.
pub open spec fn yparse_map(ls: Seq<(int, Seq<char>)>, i: int, ind: int) -> Option<
    (Seq<(Seq<char>, Doc)>, int),
>
    decreases ls.len() - i, 0int,
{
    if !(0 <= i < ls.len()) || ls[i].0 != ind {
        Some((Seq::empty(), i))
    } else {
        let b = ls[i].1;
        match key_split(b) {
            None => Some((Seq::empty(), i)),
            Some((key, p)) => {
                let item: Option<(Doc, int)> = if p + 1 == b.len() || only_comment_after(
                    b.skip(p + 2),
                    0,
                ) {
                    if i + 1 < ls.len() && ls[i + 1].0 > ind {
                        yparse_block(ls, i + 1, ls[i + 1].0)
                    } else {
                        Some((Doc::Null, i + 1))
                    }
                } else {
                    match classify(b.skip(p + 2)) {
                        Some(d) => Some((d, i + 1)),
                        None => None,
                    }
                };
                match item {
                    None => None,
                    Some((d, j0)) => {
                        let j1 = if j0 < i + 1 {
                            i + 1
                        } else {
                            j0
                        };
                        let j = if j1 > ls.len() {
                            ls.len() as int
                        } else {
                            j1
                        };
                        match yparse_map(ls, j, ind) {
                            Some((es, e)) => Some((seq![(key, d)] + es, e)),
                            None => None,
                        }
                    },
                }
            },
        }
    }
}

/// Parse a whole document: its meaningful lines as one block; a text
/// with no meaningful line is the null document.
pub open spec fn yparse_doc(s: Seq<char>) -> Option<Doc> {
    let ls = yaml_items(s, 0);
    if ls.len() == 0 {
        Some(Doc::Null)
    } else {
        match yparse_block(ls, 0, ls[0].0) {
            Some((d, j)) => if j == ls.len() {
                Some(d)
            } else {
                None
            },
            None => None,
        }
    }
}

// ------------------------------------------------------------- encoding

/// The one-line form of a scalar or empty container.
pub open spec fn scalar_tok(d: Doc) -> Seq<char> {
    match d {
        Doc::Null => seq!['n', 'u', 'l', 'l'],
        Doc::Bool(v) => if v {
            seq!['t', 'r', 'u', 'e']
        } else {
            seq!['f', 'a', 'l', 's', 'e']
        },
        Doc::Int(n) => int_text(n),
        Doc::Text(t) => if plain_emit(t) {
            t
        } else {
            quoted_text(t)
        },
        Doc::List(items) => seq!['[', ']'],
        Doc::Dict(entries) => seq!['{', '}'],
    }
}

/// The one-line form of a mapping key.
pub open spec fn key_tok(k: Seq<char>) -> Seq<char> {
    if plain_emit(k) {
        k
    } else {
        quoted_text(k)
    }
}

/// The lines of a sequence from item `idx` on, at column `col`: scalars
/// after a dash, nested blocks under a lone dash, two columns deeper.
pub open spec fn ylist_lines(items: Seq<Doc>, idx: int, col: int) -> Seq<(int, Seq<char>)>
    decreases items, items.len() - idx,
{
    if 0 <= idx < items.len() {
        let d = items[idx];
        (if is_scalarish(d) {
            seq![(col, seq!['-', ' '] + scalar_tok(d))]
        } else {
            seq![(col, seq!['-'])] + yblock_lines(d, col + 2)
        }) + ylist_lines(items, idx + 1, col)
    } else {
        Seq::empty()
    }
}

/// The lines of a mapping from entry `idx` on, at column `col`.
pub open spec fn ydict_lines(entries: Seq<(Seq<char>, Doc)>, idx: int, col: int) -> Seq<
    (int, Seq<char>),
>
    decreases entries, entries.len() - idx,
{
    if 0 <= idx < entries.len() {
        let k = entries[idx].0;
        let d = entries[idx].1;
        (if is_scalarish(d) {
            seq![(col, key_tok(k) + seq![':', ' '] + scalar_tok(d))]
        } else {
            seq![(col, key_tok(k) + seq![':'])] + yblock_lines(d, col + 2)
        }) + ydict_lines(entries, idx + 1, col)
    } else {
        Seq::empty()
    }
}

/// The lines of a nonempty container at column `col`.
pub open spec fn yblock_lines(d: Doc, col: int) -> Seq<(int, Seq<char>)>
    decreases d, 0int,
{
    match d {
        Doc::List(items) => ylist_lines(items, 0, col),
        Doc::Dict(entries) => ydict_lines(entries, 0, col),
        _ => seq![(col, scalar_tok(d))],
    }
}

/// The lines of a whole document.
pub open spec fn ydoc_lines(d: Doc) -> Seq<(int, Seq<char>)> {
    if is_scalarish(d) {
        seq![(0int, scalar_tok(d))]
    } else {
        yblock_lines(d, 0)
    }
}

/// Render lines as text: each line its column in spaces, its body, and a
/// newline.
pub open spec fn join_lines(lines: Seq<(int, Seq<char>)>, idx: int) -> Seq<char>
    decreases lines.len() - idx,
{
    if 0 <= idx < lines.len() {
        spaces(lines[idx].0) + lines[idx].1 + seq!['\n'] + join_lines(lines, idx + 1)
    } else {
        Seq::empty()
    }
}

/// The canonical document text.
pub open spec fn yaml_text(d: Doc) -> Seq<char> {
    join_lines(ydoc_lines(d), 0)
}


// ---------------------------------------------------------- scan lemmas

pub proof fn lemma_line_end_run(s: Seq<char>, i: int, j: int)
    requires
        0 <= i <= j <= s.len(),
        forall|k: int| i <= k < j ==> #[trigger] s[k] != '\n',
        j == s.len() || s[j] == '\n',
    ensures
        line_end(s, i) == j,
    decreases j - i,
{
    if i < j {
        lemma_line_end_run(s, i + 1, j);
    }
}

pub proof fn lemma_indent_end_run(s: Seq<char>, i: int, b: int, e: int)
    requires
        0 <= i <= b <= e <= s.len(),
        forall|k: int| i <= k < b ==> #[trigger] s[k] == ' ',
        b == e || s[b] != ' ',
    ensures
        indent_end(s, i, e) == b,
    decreases b - i,
{
    if i < b {
        lemma_indent_end_run(s, i + 1, b, e);
    }
}

pub proof fn lemma_rtrim_end_run(s: Seq<char>, b: int, r: int, e: int)
    requires
        0 <= b <= r <= e <= s.len(),
        forall|k: int| r <= k < e ==> #[trigger] s[k] == ' ',
        r == b || s[r - 1] != ' ',
    ensures
        rtrim_end(s, b, e) == r,
    decreases e,
{
    if r < e {
        lemma_rtrim_end_run(s, b, r, e - 1);
    }
}

pub proof fn lemma_find_colon_run(b: Seq<char>, j: int, p: int)
    requires
        0 <= j <= p <= b.len(),
        forall|q: int| j <= q < p ==> !(#[trigger] colon_split_at(b, q)),
        p == b.len() || colon_split_at(b, p),
    ensures
        find_colon(b, j) == p,
    decreases p - j,
{
    if j < p {
        lemma_find_colon_run(b, j + 1, p);
    }
}

/// A line body the scanner passes through whole: nonempty, no line
/// break, no leading space or comment mark, no trailing space.
pub open spec fn body_shaped(b: Seq<char>) -> bool {
    &&& b.len() >= 1
    &&& b[0] != ' ' && b[0] != '#'
    &&& b[b.len() - 1] != ' '
    &&& forall|k: int| 0 <= k < b.len() ==> #[trigger] b[k] != '\n'
}

pub open spec fn lines_shaped(lines: Seq<(int, Seq<char>)>) -> bool {
    forall|t: int|
        0 <= t < lines.len() ==> (#[trigger] lines[t].0) >= 0 && body_shaped(lines[t].1)
}

/// The rendering of `lines` from `idx` on fills `s` from `i` to its end.
pub open spec fn join_covers(lines: Seq<(int, Seq<char>)>, idx: int, s: Seq<char>, i: int) -> bool {
    s.len() - i == join_lines(lines, idx).len() && s.subrange(i, s.len() as int) == join_lines(
        lines,
        idx,
    )
}

/// Scanning the rendering of shaped lines yields those lines back.
#[verifier::rlimit(60)]
pub proof fn lemma_scan_join(
    lines: Seq<(int, Seq<char>)>,
    idx: int,
    s: Seq<char>,
    i: int,
)
    requires
        0 <= idx <= lines.len(),
        0 <= i <= s.len(),
        lines_shaped(lines),
        join_covers(lines, idx, s, i),
    ensures
        yaml_items(s, i) == lines.skip(idx),
    decreases lines.len() - idx,
{
    if idx == lines.len() {
        assert(lines.skip(idx) =~= Seq::<(int, Seq<char>)>::empty());
    } else {
        let col = lines[idx].0;
        let body = lines[idx].1;
        let seg = spaces(col) + body + seq!['\n'];
        let rest = join_lines(lines, idx + 1);
        assert(col >= 0 && body_shaped(body));
        assert(s.subrange(i, i + (seg.len() + rest.len())) == seg + rest);
        crate::text::lemma_sub_split(s, i, seg, rest);
        crate::text::lemma_seg_index(s, i, seg);
        let b = i + col;
        let e = b + body.len();
        assert forall|k: int| i <= k < e implies (#[trigger] s[k] != '\n') by {
            assert(s[i + (k - i)] == seg[k - i]);
            if k - i < col {
                assert(seg[k - i] == spaces(col)[k - i]);
            } else {
                assert(seg[k - i] == body[k - i - col]);
            }
        }
        assert(s[i + (col + body.len())] == seg[col + body.len()]);
        assert(seg[col + body.len()] == '\n');
        lemma_line_end_run(s, i, e);
        assert forall|k: int| i <= k < b implies (#[trigger] s[k] == ' ') by {
            assert(s[i + (k - i)] == seg[k - i]);
            assert(seg[k - i] == spaces(col)[k - i]);
        }
        assert(s[i + col] == seg[col]);
        assert(seg[col] == body[0]);
        lemma_indent_end_run(s, i, b, e);
        assert(s[i + (col + body.len() - 1)] == seg[col + body.len() - 1]);
        assert(seg[col + body.len() - 1] == body[body.len() - 1]);
        lemma_rtrim_end_run(s, b, e, e);
        assert forall|m: int| 0 <= m < body.len() implies s.subrange(b, e)[m] == body[m] by {
            assert(s[i + (col + m)] == seg[col + m]);
            assert(seg[col + m] == body[m]);
        }
        assert(s.subrange(b, e) =~= body);
        lemma_scan_join(lines, idx + 1, s, e + 1);
        assert((col, body) == lines[idx]);
        assert(seq![lines[idx]] + lines.skip(idx + 1) =~= lines.skip(idx));
    }
}

// ----------------------------------------------------- token lemmas


/// With no comment mark in the token, nothing is cut.
pub proof fn lemma_find_hash_none(t: Seq<char>, i: int)
    requires
        0 <= i <= t.len(),
        forall|k: int| 0 <= k < t.len() ==> #[trigger] t[k] != '#',
    ensures
        find_hash_sp(t, i) == t.len(),
    decreases t.len() - i,
{
    if i < t.len() {
        lemma_find_hash_none(t, i + 1);
    }
}

/// A token without comment marks or trailing spaces passes through the
/// comment strip unchanged.
pub proof fn lemma_strip_tail_id(t: Seq<char>)
    requires
        t.len() >= 1,
        t[t.len() - 1] != ' ',
        forall|k: int| 0 <= k < t.len() ==> #[trigger] t[k] != '#',
    ensures
        strip_tail(t) == t,
{
    lemma_find_hash_none(t, 0);
    lemma_rtrim_end_run(t, 0, t.len() as int, t.len() as int);
    assert(t.subrange(0, t.len() as int) =~= t);
}

/// A scalar token never reads as a comment or as blank.
pub proof fn lemma_tok_not_comment(tok: Seq<char>)
    requires
        tok.len() >= 1,
        tok[0] != ' ',
        tok[0] != '#',
    ensures
        !only_comment_after(tok, 0),
{
    assert(fskip(tok, 0) == 0);
}

/// The facts of `lemma_tok_facts`, for a text scalar.
#[verifier::rlimit(100)]
proof fn lemma_tok_facts_text(txt: Seq<char>)
    ensures
        body_shaped(scalar_tok(Doc::Text(txt))),
        classify(scalar_tok(Doc::Text(txt))) == Some(Doc::Text(txt)),
        !is_dash_line(scalar_tok(Doc::Text(txt))),
        key_split(scalar_tok(Doc::Text(txt))) == None::<(Seq<char>, int)>,
{
    let t = scalar_tok(Doc::Text(txt));
    if plain_emit(txt) {
        assert forall|q: int| 0 <= q < t.len() implies (!(#[trigger] colon_split_at(t, q))) by {}
        lemma_find_colon_run(t, 0, t.len() as int);
        lemma_strip_tail_id(t);
    } else {
        crate::text::lemma_quoted_text_facts(txt);
        assert(t.subrange(0, t.len() as int) =~= t);
        crate::text::lemma_quoted_round_trip(txt, t, 0);
        assert(fskip(t, t.len() as int) == t.len() as int);
        assert(only_comment_after(t, t.len() as int));
    }
}

/// The facts of `lemma_tok_facts`, for an integer scalar.
#[verifier::rlimit(100)]
proof fn lemma_tok_facts_int(n: int)
    requires
        i64::MIN <= n <= i64::MAX,
    ensures
        body_shaped(scalar_tok(Doc::Int(n))),
        classify(scalar_tok(Doc::Int(n))) == Some(Doc::Int(n)),
        !is_dash_line(scalar_tok(Doc::Int(n))),
        key_split(scalar_tok(Doc::Int(n))) == None::<(Seq<char>, int)>,
{
    let t = scalar_tok(Doc::Int(n));
    crate::text::lemma_int_text_round_trip(n);
    crate::text::lemma_int_text_chars(n);
    assert forall|q: int| 0 <= q < t.len() implies (!(#[trigger] colon_split_at(t, q))) by {
        assert(t[q] == '-' || crate::text::is_digit(t[q]));
    }
    lemma_find_colon_run(t, 0, t.len() as int);
    if t[0] == '-' {
        let dd = crate::text::dec_digits((-n) as nat);
        crate::text::lemma_dec_digits_all_digits((-n) as nat);
        assert(t[1] == dd[0]);
        assert(crate::text::is_digit(t[1]));
    }
    assert forall|k: int| 0 <= k < t.len() implies (#[trigger] t[k] != '\n' && t[k] != '#') by {
        assert(t[k] == '-' || crate::text::is_digit(t[k]));
    }
    assert(t[t.len() - 1] == '-' || crate::text::is_digit(t[t.len() - 1]));
    lemma_strip_tail_id(t);
    assert(crate::text::int_of_literal(t) == n);
}

/// A scalar token reads back as exactly its document, and can never be
/// taken for a sequence dash or a mapping key.
#[verifier::rlimit(100)]
pub proof fn lemma_tok_facts(d: Doc)
    requires
        crate::value::wf(d),
        is_scalarish(d),
    ensures
        body_shaped(scalar_tok(d)),
        classify(scalar_tok(d)) == Some(d),
        !is_dash_line(scalar_tok(d)),
        key_split(scalar_tok(d)) == None::<(Seq<char>, int)>,
{
    let t = scalar_tok(d);
    match d {
        Doc::Text(txt) => {
            lemma_tok_facts_text(txt);
        },
        Doc::Int(n) => {
            lemma_tok_facts_int(n);
        },
        _ => {
            assert forall|q: int| 0 <= q < t.len() implies (!(#[trigger] colon_split_at(
                t,
                q,
            ))) by {}
            lemma_find_colon_run(t, 0, t.len() as int);
            match d {
                Doc::List(items) => {
                    assert(items =~= Seq::<Doc>::empty());
                    assert(fskip(t, 0) == 0);
                    assert(fskip(t, 1) == 1);
                    assert(fparse_value(t, 0) == Some((Doc::List(Seq::<Doc>::empty()), 2int)));
                    assert(fskip(t, 2) == 2);
                    assert(only_comment_after(t, 2));
                },
                Doc::Dict(entries) => {
                    assert(entries =~= Seq::<(Seq<char>, Doc)>::empty());
                    assert(fskip(t, 0) == 0);
                    assert(fskip(t, 1) == 1);
                    assert(fparse_value(t, 0) == Some(
                        (Doc::Dict(Seq::<(Seq<char>, Doc)>::empty()), 2int),
                    ));
                    assert(fskip(t, 2) == 2);
                    assert(only_comment_after(t, 2));
                },
                _ => {
                    lemma_strip_tail_id(t);
                },
            }
        },
    }
}

/// A mapping-entry line splits at the colon written after the key.
#[verifier::rlimit(60)]
pub proof fn lemma_key_line_facts(k: Seq<char>, rest: Seq<char>)
    requires
        rest.len() == 0 || rest[0] == ' ',
    ensures
        ({
            let b = key_tok(k) + seq![':'] + rest;
            &&& key_split(b) == Some((k, key_tok(k).len() as int))
            &&& !is_dash_line(b)
            &&& b[0] != ' ' && b[0] != '#'
        }),
{
    let kt = key_tok(k);
    let b = kt + seq![':'] + rest;
    assert forall|q: int| 0 <= q < kt.len() implies #[trigger] b[q] == kt[q] by {
        assert((kt + seq![':'])[q] == kt[q]);
    }
    assert(b[kt.len() as int] == (kt + seq![':'])[kt.len() as int]);
    assert(b[kt.len() as int] == ':');
    if rest.len() > 0 {
        assert(b[kt.len() as int + 1] == rest[0]);
    }
    assert(colon_split_at(b, kt.len() as int));
    assert(b[0] == kt[0]);
    if plain_emit(k) {
        assert(kt[0] == k[0]);
        assert forall|q: int| 0 <= q < k.len() implies (!(#[trigger] colon_split_at(b, q))) by {
            assert(b[q] == k[q]);
            if k[q] == ':' {
                assert(!colon_split_at(k, q));
                assert(q + 1 < k.len() && k[q + 1] != ' ');
                assert(b[q + 1] == k[q + 1]);
            }
        }
        lemma_find_colon_run(b, 0, k.len() as int);
        assert(b.subrange(0, k.len() as int) =~= k);
        if b[0] == '-' {
            assert(k[0] == '-');
            assert(k.len() >= 2 && k[1] != ' ');
            assert(b[1] == k[1]);
        }
    } else {
        crate::text::lemma_quoted_text_facts(k);
        assert(b.subrange(0, kt.len() as int) =~= kt);
        crate::text::lemma_quoted_round_trip(k, b, 0);
        assert(b[0] == '"');
    }
}

// ----------------------------------------------------- shape lemmas

pub proof fn lemma_shaped_concat(a: Seq<(int, Seq<char>)>, b: Seq<(int, Seq<char>)>)
    requires
        lines_shaped(a),
        lines_shaped(b),
    ensures
        lines_shaped(a + b),
{
    assert forall|t: int| 0 <= t < (a + b).len() implies ((#[trigger] (a + b)[t].0) >= 0
        && body_shaped((a + b)[t].1)) by {
        if t < a.len() {
            assert((a + b)[t] == a[t]);
        } else {
            assert((a + b)[t] == b[t - a.len()]);
        }
    }
}

/// The body of a dash-plus-scalar line is shaped.
pub proof fn lemma_dash_body(d: Doc)
    requires
        crate::value::wf(d),
        is_scalarish(d),
    ensures
        body_shaped(seq!['-', ' '] + scalar_tok(d)),
{
    lemma_tok_facts(d);
    let tok = scalar_tok(d);
    let b = seq!['-', ' '] + tok;
    assert(b[0] == '-');
    assert(b[b.len() - 1] == tok[tok.len() - 1]);
    assert forall|k: int| 0 <= k < b.len() implies (#[trigger] b[k] != '\n') by {
        if k >= 2 {
            assert(b[k] == tok[k - 2]);
        }
    }
}

/// The body of a mapping-entry line is shaped.
#[verifier::rlimit(60)]
pub proof fn lemma_entry_body(k: Seq<char>, rest: Seq<char>)
    requires
        rest.len() == 0 || (rest[0] == ' ' && rest.len() >= 2 && rest[rest.len() - 1] != ' '
            && forall|q: int| 0 <= q < rest.len() ==> #[trigger] rest[q] != '\n'),
    ensures
        body_shaped(key_tok(k) + seq![':'] + rest),
{
    lemma_key_line_facts(k, rest);
    let kt = key_tok(k);
    let b = kt + seq![':'] + rest;
    if !plain_emit(k) {
        crate::text::lemma_quoted_text_facts(k);
    }
    assert forall|q: int| 0 <= q < b.len() implies (#[trigger] b[q] != '\n') by {
        if q < kt.len() {
            assert((kt + seq![':'])[q] == kt[q]);
            assert(b[q] == kt[q]);
        } else if q == kt.len() {
            assert(b[q] == ':');
        } else {
            assert(b[q] == rest[q - kt.len() - 1]);
        }
    }
    if rest.len() == 0 {
        assert(b[b.len() - 1] == ':');
    } else {
        assert(b[b.len() - 1] == rest[rest.len() - 1]);
    }
}

pub proof fn lemma_ylist_shape(items: Seq<Doc>, idx: int, col: int)
    requires
        0 <= col,
        forall|t: int| 0 <= t < items.len() ==> crate::value::wf(#[trigger] items[t]),
    ensures
        lines_shaped(ylist_lines(items, idx, col)),
    decreases items, items.len() - idx,
{
    if 0 <= idx < items.len() {
        let d = items[idx];
        lemma_ylist_shape(items, idx + 1, col);
        if is_scalarish(d) {
            lemma_dash_body(d);
            lemma_shaped_concat(
                seq![(col, seq!['-', ' '] + scalar_tok(d))],
                ylist_lines(items, idx + 1, col),
            );
        } else {
            lemma_yblock_shape(d, col + 2);
            lemma_shaped_concat(seq![(col, seq!['-'])], yblock_lines(d, col + 2));
            lemma_shaped_concat(
                seq![(col, seq!['-'])] + yblock_lines(d, col + 2),
                ylist_lines(items, idx + 1, col),
            );
        }
    }
}

pub proof fn lemma_ydict_shape(entries: Seq<(Seq<char>, Doc)>, idx: int, col: int)
    requires
        0 <= col,
        forall|t: int| 0 <= t < entries.len() ==> crate::value::wf(#[trigger] entries[t].1),
    ensures
        lines_shaped(ydict_lines(entries, idx, col)),
    decreases entries, entries.len() - idx,
{
    if 0 <= idx < entries.len() {
        let k = entries[idx].0;
        let d = entries[idx].1;
        lemma_ydict_shape(entries, idx + 1, col);
        if is_scalarish(d) {
            lemma_tok_facts(d);
            let rest = seq![' '] + scalar_tok(d);
            let tok = scalar_tok(d);
            assert(rest[rest.len() - 1] == tok[tok.len() - 1]);
            assert forall|q: int| 0 <= q < rest.len() implies (#[trigger] rest[q] != '\n') by {
                if q >= 1 {
                    assert(rest[q] == tok[q - 1]);
                }
            }
            lemma_entry_body(k, rest);
            assert(key_tok(k) + seq![':', ' '] + scalar_tok(d) =~= key_tok(k) + seq![':'] + rest);
            lemma_shaped_concat(
                seq![(col, key_tok(k) + seq![':', ' '] + scalar_tok(d))],
                ydict_lines(entries, idx + 1, col),
            );
        } else {
            lemma_entry_body(k, Seq::empty());
            assert(key_tok(k) + seq![':'] =~= key_tok(k) + seq![':'] + Seq::<char>::empty());
            lemma_yblock_shape(d, col + 2);
            lemma_shaped_concat(seq![(col, key_tok(k) + seq![':'])], yblock_lines(d, col + 2));
            lemma_shaped_concat(
                seq![(col, key_tok(k) + seq![':'])] + yblock_lines(d, col + 2),
                ydict_lines(entries, idx + 1, col),
            );
        }
    }
}

pub proof fn lemma_yblock_shape(d: Doc, col: int)
    requires
        crate::value::wf(d),
        !is_scalarish(d),
        0 <= col,
    ensures
        lines_shaped(yblock_lines(d, col)),
        yblock_lines(d, col).len() >= 1,
        yblock_lines(d, col)[0].0 == col,
    decreases d, 0int,
{
    match d {
        Doc::List(items) => {
            lemma_ylist_shape(items, 0, col);
            let lines = ylist_lines(items, 0, col);
            if is_scalarish(items[0]) {
                assert(lines[0] == (col, seq!['-', ' '] + scalar_tok(items[0])));
            } else {
                assert(lines[0] == (seq![(col, seq!['-'])] + yblock_lines(items[0], col + 2))[0]);
            }
        },
        Doc::Dict(entries) => {
            lemma_ydict_shape(entries, 0, col);
            let lines = ydict_lines(entries, 0, col);
            let k = entries[0].0;
            if is_scalarish(entries[0].1) {
                assert(lines[0] == (col, key_tok(k) + seq![':', ' '] + scalar_tok(entries[0].1)));
            } else {
                assert(lines[0] == (seq![(col, key_tok(k) + seq![':'])] + yblock_lines(
                    entries[0].1,
                    col + 2,
                ))[0]);
            }
        },
        _ => {},
    }
}

// ------------------------------------------------------- round trip

pub proof fn lemma_ylist_head(items: Seq<Doc>, idx: int, col: int)
    requires
        0 <= idx < items.len(),
    ensures
        ylist_lines(items, idx, col).len() >= 1,
        ylist_lines(items, idx, col)[0].0 == col,
{
    let lines = ylist_lines(items, idx, col);
    if is_scalarish(items[idx]) {
        assert(lines[0] == (col, seq!['-', ' '] + scalar_tok(items[idx])));
    } else {
        assert(lines[0] == ((seq![(col, seq!['-'])] + yblock_lines(items[idx], col + 2))
            + ylist_lines(items, idx + 1, col))[0]);
        assert(lines[0] == (col, seq!['-']));
    }
}

pub proof fn lemma_ydict_head(entries: Seq<(Seq<char>, Doc)>, idx: int, col: int)
    requires
        0 <= idx < entries.len(),
    ensures
        ydict_lines(entries, idx, col).len() >= 1,
        ydict_lines(entries, idx, col)[0].0 == col,
{
    let lines = ydict_lines(entries, idx, col);
    let k = entries[idx].0;
    if is_scalarish(entries[idx].1) {
        assert(lines[0] == (col, key_tok(k) + seq![':', ' '] + scalar_tok(entries[idx].1)));
    } else {
        assert(lines[0] == ((seq![(col, key_tok(k) + seq![':'])] + yblock_lines(
            entries[idx].1,
            col + 2,
        )) + ydict_lines(entries, idx + 1, col))[0]);
        assert(lines[0] == (col, key_tok(k) + seq![':']));
    }
}

/// One scalar sequence item at line `i` parses and the rest follows.
#[verifier::rlimit(100)]
pub proof fn lemma_ylist_scalar_step(
    items: Seq<Doc>,
    idx: int,
    col: int,
    ls: Seq<(int, Seq<char>)>,
    i: int,
    end2: int,
)
    requires
        0 <= idx < items.len(),
        0 <= col,
        0 <= i < ls.len(),
        crate::value::wf(items[idx]),
        is_scalarish(items[idx]),
        ls[i] == (col, seq!['-', ' '] + scalar_tok(items[idx])),
        yparse_seq(ls, i + 1, col) == Some((items.skip(idx + 1), end2)),
    ensures
        yparse_seq(ls, i, col) == Some((items.skip(idx), end2)),
{
    let d0 = items[idx];
    let tok = scalar_tok(d0);
    let b = seq!['-', ' '] + tok;
    lemma_tok_facts(d0);
    assert(b[0] == '-' && b[1] == ' ');
    assert(b.skip(2) =~= tok);
    lemma_tok_not_comment(tok);
    assert(!only_comment_after(b.skip(2), 0));
    assert(key_split(b.skip(2)) == None::<(Seq<char>, int)>);
    assert(seq![d0] + items.skip(idx + 1) =~= items.skip(idx));
}

/// One nested sequence item at line `i` parses and the rest follows.
#[verifier::rlimit(100)]
pub proof fn lemma_ylist_nested_step(
    items: Seq<Doc>,
    idx: int,
    col: int,
    ls: Seq<(int, Seq<char>)>,
    i: int,
    ce: int,
    end2: int,
)
    requires
        0 <= idx < items.len(),
        0 <= col,
        0 <= i,
        i + 1 < ls.len(),
        !is_scalarish(items[idx]),
        ls[i] == (col, seq!['-']),
        ls[i + 1].0 > col,
        yparse_block(ls, i + 1, ls[i + 1].0) == Some((items[idx], ce)),
        i + 1 <= ce <= ls.len(),
        yparse_seq(ls, ce, col) == Some((items.skip(idx + 1), end2)),
    ensures
        yparse_seq(ls, i, col) == Some((items.skip(idx), end2)),
{
    let d0 = items[idx];
    let b = ls[i].1;
    assert(b.len() == 1 && b[0] == '-');
    assert(is_dash_line(b));
    assert(seq![d0] + items.skip(idx + 1) =~= items.skip(idx));
}

/// The encoded items of a sequence, from `idx` on, parse back to exactly
/// those items.
#[verifier::rlimit(100)]
pub proof fn lemma_ylist_parse(
    items: Seq<Doc>,
    idx: int,
    col: int,
    ls: Seq<(int, Seq<char>)>,
    i: int,
)
    requires
        0 <= idx <= items.len(),
        0 <= col,
        0 <= i,
        forall|t: int| 0 <= t < items.len() ==> crate::value::wf(#[trigger] items[t]),
        i + ylist_lines(items, idx, col).len() <= ls.len(),
        ls.subrange(i, i + ylist_lines(items, idx, col).len()) == ylist_lines(items, idx, col),
        i + ylist_lines(items, idx, col).len() == ls.len() || ls[i + ylist_lines(
            items,
            idx,
            col,
        ).len()].0 < col,
    ensures
        yparse_seq(ls, i, col) == Some((items.skip(idx), i + ylist_lines(items, idx, col).len())),
    decreases items, items.len() - idx,
{
    let lines = ylist_lines(items, idx, col);
    let end = i + lines.len();
    if idx == items.len() {
        assert(items.skip(idx) =~= Seq::<Doc>::empty());
    } else {
        let d0 = items[idx];
        let restl = ylist_lines(items, idx + 1, col);
        if is_scalarish(d0) {
            let line0 = (col, seq!['-', ' '] + scalar_tok(d0));
            assert(lines =~= seq![line0] + restl);
            crate::text::lemma_sub_split(ls, i, seq![line0], restl);
            crate::text::lemma_seg_index(ls, i, seq![line0]);
            assert(ls[i + 0] == line0);
            lemma_ylist_parse(items, idx + 1, col, ls, i + 1);
            lemma_ylist_scalar_step(items, idx, col, ls, i, end);
        } else {
            let child = yblock_lines(d0, col + 2);
            lemma_yblock_shape(d0, col + 2);
            let line0 = (col, seq!['-']);
            assert(lines =~= seq![line0] + (child + restl));
            crate::text::lemma_sub_split(ls, i, seq![line0], child + restl);
            crate::text::lemma_sub_split(ls, i + 1, child, restl);
            crate::text::lemma_seg_index(ls, i, seq![line0]);
            assert(ls[i + 0] == line0);
            assert(ls[i].1.len() == 1);
            crate::text::lemma_seg_index(ls, i + 1, child);
            assert(ls[i + 1 + 0] == child[0]);
            assert(ls[i + 1].0 == col + 2);
            let ce = i + 1 + child.len();
            if idx + 1 < items.len() {
                lemma_ylist_head(items, idx + 1, col);
                crate::text::lemma_seg_index(ls, ce, restl);
                assert(ls[ce + 0] == restl[0]);
                assert(ls[ce].0 == col);
            }
            lemma_yblock_parse(d0, col + 2, ls, i + 1);
            lemma_ylist_parse(items, idx + 1, col, ls, ce);
            lemma_ylist_nested_step(items, idx, col, ls, i, ce, end);
        }
    }
}

/// One scalar mapping entry at line `i` parses and the rest follows.
#[verifier::rlimit(100)]
pub proof fn lemma_ydict_scalar_step(
    entries: Seq<(Seq<char>, Doc)>,
    idx: int,
    col: int,
    ls: Seq<(int, Seq<char>)>,
    i: int,
    end2: int,
)
    requires
        0 <= idx < entries.len(),
        0 <= col,
        0 <= i < ls.len(),
        crate::value::wf(entries[idx].1),
        is_scalarish(entries[idx].1),
        ls[i] == (col, key_tok(entries[idx].0) + seq![':', ' '] + scalar_tok(entries[idx].1)),
        yparse_map(ls, i + 1, col) == Some((entries.skip(idx + 1), end2)),
    ensures
        yparse_map(ls, i, col) == Some((entries.skip(idx), end2)),
{
    let k = entries[idx].0;
    let d0 = entries[idx].1;
    let kt = key_tok(k);
    let tok = scalar_tok(d0);
    let body = kt + seq![':', ' '] + tok;
    lemma_tok_facts(d0);
    let rest0 = seq![' '] + tok;
    assert(body =~= kt + seq![':'] + rest0);
    lemma_key_line_facts(k, rest0);
    assert(key_split(body) == Some((k, kt.len() as int)));
    assert(body.skip(kt.len() as int + 2) =~= tok);
    assert(body.len() > kt.len() + 1);
    lemma_tok_not_comment(tok);
    assert(!only_comment_after(body.skip(kt.len() as int + 2), 0));
    assert((k, d0) == entries[idx]);
    assert(seq![entries[idx]] + entries.skip(idx + 1) =~= entries.skip(idx));
}

/// One nested mapping entry at line `i` parses and the rest follows.
#[verifier::rlimit(100)]
pub proof fn lemma_ydict_nested_step(
    entries: Seq<(Seq<char>, Doc)>,
    idx: int,
    col: int,
    ls: Seq<(int, Seq<char>)>,
    i: int,
    ce: int,
    end2: int,
)
    requires
        0 <= idx < entries.len(),
        0 <= col,
        0 <= i,
        i + 1 < ls.len(),
        !is_scalarish(entries[idx].1),
        ls[i] == (col, key_tok(entries[idx].0) + seq![':']),
        ls[i + 1].0 > col,
        yparse_block(ls, i + 1, ls[i + 1].0) == Some((entries[idx].1, ce)),
        at_least(i + 1, ce) == ce,
        (if ce > ls.len() {
            ls.len() as int
        } else {
            ce
        }) == ce,
        yparse_map(ls, ce, col) == Some((entries.skip(idx + 1), end2)),
    ensures
        yparse_map(ls, i, col) == Some((entries.skip(idx), end2)),
{
    let k = entries[idx].0;
    let d0 = entries[idx].1;
    let kt = key_tok(k);
    let body = kt + seq![':'];
    assert(body =~= kt + seq![':'] + Seq::<char>::empty());
    lemma_key_line_facts(k, Seq::empty());
    assert(key_split(body) == Some((k, kt.len() as int)));
    assert((k, d0) == entries[idx]);
    assert(seq![entries[idx]] + entries.skip(idx + 1) =~= entries.skip(idx));
}

/// The encoded entries of a mapping, from `idx` on, parse back to
/// exactly those entries.
#[verifier::rlimit(100)]
pub proof fn lemma_ydict_parse(
    entries: Seq<(Seq<char>, Doc)>,
    idx: int,
    col: int,
    ls: Seq<(int, Seq<char>)>,
    i: int,
)
    requires
        0 <= idx <= entries.len(),
        0 <= col,
        0 <= i,
        forall|t: int| 0 <= t < entries.len() ==> crate::value::wf(#[trigger] entries[t].1),
        i + ydict_lines(entries, idx, col).len() <= ls.len(),
        ls.subrange(i, i + ydict_lines(entries, idx, col).len()) == ydict_lines(entries, idx, col),
        i + ydict_lines(entries, idx, col).len() == ls.len() || ls[i + ydict_lines(
            entries,
            idx,
            col,
        ).len()].0 < col,
    ensures
        yparse_map(ls, i, col) == Some(
            (entries.skip(idx), i + ydict_lines(entries, idx, col).len()),
        ),
    decreases entries, entries.len() - idx,
{
    let lines = ydict_lines(entries, idx, col);
    let end = i + lines.len();
    if idx == entries.len() {
        assert(entries.skip(idx) =~= Seq::<(Seq<char>, Doc)>::empty());
    } else {
        let k = entries[idx].0;
        let d0 = entries[idx].1;
        let kt = key_tok(k);
        let restl = ydict_lines(entries, idx + 1, col);
        if is_scalarish(d0) {
            let body = kt + seq![':', ' '] + scalar_tok(d0);
            let line0 = (col, body);
            assert(lines =~= seq![line0] + restl);
            crate::text::lemma_sub_split(ls, i, seq![line0], restl);
            crate::text::lemma_seg_index(ls, i, seq![line0]);
            assert(ls[i + 0] == line0);
            lemma_ydict_parse(entries, idx + 1, col, ls, i + 1);
            lemma_ydict_scalar_step(entries, idx, col, ls, i, end);
        } else {
            let body = kt + seq![':'];
            let child = yblock_lines(d0, col + 2);
            lemma_yblock_shape(d0, col + 2);
            let line0 = (col, body);
            assert(lines =~= seq![line0] + (child + restl));
            crate::text::lemma_sub_split(ls, i, seq![line0], child + restl);
            crate::text::lemma_sub_split(ls, i + 1, child, restl);
            crate::text::lemma_seg_index(ls, i, seq![line0]);
            assert(ls[i + 0] == line0);
            crate::text::lemma_seg_index(ls, i + 1, child);
            assert(ls[i + 1 + 0] == child[0]);
            assert(ls[i + 1].0 == col + 2);
            let ce = i + 1 + child.len();
            if idx + 1 < entries.len() {
                lemma_ydict_head(entries, idx + 1, col);
                crate::text::lemma_seg_index(ls, ce, restl);
                assert(ls[ce + 0] == restl[0]);
                assert(ls[ce].0 == col);
            }
            lemma_yblock_parse(d0, col + 2, ls, i + 1);
            lemma_ydict_parse(entries, idx + 1, col, ls, ce);
            lemma_ydict_nested_step(entries, idx, col, ls, i, ce, end);
        }
    }
}

/// An encoded nonempty container, delimited below by a shallower line,
/// parses back to exactly itself.
#[verifier::rlimit(100)]
pub proof fn lemma_yblock_parse(d: Doc, col: int, ls: Seq<(int, Seq<char>)>, i: int)
    requires
        crate::value::wf(d),
        !is_scalarish(d),
        0 <= col,
        0 <= i,
        i + yblock_lines(d, col).len() <= ls.len(),
        ls.subrange(i, i + yblock_lines(d, col).len()) == yblock_lines(d, col),
        i + yblock_lines(d, col).len() == ls.len() || ls[i + yblock_lines(d, col).len()].0 < col,
    ensures
        yparse_block(ls, i, col) == Some((d, i + yblock_lines(d, col).len())),
    decreases d, 1int,
{
    let lines = yblock_lines(d, col);
    crate::text::lemma_seg_index(ls, i, lines);
    assert(ls[i + 0] == lines[0]);
    match d {
        Doc::List(items) => {
            lemma_ylist_parse(items, 0, col, ls, i);
            if is_scalarish(items[0]) {
                lemma_tok_facts(items[0]);
                assert(lines[0] == (col, seq!['-', ' '] + scalar_tok(items[0])));
                assert((seq!['-', ' '] + scalar_tok(items[0]))[0] == '-');
                assert((seq!['-', ' '] + scalar_tok(items[0]))[1] == ' ');
            } else {
                assert(lines[0] == ((seq![(col, seq!['-'])] + yblock_lines(items[0], col + 2))
                    + ylist_lines(items, 1, col))[0]);
                assert(lines[0] == (col, seq!['-']));
            }
            assert(is_dash_line(ls[i].1));
            assert(items.skip(0) =~= items);
        },
        Doc::Dict(entries) => {
            lemma_ydict_parse(entries, 0, col, ls, i);
            let k = entries[0].0;
            if is_scalarish(entries[0].1) {
                lemma_tok_facts(entries[0].1);
                let tok = scalar_tok(entries[0].1);
                let body = key_tok(k) + seq![':', ' '] + tok;
                assert(lines[0] == (col, body));
                let rest0 = seq![' '] + tok;
                assert(body =~= key_tok(k) + seq![':'] + rest0);
                lemma_key_line_facts(k, rest0);
            } else {
                let body = key_tok(k) + seq![':'];
                assert(lines[0] == ((seq![(col, body)] + yblock_lines(entries[0].1, col + 2))
                    + ydict_lines(entries, 1, col))[0]);
                assert(lines[0] == (col, body));
                assert(body =~= key_tok(k) + seq![':'] + Seq::<char>::empty());
                lemma_key_line_facts(k, Seq::empty());
            }
            assert(!is_dash_line(ls[i].1));
            assert(key_split(ls[i].1) is Some);
            assert(entries.skip(0) =~= entries);
        },
        _ => {},
    }
}

/// Round trip: the canonical text of a well-formed document decodes to
/// exactly that document.
pub proof fn lemma_yaml_round_trip(d: Doc)
    requires
        crate::value::wf(d),
    ensures
        yparse_doc(yaml_text(d)) == Some(d),
{
    let lines = ydoc_lines(d);
    let s = yaml_text(d);
    if is_scalarish(d) {
        lemma_tok_facts(d);
        assert(lines_shaped(lines)) by {
            assert(lines[0] == (0int, scalar_tok(d)));
            assert forall|t: int| 0 <= t < lines.len() implies ((#[trigger] lines[t].0) >= 0
                && body_shaped(lines[t].1)) by {
                assert(lines[t] == lines[0]);
            }
        }
    } else {
        lemma_yblock_shape(d, 0);
    }
    assert(s.subrange(0, s.len() as int) =~= s);
    lemma_scan_join(lines, 0, s, 0);
    assert(lines.skip(0) =~= lines);
    if is_scalarish(d) {
        assert(lines[0] == (0int, scalar_tok(d)));
    } else {
        assert(lines.subrange(0, lines.len() as int) =~= lines);
        lemma_yblock_parse(d, 0, lines, 0);
    }
}

// ------------------------------------------------------------ exec scan

/// The mathematical lines of a scanned line vector.
pub open spec fn lines_model(v: Seq<(usize, Vec<char>)>) -> Seq<(int, Seq<char>)> {
    Seq::new(v.len(), |t: int| (v[t].0 as int, v[t].1@))
}

/// Split the text into its meaningful lines.
#[verifier::rlimit(100)]
pub(crate) fn scan_lines_x(s: &Vec<char>) -> (r: Vec<(usize, Vec<char>)>)
    ensures
        lines_model(r@) == yaml_items(s@, 0),
{
    let mut acc: Vec<(usize, Vec<char>)> = Vec::new();
    let mut i: usize = 0;
    proof {
        assert(lines_model(acc@) =~= Seq::<(int, Seq<char>)>::empty());
        assert(lines_model(acc@) + yaml_items(s@, 0) =~= yaml_items(s@, 0));
    }
    while i < s.len()
        invariant
            0 <= i <= s.len(),
            lines_model(acc@) + yaml_items(s@, i as int) == yaml_items(s@, 0),
        decreases s.len() - i,
    {
        let mut j = i;
        while j < s.len() && s[j] != '\n'
            invariant
                i <= j <= s.len(),
                forall|k: int| i <= k < j ==> #[trigger] s@[k] != '\n',
            decreases s.len() - j,
        {
            j = j + 1;
        }
        proof {
            lemma_line_end_run(s@, i as int, j as int);
        }
        let mut b = i;
        while b < j && s[b] == ' '
            invariant
                i <= b <= j <= s.len(),
                forall|k: int| i <= k < b ==> #[trigger] s@[k] == ' ',
            decreases j - b,
        {
            b = b + 1;
        }
        proof {
            lemma_indent_end_run(s@, i as int, b as int, j as int);
        }
        let mut r2 = j;
        while r2 > b && s[r2 - 1] == ' '
            invariant
                b <= r2 <= j <= s.len(),
                forall|k: int| r2 <= k < j ==> #[trigger] s@[k] == ' ',
            decreases r2,
        {
            r2 = r2 - 1;
        }
        proof {
            lemma_rtrim_end_run(s@, b as int, r2 as int, j as int);
        }
        if b < j && s[b] != '#' {
            let mut body: Vec<char> = Vec::new();
            let mut k2 = b;
            proof {
                assert(body@ =~= s@.subrange(b as int, b as int));
            }
            while k2 < r2
                invariant
                    b <= k2 <= r2 <= s.len(),
                    body@ == s@.subrange(b as int, k2 as int),
                decreases r2 - k2,
            {
                body.push(s[k2]);
                proof {
                    assert(s@.subrange(b as int, k2 + 1) =~= s@.subrange(b as int,
                    k2 as int).push(s@[k2 as int]));
                }
                k2 = k2 + 1;
            }
            let ghost acc0 = acc@;
            acc.push((b - i, body));
            proof {
                let item = (((b - i) as usize as int), s@.subrange(b as int, r2 as int));
                assert(yaml_items(s@, i as int) == seq![item] + yaml_items(s@, j + 1));
                assert(lines_model(acc@) =~= lines_model(acc0) + seq![item]);
                assert((lines_model(acc0) + seq![item]) + yaml_items(s@, j + 1) =~= lines_model(
                    acc0,
                ) + (seq![item] + yaml_items(s@, j + 1)));
            }
        } else {
            proof {
                assert(yaml_items(s@, i as int) == yaml_items(s@, j + 1));
            }
        }
        if j < s.len() {
            i = j + 1;
        } else {
            proof {
                assert(yaml_items(s@, j + 1) =~= yaml_items(s@, s@.len() as int));
            }
            i = j;
        }
    }
    proof {
        assert(yaml_items(s@, i as int) =~= Seq::<(int, Seq<char>)>::empty());
        assert(lines_model(acc@) + yaml_items(s@, i as int) =~= lines_model(acc@));
    }
    acc
}

// -------------------------------------------------------- exec scalars

/// Whole-token equality against a literal.
pub(crate) fn lit_eq(t: &Vec<char>, l: &str) -> (r: bool)
    ensures
        r == (t@ == l@),
{
    let lc = crate::text::to_chars(l);
    if t.len() != lc.len() {
        return false;
    }
    let mut k: usize = 0;
    while k < t.len()
        invariant
            0 <= k <= t.len(),
            t@.len() == lc@.len(),
            lc@ == l@,
            forall|q: int| 0 <= q < k ==> #[trigger] t@[q] == l@[q],
        decreases t.len() - k,
    {
        if t[k] != lc[k] {
            return false;
        }
        k = k + 1;
    }
    proof {
        assert(t@ =~= l@);
    }
    true
}

/// The characters of `t` from `i` on up to the first non-space.
pub(crate) fn fskip_x(t: &Vec<char>, i: usize) -> (r: usize)
    requires
        i <= t.len(),
    ensures
        r as int == fskip(t@, i as int),
        i <= r <= t.len(),
{
    let mut j = i;
    while j < t.len() && t[j] == ' '
        invariant
            i <= j <= t.len(),
            fskip(t@, i as int) == fskip(t@, j as int),
        decreases t.len() - j,
    {
        j = j + 1;
    }
    j
}

pub(crate) fn comment_after_x(t: &Vec<char>, j: usize) -> (r: bool)
    requires
        j <= t.len(),
    ensures
        r == only_comment_after(t@, j as int),
{
    let k = fskip_x(t, j);
    proof {
        assert(at_least(j as int, fskip(t@, j as int)) == k as int);
    }
    k >= t.len() || t[k] == '#'
}

/// Whether the token reads as a floating-point literal.
#[verifier::loop_isolation(false)]
pub(crate) fn is_float_x(u: &Vec<char>) -> (r: bool)
    ensures
        r == is_float_literal(u@),
{
    let sign = u.len() >= 1 && (u[0] == '-' || u[0] == '+');
    let a: usize = if sign {
        1
    } else {
        0
    };
    let ghost w = if sign {
        u@.skip(1)
    } else {
        u@
    };
    proof {
        assert(is_float_literal(u@) == float_body(w));
    }
    if u.len() <= a {
        return false;
    }
    proof {
        assert forall|q: int| 0 <= q < w.len() implies #[trigger] w[q] == u@[a + q] by {}
        assert(w[0] == u@[a as int]);
    }
    if !(u[a] >= '0' && u[a] <= '9') {
        return false;
    }
    let mut k = a;
    let mut seen = false;
    while k < u.len()
        invariant
            a <= k <= u.len(),
            forall|q: int| a <= q < k ==> floatish_char(#[trigger] u@[q]),
            seen == exists|q: int| a <= q < k && dotlike(#[trigger] u@[q]),
        decreases u.len() - k,
    {
        let c = u[k];
        if c == '.' || c == 'e' || c == 'E' {
            seen = true;
            proof {
                assert(dotlike(u@[k as int]));
            }
        } else if (c >= '0' && c <= '9') || c == '+' || c == '-' {
            proof {
                assert(seen == exists|q: int| a <= q < k + 1 && dotlike(#[trigger] u@[q])) by {
                    if !seen {
                        assert(forall|q: int| a <= q < k + 1 ==> !dotlike(#[trigger] u@[q]));
                    }
                }
            }
        } else {
            proof {
                assert(w[k - a] == u@[k as int]);
                assert(!floatish_char(w[k - a]));
            }
            return false;
        }
        k = k + 1;
    }
    proof {
        assert forall|q: int| 0 <= q < w.len() implies floatish_char(#[trigger] w[q]) by {
            assert(w[q] == u@[a + q]);
        }
        if seen {
            let q0 = choose|q: int| a <= q < u@.len() && dotlike(#[trigger] u@[q]);
            assert(w[q0 - a] == u@[a + (q0 - a)]);
            assert(dotlike(w[q0 - a]));
        } else {
            assert forall|q: int| 0 <= q < w.len() implies !dotlike(#[trigger] w[q]) by {
                assert(w[q] == u@[a + q]);
            }
        }
    }
    seen
}

/// Read one unquoted scalar token as a value.
#[verifier::rlimit(100)]
#[verifier::loop_isolation(false)]
pub(crate) fn atom_classify_x(t: &Vec<char>) -> (r: Result<Value, ParseError>)
    ensures
        match r {
            Ok(v) => atom_classify(t@) == Some(v@),
            Err(_) => atom_classify(t@) is None,
        },
{
    proof {
        reveal_strlit("null");
        reveal_strlit("~");
        reveal_strlit("true");
        reveal_strlit("false");
        assert("null"@ =~= seq!['n', 'u', 'l', 'l']);
        assert("~"@ =~= seq!['~']);
        assert("true"@ =~= seq!['t', 'r', 'u', 'e']);
        assert("false"@ =~= seq!['f', 'a', 'l', 's', 'e']);
    }
    if lit_eq(t, "null") || lit_eq(t, "~") {
        return Ok(Value::Null);
    }
    if lit_eq(t, "true") {
        return Ok(Value::Bool(true));
    }
    if lit_eq(t, "false") {
        return Ok(Value::Bool(false));
    }
    if t.len() == 0 {
        return Err(ParseError { kind: ParseErrorKind::BadScalar, pos: 0 });
    }
    let neg = t[0] == '-';
    let a: usize = if neg {
        1
    } else {
        0
    };
    let b2 = digits_end_x(t, a);
    proof {
        lemma_digits_end(t@, a as int);
        assert(t@.skip(a as int) =~= t@.subrange(a as int, t@.len() as int));
    }
    let is_int = b2 == t.len() && b2 > a && (t[a] != '0' || t.len() - a == 1);
    proof {
        let body = t@.skip(a as int);
        if is_int {
            assert(crate::text::all_digits(body)) by {
                assert(forall|q: int|
                    0 <= q < body.len() ==> body[q] == t@[a + q] && crate::text::is_digit(
                        t@[a + q],
                    ));
            }
            assert(crate::text::digits_ok(body));
            assert(is_int_literal(t@));
        } else {
            if b2 < t.len() {
                if (b2 as int) < t@.len() && b2 >= a {
                    assert(!crate::text::is_digit(t@[b2 as int]));
                    if crate::text::all_digits(body) && body.len() >= 1 {
                        assert(body[b2 - a] == t@[b2 as int]);
                        assert(false);
                    }
                }
                assert(!is_int_literal(t@));
            } else if b2 <= a {
                if crate::text::digits_ok(body) {
                    assert(body[0] == t@[a as int]);
                    assert(crate::text::is_digit(t@[a as int]));
                    assert(false);
                }
                assert(!is_int_literal(t@));
            } else {
                assert(t@[a as int] == '0' && t@.len() - a > 1);
                if crate::text::digits_ok(body) {
                    assert(body[0] == t@[a as int]);
                    assert(false);
                }
                assert(!is_int_literal(t@));
            }
        }
    }
    if is_int {
        proof {
            assert(crate::json::digits_end(t@, a as int) == t@.len());
        }
        match jparse_number_x(t, 0) {
            Ok((v, j)) => {
                proof {
                    let body = t@.subrange(a as int, t@.len() as int);
                    if neg {
                        assert(t@.skip(1) =~= body);
                    } else {
                        assert(body =~= t@);
                    }
                    assert(crate::text::int_of_literal(t@) == if neg {
                        -digits_val(body)
                    } else {
                        digits_val(body)
                    });
                }
                return Ok(v);
            },
            Err(e) => {
                proof {
                    let body = t@.subrange(a as int, t@.len() as int);
                    if neg {
                        assert(t@.skip(1) =~= body);
                    } else {
                        assert(body =~= t@);
                    }
                    assert(crate::text::int_of_literal(t@) == if neg {
                        -digits_val(body)
                    } else {
                        digits_val(body)
                    });
                }
                return Err(e);
            },
        }
    }
    if t[0] == ' ' || t[0] == '\'' || t[0] == '&' || t[0] == '*' {
        return Err(ParseError { kind: ParseErrorKind::BadScalar, pos: 0 });
    }
    if is_float_x(t) {
        return Err(ParseError { kind: ParseErrorKind::BadScalar, pos: 0 });
    }
    let mut k: usize = 0;
    while k < t.len()
        invariant
            0 <= k <= t.len(),
            t@.len() >= 1,
            forall|q: int| 0 <= q < k ==> #[trigger] t@[q] != '\n' && t@[q] != '#',
            forall|q: int| 0 <= q < k ==> !(#[trigger] colon_split_at(t@, q)),
        decreases t.len() - k,
    {
        let c = t[k];
        if c == '\n' || c == '#' {
            proof {
                assert(!plain_accept(t@));
            }
            return Err(ParseError { kind: ParseErrorKind::BadScalar, pos: k });
        }
        if c == ':' {
            if k + 1 == t.len() || t[k + 1] == ' ' {
                proof {
                    assert(colon_split_at(t@, k as int));
                    assert(!plain_accept(t@));
                }
                return Err(ParseError { kind: ParseErrorKind::BadScalar, pos: k });
            }
        }
        k = k + 1;
    }
    proof {
        assert forall|q: int| !(#[trigger] colon_split_at(t@, q)) by {
            if 0 <= q < t@.len() {
                assert(!colon_split_at(t@, q));
            }
        }
        assert(plain_accept(t@));
    }
    Ok(Value::Str(crate::text::chars_to_string(t)))
}

/// Read one scalar-position token as a value.
#[verifier::rlimit(100)]
#[verifier::loop_isolation(false)]
pub(crate) fn classify_x(t: &Vec<char>) -> (r: Result<Value, ParseError>)
    ensures
        match r {
            Ok(v) => classify(t@) == Some(v@),
            Err(_) => classify(t@) is None,
        },
{
    if t.len() == 0 {
        return Err(ParseError { kind: ParseErrorKind::BadScalar, pos: 0 });
    }
    if t[0] == '"' {
        return match parse_quoted_x(t, 1) {
            Ok((c, j)) => {
                if comment_after_x(t, j) {
                    Ok(Value::Str(crate::text::chars_to_string(&c)))
                } else {
                    Err(ParseError { kind: ParseErrorKind::BadScalar, pos: j })
                }
            },
            Err(e) => Err(e),
        };
    }
    if t[0] == '[' || t[0] == '{' {
        return match fparse_value_x(t, 0) {
            Ok((v, j)) => {
                if comment_after_x(t, j) {
                    Ok(v)
                } else {
                    Err(ParseError { kind: ParseErrorKind::BadScalar, pos: j })
                }
            },
            Err(e) => Err(e),
        };
    }
    let mut q: usize = 0;
    while q < t.len() && !(q >= 1 && t[q] == '#' && t[q - 1] == ' ')
        invariant
            0 <= q <= t.len(),
            find_hash_sp(t@, 0) == find_hash_sp(t@, q as int),
        decreases t.len() - q,
    {
        q = q + 1;
    }
    proof {
        assert(find_hash_sp(t@, 0) == q as int);
    }
    let mut r2 = q;
    while r2 > 0 && t[r2 - 1] == ' '
        invariant
            0 <= r2 <= q <= t.len(),
            forall|k: int| r2 <= k < q ==> #[trigger] t@[k] == ' ',
        decreases r2,
    {
        r2 = r2 - 1;
    }
    proof {
        lemma_rtrim_end_run(t@, 0, r2 as int, q as int);
        assert(strip_tail(t@) == t@.subrange(0, r2 as int));
    }
    let u = subvec(t, 0, r2);
    atom_classify_x(&u)
}

/// Parse one flow (inline) value starting at `i`.
#[verifier::rlimit(100)]
#[verifier::loop_isolation(false)]
pub(crate) fn fparse_value_x(t: &Vec<char>, i: usize) -> (r: Result<(Value, usize), ParseError>)
    requires
        i <= t.len(),
    ensures
        match r {
            Ok(p) => fparse_value(t@, i as int) == Some((p.0@, p.1 as int)) && i < p.1 <= t.len(),
            Err(_) => fparse_value(t@, i as int) is None,
        },
    decreases t.len() - i, 2int,
{
    let j = fskip_x(t, i);
    proof {
        assert(at_least(i as int, fskip(t@, i as int)) == j as int);
    }
    if j >= t.len() {
        return Err(ParseError { kind: ParseErrorKind::UnexpectedEnd, pos: j });
    }
    let c = t[j];
    if c == '[' {
        let j2 = fskip_x(t, j + 1);
        proof {
            assert(at_least(j as int + 1, fskip(t@, j as int + 1)) == j2 as int);
        }
        if j2 < t.len() && t[j2] == ']' {
            let vs: Vec<Value> = Vec::new();
            proof {
                assert(list_model(vs@, 0) =~= Seq::<Doc>::empty());
            }
            Ok((Value::List(vs), j2 + 1))
        } else {
            match fparse_items_x(t, j + 1) {
                Ok((vs, e2)) => Ok((Value::List(vs), e2)),
                Err(e) => Err(e),
            }
        }
    } else if c == '{' {
        let j2 = fskip_x(t, j + 1);
        proof {
            assert(at_least(j as int + 1, fskip(t@, j as int + 1)) == j2 as int);
        }
        if j2 < t.len() && t[j2] == '}' {
            let es: Vec<(String, Value)> = Vec::new();
            proof {
                assert(dict_model(es@, 0) =~= Seq::<(Seq<char>, Doc)>::empty());
            }
            Ok((Value::Dict(es), j2 + 1))
        } else {
            match fparse_entries_x(t, j + 1) {
                Ok((es, e2)) => {
                    if crate::json::unique_keys_x(&es) {
                        Ok((Value::Dict(es), e2))
                    } else {
                        Err(ParseError { kind: ParseErrorKind::DuplicateKey, pos: j })
                    }
                },
                Err(e) => Err(e),
            }
        }
    } else if c == '"' {
        match parse_quoted_x(t, j + 1) {
            Ok((cv, k)) => Ok((Value::Str(crate::text::chars_to_string(&cv)), k)),
            Err(e) => Err(e),
        }
    } else {
        let mut e2 = j;
        while e2 < t.len() && !(t[e2] == ',' || t[e2] == ']' || t[e2] == '}')
            invariant
                j <= e2 <= t.len(),
                atom_end(t@, j as int) == atom_end(t@, e2 as int),
            decreases t.len() - e2,
        {
            e2 = e2 + 1;
        }
        proof {
            assert(atom_end(t@, j as int) == e2 as int);
        }
        let mut r2 = e2;
        while r2 > j && t[r2 - 1] == ' '
            invariant
                j <= r2 <= e2,
                forall|k: int| r2 <= k < e2 ==> #[trigger] t@[k] == ' ',
            decreases r2,
        {
            r2 = r2 - 1;
        }
        proof {
            lemma_rtrim_end_run(t@, j as int, r2 as int, e2 as int);
        }
        if r2 <= j {
            return Err(ParseError { kind: ParseErrorKind::BadScalar, pos: j });
        }
        let u = subvec(t, j, r2);
        match atom_classify_x(&u) {
            Ok(v) => Ok((v, e2)),
            Err(e) => Err(e),
        }
    }
}

#[verifier::rlimit(100)]
#[verifier::loop_isolation(false)]
pub(crate) fn fparse_items_x(t: &Vec<char>, i: usize) -> (r: Result<
    (Vec<Value>, usize),
    ParseError,
>)
    requires
        i <= t.len(),
    ensures
        match r {
            Ok(p) => fparse_items(t@, i as int) == Some((list_model(p.0@, 0), p.1 as int)) && i
                < p.1 <= t.len(),
            Err(_) => fparse_items(t@, i as int) is None,
        },
    decreases t.len() - i, 3int,
{
    match fparse_value_x(t, i) {
        Err(e) => Err(e),
        Ok((v, k0)) => {
            proof {
                assert(at_least(i as int + 1, k0 as int) == k0 as int);
            }
            let k2 = k0;
            let m = fskip_x(t, k2);
            proof {
                assert(at_least(k2 as int, fskip(t@, k2 as int)) == m as int);
            }
            if m >= t.len() {
                Err(ParseError { kind: ParseErrorKind::UnexpectedEnd, pos: m })
            } else if t[m] == ',' {
                match fparse_items_x(t, m + 1) {
                    Err(e) => Err(e),
                    Ok((vs, e2)) => {
                        let ghost vs0 = vs@;
                        let mut vs2 = vs;
                        vs2.insert(0, v);
                        proof {
                            assert(vs2@ =~= seq![v] + vs0);
                            lemma_list_model_cons(v, vs0);
                        }
                        Ok((vs2, e2))
                    },
                }
            } else if t[m] == ']' {
                let mut vs2: Vec<Value> = Vec::new();
                vs2.push(v);
                proof {
                    assert(vs2@ =~= seq![v] + Seq::<Value>::empty());
                    lemma_list_model_cons(v, Seq::<Value>::empty());
                    assert(seq![value_model(v)] + list_model(Seq::<Value>::empty(), 0) =~= seq![
                        value_model(v),
                    ]);
                }
                Ok((vs2, m + 1))
            } else {
                Err(ParseError { kind: ParseErrorKind::BadValue, pos: m })
            }
        },
    }
}

#[verifier::rlimit(100)]
#[verifier::loop_isolation(false)]
pub(crate) fn fparse_entries_x(t: &Vec<char>, i: usize) -> (r: Result<
    (Vec<(String, Value)>, usize),
    ParseError,
>)
    requires
        i <= t.len(),
    ensures
        match r {
            Ok(p) => fparse_entries(t@, i as int) == Some((dict_model(p.0@, 0), p.1 as int))
                && i < p.1 <= t.len(),
            Err(_) => fparse_entries(t@, i as int) is None,
        },
    decreases t.len() - i, 3int,
{
    let j = fskip_x(t, i);
    proof {
        assert(at_least(i as int, fskip(t@, i as int)) == j as int);
    }
    if j >= t.len() {
        return Err(ParseError { kind: ParseErrorKind::UnexpectedEnd, pos: j });
    }
    let kv: Result<(Vec<char>, usize), ParseError> = if t[j] == '"' {
        match parse_quoted_x(t, j + 1) {
            Ok((key, q0)) => {
                proof {
                    assert(at_least(j as int + 2, q0 as int) == q0 as int);
                }
                Ok((key, q0))
            },
            Err(e) => Err(e),
        }
    } else {
        let mut ke = j;
        while ke < t.len() && !(t[ke] == ':' || t[ke] == ',' || t[ke] == ']' || t[ke] == '}')
            invariant
                j <= ke <= t.len(),
                colon_end(t@, j as int) == colon_end(t@, ke as int),
            decreases t.len() - ke,
        {
            ke = ke + 1;
        }
        proof {
            assert(colon_end(t@, j as int) == ke as int);
        }
        if ke < t.len() && t[ke] == ':' {
            let mut r2 = ke;
            while r2 > j && t[r2 - 1] == ' '
                invariant
                    j <= r2 <= ke,
                    forall|k: int| r2 <= k < ke ==> #[trigger] t@[k] == ' ',
                decreases r2,
            {
                r2 = r2 - 1;
            }
            proof {
                lemma_rtrim_end_run(t@, j as int, r2 as int, ke as int);
            }
            if r2 > j {
                Ok((subvec(t, j, r2), ke))
            } else {
                Err(ParseError { kind: ParseErrorKind::BadKey, pos: j })
            }
        } else {
            Err(ParseError { kind: ParseErrorKind::BadKey, pos: j })
        }
    };
    match kv {
        Err(e) => Err(e),
        Ok((key_chars, q1)) => {
            let q2 = if q1 > t.len() {
                t.len()
            } else {
                q1
            };
            let q = fskip_x(t, q2);
            proof {
                assert(at_least(q2 as int, fskip(t@, q2 as int)) == q as int);
            }
            if q >= t.len() || t[q] != ':' {
                return Err(ParseError { kind: ParseErrorKind::BadKey, pos: q });
            }
            match fparse_value_x(t, q + 1) {
                Err(e) => Err(e),
                Ok((v, k0)) => {
                    proof {
                        assert(at_least(q as int + 2, k0 as int) == k0 as int);
                    }
                    let k2 = k0;
                    let m = fskip_x(t, k2);
                    proof {
                        assert(at_least(k2 as int, fskip(t@, k2 as int)) == m as int);
                    }
                    if m >= t.len() {
                        Err(ParseError { kind: ParseErrorKind::UnexpectedEnd, pos: m })
                    } else if t[m] == ',' {
                        match fparse_entries_x(t, m + 1) {
                            Err(e) => Err(e),
                            Ok((es, e2)) => {
                                let key = crate::text::chars_to_string(&key_chars);
                                let ghost es0 = es@;
                                let ghost keyg = key;
                                let mut es2 = es;
                                es2.insert(0, (key, v));
                                proof {
                                    assert(es2@ =~= seq![(keyg, v)] + es0);
                                    lemma_dict_model_cons(keyg, v, es0);
                                }
                                Ok((es2, e2))
                            },
                        }
                    } else if t[m] == '}' {
                        let key = crate::text::chars_to_string(&key_chars);
                        let ghost keyg = key;
                        let mut es2: Vec<(String, Value)> = Vec::new();
                        es2.push((key, v));
                        proof {
                            assert(es2@ =~= seq![(keyg, v)] + Seq::<(String, Value)>::empty());
                            lemma_dict_model_cons(keyg, v, Seq::<(String, Value)>::empty());
                            assert(seq![(keyg@, value_model(v))] + dict_model(
                                Seq::<(String, Value)>::empty(),
                                0,
                            ) =~= seq![(keyg@, value_model(v))]);
                        }
                        Ok((es2, m + 1))
                    } else {
                        Err(ParseError { kind: ParseErrorKind::BadValue, pos: m })
                    }
                },
            }
        },
    }
}

/// Copy of `b[from..to]`.
pub(crate) fn subvec(b: &Vec<char>, from: usize, to: usize) -> (r: Vec<char>)
    requires
        from <= to <= b.len(),
    ensures
        r@ == b@.subrange(from as int, to as int),
{
    let mut r: Vec<char> = Vec::new();
    let mut k = from;
    proof {
        assert(r@ =~= b@.subrange(from as int, from as int));
    }
    while k < to
        invariant
            from <= k <= to <= b.len(),
            r@ == b@.subrange(from as int, k as int),
        decreases to - k,
    {
        r.push(b[k]);
        proof {
            assert(b@.subrange(from as int, k + 1) =~= b@.subrange(from as int, k as int).push(
                b@[k as int],
            ));
        }
        k = k + 1;
    }
    r
}

pub(crate) fn is_dash_x(b: &Vec<char>) -> (r: bool)
    ensures
        r == is_dash_line(b@),
{
    (b.len() == 1 && b[0] == '-') || (b.len() >= 2 && b[0] == '-' && b[1] == ' ')
}

/// Split a line into key and separator position, as the grammar does.
pub(crate) fn key_split_x(b: &Vec<char>) -> (r: Option<(Vec<char>, usize)>)
    ensures
        match r {
            Some(p) => key_split(b@) == Some((p.0@, p.1 as int)) && p.1 < b.len(),
            None => key_split(b@) is None,
        },
{
    if b.len() == 0 {
        return None;
    }
    if b[0] == '[' || b[0] == '{' {
        return None;
    }
    if b[0] == '"' {
        match parse_quoted_x(b, 1) {
            Err(_) => None,
            Ok((k, q)) => {
                if q < b.len() && b[q] == ':' && (q + 1 == b.len() || b[q + 1] == ' ') {
                    proof {
                        assert(colon_split_at(b@, q as int));
                    }
                    Some((k, q))
                } else {
                    proof {
                        assert(!colon_split_at(b@, q as int));
                    }
                    None
                }
            },
        }
    } else {
        let mut p: usize = 0;
        while p < b.len() && !(b[p] == ':' && (p + 1 == b.len() || b[p + 1] == ' '))
            invariant
                0 <= p <= b.len(),
                find_colon(b@, 0) == find_colon(b@, p as int),
            decreases b.len() - p,
        {
            proof {
                assert(!colon_split_at(b@, p as int));
            }
            p = p + 1;
        }
        proof {
            if p < b.len() {
                assert(colon_split_at(b@, p as int));
            }
            assert(find_colon(b@, 0) == p as int);
        }
        if 1 <= p && p < b.len() {
            Some((subvec(b, 0, p), p))
        } else {
            None
        }
    }
}

// ------------------------------------------------------- exec parsing

#[verifier::rlimit(100)]
#[verifier::loop_isolation(false)]
pub(crate) fn yparse_block_x(ls: &Vec<(usize, Vec<char>)>, i: usize, ind: usize) -> (r: Result<
    (Value, usize),
    ParseError,
>)
    requires
        i <= ls.len(),
    ensures
        match r {
            Ok(p) => yparse_block(lines_model(ls@), i as int, ind as int) == Some(
                (p.0@, p.1 as int),
            ) && i <= p.1 <= ls.len(),
            Err(_) => yparse_block(lines_model(ls@), i as int, ind as int) is None,
        },
    decreases ls.len() - i, 1int,
{
    let ghost lm = lines_model(ls@);
    if i >= ls.len() {
        return Err(ParseError { kind: ParseErrorKind::UnexpectedEnd, pos: i });
    }
    proof {
        assert(lm[i as int] == (ls@[i as int].0 as int, ls@[i as int].1@));
    }
    if is_dash_x(&ls[i].1) {
        match yparse_seq_x(ls, i, ind) {
            Ok((vs, j)) => Ok((Value::List(vs), j)),
            Err(e) => Err(e),
        }
    } else {
        match key_split_x(&ls[i].1) {
            Some(_) => {
                match yparse_map_x(ls, i, ind) {
                    Ok((es, j)) => {
                        if crate::json::unique_keys_x(&es) {
                            Ok((Value::Dict(es), j))
                        } else {
                            Err(ParseError { kind: ParseErrorKind::DuplicateKey, pos: i })
                        }
                    },
                    Err(e) => Err(e),
                }
            },
            None => {
                match classify_x(&ls[i].1) {
                    Ok(v) => Ok((v, i + 1)),
                    Err(e) => Err(e),
                }
            },
        }
    }
}

#[verifier::rlimit(100)]
#[verifier::loop_isolation(false)]
pub(crate) fn yparse_seq_x(ls: &Vec<(usize, Vec<char>)>, i: usize, ind: usize) -> (r: Result<
    (Vec<Value>, usize),
    ParseError,
>)
    requires
        i <= ls.len(),
    ensures
        match r {
            Ok(p) => yparse_seq(lines_model(ls@), i as int, ind as int) == Some(
                (list_model(p.0@, 0), p.1 as int),
            ) && i <= p.1 <= ls.len(),
            Err(_) => yparse_seq(lines_model(ls@), i as int, ind as int) is None,
        },
    decreases ls.len() - i, 0int,
{
    let ghost lm = lines_model(ls@);
    proof {
        if i < ls.len() {
            assert(lm[i as int] == (ls@[i as int].0 as int, ls@[i as int].1@));
        }
    }
    if i >= ls.len() || ls[i].0 != ind || !is_dash_x(&ls[i].1) {
        let vs: Vec<Value> = Vec::new();
        proof {
            assert(list_model(vs@, 0) =~= Seq::<Doc>::empty());
        }
        return Ok((vs, i));
    }
    let blen = ls[i].1.len();
    let item: Result<(Value, usize), ParseError> = if blen == 1 {
        if i + 1 < ls.len() && ls[i + 1].0 > ind {
            proof {
                assert(lm[i + 1] == (ls@[i + 1].0 as int, ls@[i + 1].1@));
            }
            yparse_block_x(ls, i + 1, ls[i + 1].0)
        } else {
            Ok((Value::Null, i + 1))
        }
    } else {
        let tok = subvec(&ls[i].1, 2, ls[i].1.len());
        proof {
            assert(tok@ =~= ls@[i as int].1@.skip(2));
        }
        if comment_after_x(&tok, 0) {
            if i + 1 < ls.len() && ls[i + 1].0 > ind {
                proof {
                    assert(lm[i + 1] == (ls@[i + 1].0 as int, ls@[i + 1].1@));
                }
                yparse_block_x(ls, i + 1, ls[i + 1].0)
            } else {
                Ok((Value::Null, i + 1))
            }
        } else {
            match key_split_x(&tok) {
                Some((kv, p)) => {
                    let v: Result<Value, ParseError> = if p + 1 == tok.len() {
                        Ok(Value::Null)
                    } else {
                        let vt = subvec(&tok, p + 2, tok.len());
                        proof {
                            assert(vt@ =~= tok@.skip(p + 2));
                        }
                        if comment_after_x(&vt, 0) {
                            Ok(Value::Null)
                        } else {
                            classify_x(&vt)
                        }
                    };
                    match v {
                        Ok(d) => {
                            let key = crate::text::chars_to_string(&kv);
                            let ghost keyg = key;
                            let mut es2: Vec<(String, Value)> = Vec::new();
                            es2.push((key, d));
                            proof {
                                assert(es2@ =~= seq![(keyg, d)] + Seq::<(String, Value)>::empty());
                                lemma_dict_model_cons(keyg, d, Seq::<(String, Value)>::empty());
                                assert(seq![(keyg@, value_model(d))] + dict_model(
                                    Seq::<(String, Value)>::empty(),
                                    0,
                                ) =~= seq![(keyg@, value_model(d))]);
                            }
                            Ok((Value::Dict(es2), i + 1))
                        },
                        Err(e) => Err(e),
                    }
                },
                None => match classify_x(&tok) {
                    Ok(v) => Ok((v, i + 1)),
                    Err(e) => Err(e),
                },
            }
        }
    };
    match item {
        Err(e) => Err(e),
        Ok((v, j0)) => {
            let j1 = if j0 < i + 1 {
                i + 1
            } else {
                j0
            };
            let j = if j1 > ls.len() {
                ls.len()
            } else {
                j1
            };
            match yparse_seq_x(ls, j, ind) {
                Err(e) => Err(e),
                Ok((vs, e2)) => {
                    let ghost vs0 = vs@;
                    let mut vs2 = vs;
                    vs2.insert(0, v);
                    proof {
                        assert(vs2@ =~= seq![v] + vs0);
                        lemma_list_model_cons(v, vs0);
                    }
                    Ok((vs2, e2))
                },
            }
        },
    }
}

#[verifier::rlimit(100)]
#[verifier::loop_isolation(false)]
pub(crate) fn yparse_map_x(ls: &Vec<(usize, Vec<char>)>, i: usize, ind: usize) -> (r: Result<
    (Vec<(String, Value)>, usize),
    ParseError,
>)
    requires
        i <= ls.len(),
    ensures
        match r {
            Ok(p) => yparse_map(lines_model(ls@), i as int, ind as int) == Some(
                (dict_model(p.0@, 0), p.1 as int),
            ) && i <= p.1 <= ls.len(),
            Err(_) => yparse_map(lines_model(ls@), i as int, ind as int) is None,
        },
    decreases ls.len() - i, 0int,
{
    let ghost lm = lines_model(ls@);
    proof {
        if i < ls.len() {
            assert(lm[i as int] == (ls@[i as int].0 as int, ls@[i as int].1@));
        }
    }
    if i >= ls.len() || ls[i].0 != ind {
        let es: Vec<(String, Value)> = Vec::new();
        proof {
            assert(dict_model(es@, 0) =~= Seq::<(Seq<char>, Doc)>::empty());
        }
        return Ok((es, i));
    }
    match key_split_x(&ls[i].1) {
        None => {
            let es: Vec<(String, Value)> = Vec::new();
            proof {
                assert(dict_model(es@, 0) =~= Seq::<(Seq<char>, Doc)>::empty());
            }
            Ok((es, i))
        },
        Some((kv, p)) => {
            let blen = ls[i].1.len();
            let item: Result<(Value, usize), ParseError> = if p + 1 == blen {
                if i + 1 < ls.len() && ls[i + 1].0 > ind {
                    proof {
                        assert(lm[i + 1] == (ls@[i + 1].0 as int, ls@[i + 1].1@));
                    }
                    yparse_block_x(ls, i + 1, ls[i + 1].0)
                } else {
                    Ok((Value::Null, i + 1))
                }
            } else {
                let tok = subvec(&ls[i].1, p + 2, ls[i].1.len());
                proof {
                    assert(tok@ =~= ls@[i as int].1@.skip(p + 2));
                }
                if comment_after_x(&tok, 0) {
                    if i + 1 < ls.len() && ls[i + 1].0 > ind {
                        proof {
                            assert(lm[i + 1] == (ls@[i + 1].0 as int, ls@[i + 1].1@));
                        }
                        yparse_block_x(ls, i + 1, ls[i + 1].0)
                    } else {
                        Ok((Value::Null, i + 1))
                    }
                } else {
                    match classify_x(&tok) {
                        Ok(v) => Ok((v, i + 1)),
                        Err(e) => Err(e),
                    }
                }
            };
            match item {
                Err(e) => Err(e),
                Ok((v, j0)) => {
                    let j1 = if j0 < i + 1 {
                        i + 1
                    } else {
                        j0
                    };
                    let j = if j1 > ls.len() {
                        ls.len()
                    } else {
                        j1
                    };
                    match yparse_map_x(ls, j, ind) {
                        Err(e) => Err(e),
                        Ok((es, e2)) => {
                            let key = crate::text::chars_to_string(&kv);
                            let ghost es0 = es@;
                            let ghost keyg = key;
                            let mut es2 = es;
                            es2.insert(0, (key, v));
                            proof {
                                assert(es2@ =~= seq![(keyg, v)] + es0);
                                lemma_dict_model_cons(keyg, v, es0);
                            }
                            Ok((es2, e2))
                        },
                    }
                },
            }
        },
    }
}

/// Decode an indentation-based document into a value tree.  Succeeds on
/// exactly the texts the document grammar accepts, and then returns the
/// tree the grammar gives.
pub fn parse_yaml(s: &str) -> (r: Result<Value, ParseError>)
    ensures
        match r {
            Ok(v) => yparse_doc(s@) == Some(v@),
            Err(_) => yparse_doc(s@) is None,
        },
{
    let chars = crate::text::to_chars(s);
    let ls = scan_lines_x(&chars);
    proof {
        assert(lines_model(ls@).len() == ls@.len());
    }
    if ls.len() == 0 {
        return Ok(Value::Null);
    }
    proof {
        assert(lines_model(ls@)[0] == (ls@[0].0 as int, ls@[0].1@));
    }
    let ind0 = ls[0].0;
    match yparse_block_x(&ls, 0, ind0) {
        Err(e) => Err(e),
        Ok((v, j)) => {
            if j == ls.len() {
                Ok(v)
            } else {
                Err(ParseError { kind: ParseErrorKind::TrailingContent, pos: j })
            }
        },
    }
}

// ------------------------------------------------------- exec encoding

pub proof fn lemma_join_offset(a: Seq<(int, Seq<char>)>, b: Seq<(int, Seq<char>)>, k: int)
    requires
        0 <= k <= b.len(),
    ensures
        join_lines(a + b, a.len() + k) == join_lines(b, k),
    decreases b.len() - k,
{
    if k < b.len() {
        lemma_join_offset(a, b, k + 1);
        assert((a + b)[a.len() + k] == b[k]);
    }
}

pub proof fn lemma_join_concat(a: Seq<(int, Seq<char>)>, b: Seq<(int, Seq<char>)>, idx: int)
    requires
        0 <= idx <= a.len(),
    ensures
        join_lines(a + b, idx) == join_lines(a, idx) + join_lines(b, 0),
    decreases a.len() - idx,
{
    if idx == a.len() {
        lemma_join_offset(a, b, 0);
        assert(join_lines(a, idx) + join_lines(b, 0) =~= join_lines(b, 0));
    } else {
        lemma_join_concat(a, b, idx + 1);
        assert((a + b)[idx] == a[idx]);
        assert(spaces(a[idx].0) + a[idx].1 + seq!['\n'] + (join_lines(a, idx + 1) + join_lines(
            b,
            0,
        )) =~= (spaces(a[idx].0) + a[idx].1 + seq!['\n'] + join_lines(a, idx + 1)) + join_lines(
            b,
            0,
        ));
    }
}

/// Whether the encoder may write this text unquoted.
#[verifier::rlimit(100)]
#[verifier::loop_isolation(false)]
pub(crate) fn plain_emit_x(s: &Vec<char>) -> (r: bool)
    ensures
        r == plain_emit(s@),
{
    proof {
        reveal_strlit("null");
        reveal_strlit("~");
        reveal_strlit("true");
        reveal_strlit("false");
        assert("null"@ =~= seq!['n', 'u', 'l', 'l']);
        assert("~"@ =~= seq!['~']);
        assert("true"@ =~= seq!['t', 'r', 'u', 'e']);
        assert("false"@ =~= seq!['f', 'a', 'l', 's', 'e']);
    }
    if s.len() == 0 {
        return false;
    }
    let h = s[0];
    if h == ' ' || s[s.len() - 1] == ' ' {
        return false;
    }
    if h == '"' || h == '\'' || h == '[' || h == '{' || h == ']' || h == '}' || h == ',' || h
        == '&' || h == '*' || h == '!' || h == '|' || h == '>' || h == '%' || h == '@' || h
        == '`' {
        return false;
    }
    if is_dash_x(s) {
        return false;
    }
    if lit_eq(s, "null") || lit_eq(s, "~") || lit_eq(s, "true") || lit_eq(s, "false") {
        return false;
    }
    let neg = s[0] == '-';
    let a: usize = if neg {
        1
    } else {
        0
    };
    let b2 = digits_end_x(s, a);
    proof {
        lemma_digits_end(s@, a as int);
        assert(s@.skip(a as int) =~= s@.subrange(a as int, s@.len() as int));
    }
    let is_int = b2 == s.len() && b2 > a && (s[a] != '0' || s.len() - a == 1);
    proof {
        let body = s@.skip(a as int);
        if is_int {
            assert(crate::text::all_digits(body)) by {
                assert(forall|q: int|
                    0 <= q < body.len() ==> body[q] == s@[a + q] && crate::text::is_digit(
                        s@[a + q],
                    ));
            }
            assert(is_int_literal(s@));
        } else {
            if b2 < s.len() {
                if crate::text::all_digits(body) && body.len() >= 1 {
                    assert(body[b2 - a] == s@[b2 as int]);
                    assert(false);
                }
                assert(!is_int_literal(s@));
            } else if b2 <= a {
                if crate::text::digits_ok(body) {
                    assert(body[0] == s@[a as int]);
                    assert(false);
                }
                assert(!is_int_literal(s@));
            } else {
                if crate::text::digits_ok(body) {
                    assert(body[0] == s@[a as int]);
                    assert(false);
                }
                assert(!is_int_literal(s@));
            }
        }
    }
    if is_int {
        return false;
    }
    if is_float_x(s) {
        return false;
    }
    let mut k: usize = 0;
    while k < s.len()
        invariant
            0 <= k <= s.len(),
            forall|q: int|
                0 <= q < k ==> #[trigger] s@[q] != '\n' && s@[q] != '#' && s@[q] != '\\' && s@[q]
                    != '\r' && s@[q] != '\t',
            forall|q: int| 0 <= q < k ==> !(#[trigger] colon_split_at(s@, q)),
        decreases s.len() - k,
    {
        let c = s[k];
        if c == '\n' || c == '#' || c == '\\' || c == '\r' || c == '\t' {
            return false;
        }
        if c == ':' {
            if k + 1 == s.len() || s[k + 1] == ' ' {
                proof {
                    assert(colon_split_at(s@, k as int));
                }
                return false;
            }
        }
        k = k + 1;
    }
    proof {
        assert forall|q: int| !(#[trigger] colon_split_at(s@, q)) by {
            if 0 <= q < s@.len() {
                assert(!colon_split_at(s@, q));
            }
        }
        assert(plain_emit(s@));
    }
    true
}

/// The one-line form of a scalar or empty container.
pub(crate) fn scalar_tok_x(v: &Value) -> (r: Vec<char>)
    requires
        is_scalarish(v@),
    ensures
        r@ == scalar_tok(v@),
{
    match v {
        Value::Null => {
            let mut o: Vec<char> = Vec::new();
            o.push('n');
            o.push('u');
            o.push('l');
            o.push('l');
            proof {
                assert(o@ =~= scalar_tok(v@));
            }
            o
        },
        Value::Bool(bv) => {
            let mut o: Vec<char> = Vec::new();
            if *bv {
                o.push('t');
                o.push('r');
                o.push('u');
                o.push('e');
            } else {
                o.push('f');
                o.push('a');
                o.push('l');
                o.push('s');
                o.push('e');
            }
            proof {
                assert(o@ =~= scalar_tok(v@));
            }
            o
        },
        Value::Int(n) => {
            let mut o: Vec<char> = Vec::new();
            crate::json::enc_int_x(*n, &mut o);
            proof {
                assert(o@ =~= scalar_tok(v@));
            }
            o
        },
        Value::Str(sv) => {
            let cs = crate::text::to_chars(sv.as_str());
            if plain_emit_x(&cs) {
                cs
            } else {
                let mut o: Vec<char> = Vec::new();
                crate::json::enc_quoted_x(sv.as_str(), &mut o);
                proof {
                    assert(o@ =~= scalar_tok(v@));
                }
                o
            }
        },
        Value::List(items) => {
            let mut o: Vec<char> = Vec::new();
            o.push('[');
            o.push(']');
            proof {
                assert(o@ =~= scalar_tok(v@));
            }
            o
        },
        Value::Dict(entries) => {
            let mut o: Vec<char> = Vec::new();
            o.push('{');
            o.push('}');
            proof {
                assert(o@ =~= scalar_tok(v@));
            }
            o
        },
    }
}

/// The one-line form of a mapping key.
pub(crate) fn key_tok_x(k: &String) -> (r: Vec<char>)
    ensures
        r@ == key_tok(k@),
{
    let cs = crate::text::to_chars(k.as_str());
    if plain_emit_x(&cs) {
        cs
    } else {
        let mut o: Vec<char> = Vec::new();
        crate::json::enc_quoted_x(k.as_str(), &mut o);
        proof {
            assert(o@ =~= key_tok(k@));
        }
        o
    }
}

/// The lines the encoder writes for `d` at column `col`: a single line
/// for a scalar, the block lines otherwise.
pub open spec fn yenc_lines(d: Doc, col: int) -> Seq<(int, Seq<char>)> {
    if is_scalarish(d) {
        seq![(col, scalar_tok(d))]
    } else {
        yblock_lines(d, col)
    }
}

pub(crate) fn is_scalarish_x(v: &Value) -> (r: bool)
    ensures
        r == is_scalarish(v@),
{
    match v {
        Value::List(items) => items.len() == 0,
        Value::Dict(entries) => entries.len() == 0,
        _ => true,
    }
}

/// Write the canonical block text of `v` at column `col` onto `out`,
/// using `pad`, which holds `col` spaces.
#[verifier::rlimit(100)]
#[verifier::loop_isolation(false)]
pub(crate) fn yenc_block_x(v: &Value, pad: &mut Vec<char>, out: &mut Vec<char>, Ghost(col): Ghost<
    int,
>)
    requires
        col >= 0,
        old(pad)@ == spaces(col),
    ensures
        final(out)@ == old(out)@ + join_lines(yenc_lines(v@, col), 0),
        final(pad)@ == old(pad)@,
    decreases v,
{
    if is_scalarish_x(v) {
        let tok = scalar_tok_x(v);
        push_all(out, pad);
        push_all(out, &tok);
        out.push('\n');
        proof {
            assert(join_lines(yenc_lines(v@, col), 1) =~= Seq::<char>::empty());
            assert(join_lines(yenc_lines(v@, col), 0) =~= spaces(col) + scalar_tok(v@) + seq![
                '\n',
            ]);
            assert(out@ =~= old(out)@ + join_lines(yenc_lines(v@, col), 0));
        }
    } else {
        match v {
            Value::List(items) => {
                let ghost ms = list_model(items@, 0);
                proof {
                    lemma_list_model(items@, 0);
                }
                let ghost outbase = out@;
                let mut idx: usize = 0;
                proof {
                    assert(outbase + join_lines(ylist_lines(ms, 0, col), 0) =~= outbase
                        + join_lines(ylist_lines(ms, 0, col), 0));
                }
                while idx < items.len()
                    invariant
                        0 < items.len() == ms.len(),
                        0 <= idx <= items.len(),
                        ms == list_model(items@, 0),
                        forall|q: int| 0 <= q < ms.len() ==> #[trigger] ms[q] == value_model(
                            items@[q],
                        ),
                        pad@ == spaces(col),
                        col >= 0,
                        out@ + join_lines(ylist_lines(ms, idx as int, col), 0) == outbase
                            + join_lines(ylist_lines(ms, 0, col), 0),
                    decreases items.len() - idx,
                {
                    let ghost pre = out@;
                    if is_scalarish_x(&items[idx]) {
                        let tok = scalar_tok_x(&items[idx]);
                        push_all(out, pad);
                        out.push('-');
                        out.push(' ');
                        push_all(out, &tok);
                        out.push('\n');
                        proof {
                            let line = (col, seq!['-', ' '] + scalar_tok(ms[idx as int]));
                            let rest = ylist_lines(ms, idx + 1, col);
                            assert(ylist_lines(ms, idx as int, col) == seq![line] + rest);
                            lemma_join_concat(seq![line], rest, 0);
                            assert(join_lines(seq![line], 1) =~= Seq::<char>::empty());
                            assert(join_lines(seq![line], 0) =~= spaces(col) + line.1 + seq![
                                '\n',
                            ]);
                            assert(out@ =~= pre + (spaces(col) + line.1 + seq!['\n']));
                            assert(pre + (spaces(col) + line.1 + seq!['\n']) + join_lines(
                                rest,
                                0,
                            ) =~= pre + join_lines(ylist_lines(ms, idx as int, col), 0));
                        }
                    } else {
                        push_all(out, pad);
                        out.push('-');
                        out.push('\n');
                        pad.push(' ');
                        pad.push(' ');
                        proof {
                            assert(pad@ =~= spaces(col + 2));
                            assert(decreases_to!(*v => (*v)->List_0));
                            assert(decreases_to!(*items => items@));
                            assert(decreases_to!(items@ => items@[idx as int]));
                        }
                        yenc_block_x(&items[idx], pad, out, Ghost(col + 2));
                        pad.pop();
                        pad.pop();
                        proof {
                            assert(pad@ =~= spaces(col));
                            let line = (col, seq!['-']);
                            let child = yblock_lines(ms[idx as int], col + 2);
                            let rest = ylist_lines(ms, idx + 1, col);
                            assert(yenc_lines(items@[idx as int]@, col + 2) == child);
                            assert(ylist_lines(ms, idx as int, col) == (seq![line] + child)
                                + rest);
                            lemma_join_concat(seq![line] + child, rest, 0);
                            lemma_join_concat(seq![line], child, 0);
                            assert(join_lines(seq![line], 1) =~= Seq::<char>::empty());
                            assert(join_lines(seq![line], 0) =~= spaces(col) + seq!['-'] + seq![
                                '\n',
                            ]);
                            assert(out@ =~= pre + (spaces(col) + seq!['-'] + seq!['\n'])
                                + join_lines(child, 0));
                            assert(pre + (spaces(col) + seq!['-'] + seq!['\n']) + join_lines(
                                child,
                                0,
                            ) + join_lines(rest, 0) =~= pre + join_lines(
                                ylist_lines(ms, idx as int, col),
                                0,
                            ));
                        }
                    }
                    idx = idx + 1;
                }
                proof {
                    assert(join_lines(ylist_lines(ms, items@.len() as int, col), 0) =~= Seq::<
                        char,
                    >::empty());
                    assert(out@ + Seq::<char>::empty() =~= out@);
                    assert(yenc_lines(v@, col) == ylist_lines(ms, 0, col));
                }
            },
            Value::Dict(entries) => {
                let ghost ms = dict_model(entries@, 0);
                proof {
                    lemma_dict_model(entries@, 0);
                }
                let ghost outbase = out@;
                let mut idx: usize = 0;
                while idx < entries.len()
                    invariant
                        0 < entries.len() == ms.len(),
                        0 <= idx <= entries.len(),
                        ms == dict_model(entries@, 0),
                        forall|q: int| 0 <= q < ms.len() ==> #[trigger] ms[q] == (
                        entries@[q].0@, value_model(entries@[q].1)),
                        pad@ == spaces(col),
                        col >= 0,
                        out@ + join_lines(ydict_lines(ms, idx as int, col), 0) == outbase
                            + join_lines(ydict_lines(ms, 0, col), 0),
                    decreases entries.len() - idx,
                {
                    let ghost pre = out@;
                    let kt = key_tok_x(&entries[idx].0);
                    if is_scalarish_x(&entries[idx].1) {
                        let tok = scalar_tok_x(&entries[idx].1);
                        push_all(out, pad);
                        push_all(out, &kt);
                        out.push(':');
                        out.push(' ');
                        push_all(out, &tok);
                        out.push('\n');
                        proof {
                            let line = (col, key_tok(ms[idx as int].0) + seq![':', ' ']
                                + scalar_tok(ms[idx as int].1));
                            let rest = ydict_lines(ms, idx + 1, col);
                            assert(ydict_lines(ms, idx as int, col) == seq![line] + rest);
                            lemma_join_concat(seq![line], rest, 0);
                            assert(join_lines(seq![line], 1) =~= Seq::<char>::empty());
                            assert(join_lines(seq![line], 0) =~= spaces(col) + line.1 + seq![
                                '\n',
                            ]);
                            assert(out@ =~= pre + (spaces(col) + line.1 + seq!['\n']));
                            assert(pre + (spaces(col) + line.1 + seq!['\n']) + join_lines(
                                rest,
                                0,
                            ) =~= pre + join_lines(ydict_lines(ms, idx as int, col), 0));
                        }
                    } else {
                        push_all(out, pad);
                        push_all(out, &kt);
                        out.push(':');
                        out.push('\n');
                        pad.push(' ');
                        pad.push(' ');
                        proof {
                            assert(pad@ =~= spaces(col + 2));
                            assert(decreases_to!(*v => (*v)->Dict_0));
                            assert(decreases_to!(*entries => entries@));
                            assert(decreases_to!(entries@ => entries@[idx as int]));
                            assert(decreases_to!(entries@[idx as int] => entries@[idx as
                            int].1));
                        }
                        yenc_block_x(&entries[idx].1, pad, out, Ghost(col + 2));
                        pad.pop();
                        pad.pop();
                        proof {
                            assert(pad@ =~= spaces(col));
                            let line = (col, key_tok(ms[idx as int].0) + seq![':']);
                            let child = yblock_lines(ms[idx as int].1, col + 2);
                            let rest = ydict_lines(ms, idx + 1, col);
                            assert(yenc_lines(entries@[idx as int].1@, col + 2) == child);
                            assert(ydict_lines(ms, idx as int, col) == (seq![line] + child)
                                + rest);
                            lemma_join_concat(seq![line] + child, rest, 0);
                            lemma_join_concat(seq![line], child, 0);
                            assert(join_lines(seq![line], 1) =~= Seq::<char>::empty());
                            assert(join_lines(seq![line], 0) =~= spaces(col) + line.1 + seq![
                                '\n',
                            ]);
                            assert(out@ =~= pre + (spaces(col) + line.1 + seq!['\n'])
                                + join_lines(child, 0));
                            assert(pre + (spaces(col) + line.1 + seq!['\n']) + join_lines(
                                child,
                                0,
                            ) + join_lines(rest, 0) =~= pre + join_lines(
                                ydict_lines(ms, idx as int, col),
                                0,
                            ));
                        }
                    }
                    idx = idx + 1;
                }
                proof {
                    assert(join_lines(ydict_lines(ms, entries@.len() as int, col), 0) =~= Seq::<
                        char,
                    >::empty());
                    assert(out@ + Seq::<char>::empty() =~= out@);
                    assert(yenc_lines(v@, col) == ydict_lines(ms, 0, col));
                }
            },
            _ => {
                proof {
                    assert(false);
                }
            },
        }
    }
}

/// Encode a value tree as the canonical indentation-based document text.
/// Deterministic: the output is a function of the tree alone.
pub fn encode_yaml(v: &Value) -> (r: String)
    ensures
        r@ == yaml_text(v@),
{
    let mut out: Vec<char> = Vec::new();
    let mut pad: Vec<char> = Vec::new();
    proof {
        assert(pad@ =~= spaces(0));
    }
    yenc_block_x(v, &mut pad, &mut out, Ghost(0));
    proof {
        assert(ydoc_lines(v@) == yenc_lines(v@, 0));
        assert(out@ =~= yaml_text(v@));
    }
    crate::text::chars_to_string(&out)
}

// ------------------------------------------------- well-formed results

/// Every flow value the parser returns is well-formed.
pub proof fn lemma_fparse_value_wf(t: Seq<char>, i: int)
    requires
        0 <= i <= t.len(),
    ensures
        match fparse_value(t, i) {
            Some(p) => crate::value::wf(p.0),
            None => true,
        },
    decreases t.len() - i, 2int,
{
    let j = at_least(i, fskip(t, i));
    if j < t.len() {
        let c = t[j];
        if c == '[' {
            let j2 = at_least(j + 1, fskip(t, j + 1));
            if !(j2 < t.len() && t[j2] == ']') {
                lemma_fparse_items_wf(t, j + 1);
            }
        } else if c == '{' {
            let j2 = at_least(j + 1, fskip(t, j + 1));
            if !(j2 < t.len() && t[j2] == '}') {
                lemma_fparse_entries_wf(t, j + 1);
            }
        }
    }
}

pub proof fn lemma_fparse_items_wf(t: Seq<char>, i: int)
    requires
        0 <= i <= t.len(),
    ensures
        match fparse_items(t, i) {
            Some(p) => forall|q: int| 0 <= q < p.0.len() ==> crate::value::wf(#[trigger] p.0[q]),
            None => true,
        },
    decreases t.len() - i, 3int,
{
    lemma_fparse_value_wf(t, i);
    match fparse_value(t, i) {
        None => {},
        Some((d, k0)) => {
            let k1 = at_least(i + 1, k0);
            let k = if k1 > t.len() {
                t.len() as int
            } else {
                k1
            };
            let m = at_least(k, fskip(t, k));
            if m < t.len() && t[m] == ',' {
                lemma_fparse_items_wf(t, m + 1);
                match fparse_items(t, m + 1) {
                    Some((ds, e)) => {
                        assert forall|q: int| 0 <= q < (seq![d] + ds).len() implies crate::value::wf(
                            #[trigger] (seq![d] + ds)[q],
                        ) by {
                            if q > 0 {
                                assert((seq![d] + ds)[q] == ds[q - 1]);
                            } else {
                                assert((seq![d] + ds)[q] == d);
                            }
                        }
                    },
                    None => {},
                }
            }
        },
    }
}

pub proof fn lemma_fparse_entries_wf(t: Seq<char>, i: int)
    requires
        0 <= i <= t.len(),
    ensures
        match fparse_entries(t, i) {
            Some(p) => forall|q: int| 0 <= q < p.0.len() ==> crate::value::wf(
                #[trigger] p.0[q].1,
            ),
            None => true,
        },
    decreases t.len() - i, 3int,
{
    let j = at_least(i, fskip(t, i));
    if j < t.len() {
        let kv: Option<(Seq<char>, int)> = if t[j] == '"' {
            match parse_quoted(t, j + 1) {
                Some((key, q0)) => Some((key, at_least(j + 2, q0))),
                None => None,
            }
        } else {
            let k0 = colon_end(t, j);
            let ke = if k0 < j {
                j
            } else if k0 > t.len() {
                t.len() as int
            } else {
                k0
            };
            if ke < t.len() && t[ke] == ':' {
                let r0 = rtrim_end(t, j, ke);
                let r = if r0 < j {
                    j
                } else if r0 > ke {
                    ke
                } else {
                    r0
                };
                if r > j {
                    Some((t.subrange(j, r), ke))
                } else {
                    None
                }
            } else {
                None
            }
        };
        match kv {
            None => {},
            Some((key, q1)) => {
                let q2 = if q1 > t.len() {
                    t.len() as int
                } else {
                    q1
                };
                let q = at_least(q2, fskip(t, q2));
                if q < t.len() && t[q] == ':' {
                    lemma_fparse_value_wf(t, q + 1);
                    match fparse_value(t, q + 1) {
                        None => {},
                        Some((d, k0)) => {
                            let k1 = at_least(q + 2, k0);
                            let k = if k1 > t.len() {
                                t.len() as int
                            } else {
                                k1
                            };
                            let m = at_least(k, fskip(t, k));
                            if m < t.len() && t[m] == ',' {
                                lemma_fparse_entries_wf(t, m + 1);
                                match fparse_entries(t, m + 1) {
                                    Some((es, e)) => {
                                        assert forall|q3: int|
                                            0 <= q3 < (seq![(key, d)]
                                                + es).len() implies crate::value::wf(
                                            #[trigger] (seq![(key, d)] + es)[q3].1,
                                        ) by {
                                            if q3 > 0 {
                                                assert((seq![(key, d)] + es)[q3] == es[q3 - 1]);
                                            }
                                        }
                                    },
                                    None => {},
                                }
                            }
                        },
                    }
                }
            },
        }
    }
}

/// Every scalar the classifier accepts is well-formed.
pub proof fn lemma_classify_wf(t: Seq<char>)
    ensures
        match classify(t) {
            Some(d) => crate::value::wf(d),
            None => true,
        },
{
    if t.len() >= 1 && t[0] != '"' && (t[0] == '[' || t[0] == '{') {
        lemma_fparse_value_wf(t, 0);
    }
}

/// Every document the block parser returns is well-formed.
pub proof fn lemma_yparse_block_wf(ls: Seq<(int, Seq<char>)>, i: int, ind: int)
    requires
        0 <= i <= ls.len(),
    ensures
        match yparse_block(ls, i, ind) {
            Some(p) => crate::value::wf(p.0),
            None => true,
        },
    decreases ls.len() - i, 1int,
{
    if 0 <= i < ls.len() {
        if is_dash_line(ls[i].1) {
            lemma_yparse_seq_wf(ls, i, ind);
        } else {
            lemma_yparse_map_wf(ls, i, ind);
            match key_split(ls[i].1) {
                Some(kp) => {},
                None => {
                    lemma_classify_wf(ls[i].1);
                },
            }
        }
    }
}

pub proof fn lemma_yparse_seq_wf(ls: Seq<(int, Seq<char>)>, i: int, ind: int)
    requires
        0 <= i <= ls.len(),
    ensures
        match yparse_seq(ls, i, ind) {
            Some(p) => forall|t: int| 0 <= t < p.0.len() ==> crate::value::wf(#[trigger] p.0[t]),
            None => true,
        },
    decreases ls.len() - i, 0int,
{
    if !(0 <= i < ls.len()) || ls[i].0 != ind || !is_dash_line(ls[i].1) {
    } else {
        let b = ls[i].1;
        if b.len() == 1 || only_comment_after(b.skip(2), 0) {
            if i + 1 < ls.len() && ls[i + 1].0 > ind {
                lemma_yparse_block_wf(ls, i + 1, ls[i + 1].0);
            }
        } else {
            match key_split(b.skip(2)) {
                Some((kk, p)) => {
                    if !(p + 1 == b.skip(2).len() || only_comment_after(
                        b.skip(2).skip(p + 2),
                        0,
                    )) {
                        lemma_classify_wf(b.skip(2).skip(p + 2));
                    }
                },
                None => {
                    lemma_classify_wf(b.skip(2));
                },
            }
        }
        let item: Option<(Doc, int)> = if b.len() == 1 || only_comment_after(b.skip(2), 0) {
            if i + 1 < ls.len() && ls[i + 1].0 > ind {
                yparse_block(ls, i + 1, ls[i + 1].0)
            } else {
                Some((Doc::Null, i + 1))
            }
        } else {
            let tok = b.skip(2);
            match key_split(tok) {
                Some((kk, p)) => {
                    let v: Option<Doc> = if p + 1 == tok.len() || only_comment_after(
                        tok.skip(p + 2),
                        0,
                    ) {
                        Some(Doc::Null)
                    } else {
                        classify(tok.skip(p + 2))
                    };
                    match v {
                        Some(d) => {
                            assert(crate::value::unique_keys(seq![(kk, d)]));
                            assert forall|x: int| 0 <= x < seq![(kk, d)].len() implies crate::value::wf(
                                #[trigger] seq![(kk, d)][x].1,
                            ) by {
                                assert(seq![(kk, d)][x] == (kk, d));
                            }
                            Some((Doc::Dict(seq![(kk, d)]), i + 1))
                        },
                        None => None,
                    }
                },
                None => match classify(tok) {
                    Some(d) => Some((d, i + 1)),
                    None => None,
                },
            }
        };
        match item {
            None => {},
            Some((d, j0)) => {
                let j1 = if j0 < i + 1 {
                    i + 1
                } else {
                    j0
                };
                let j = if j1 > ls.len() {
                    ls.len() as int
                } else {
                    j1
                };
                lemma_yparse_seq_wf(ls, j, ind);
                match yparse_seq(ls, j, ind) {
                    Some((ds, e)) => {
                        assert forall|t: int| 0 <= t < (seq![d] + ds).len() implies crate::value::wf(
                            #[trigger] (seq![d] + ds)[t],
                        ) by {
                            if t > 0 {
                                assert((seq![d] + ds)[t] == ds[t - 1]);
                            } else {
                                assert((seq![d] + ds)[t] == d);
                            }
                        }
                    },
                    None => {},
                }
            },
        }
    }
}

pub proof fn lemma_yparse_map_wf(ls: Seq<(int, Seq<char>)>, i: int, ind: int)
    requires
        0 <= i <= ls.len(),
    ensures
        match yparse_map(ls, i, ind) {
            Some(p) => forall|t: int| 0 <= t < p.0.len() ==> crate::value::wf(
                #[trigger] p.0[t].1,
            ),
            None => true,
        },
    decreases ls.len() - i, 0int,
{
    if !(0 <= i < ls.len()) || ls[i].0 != ind {
    } else {
        let b = ls[i].1;
        match key_split(b) {
            None => {},
            Some((key, pp)) => {
                if pp + 1 == b.len() || only_comment_after(b.skip(pp + 2), 0) {
                    if i + 1 < ls.len() && ls[i + 1].0 > ind {
                        lemma_yparse_block_wf(ls, i + 1, ls[i + 1].0);
                    }
                } else {
                    lemma_classify_wf(b.skip(pp + 2));
                }
                let item: Option<(Doc, int)> = if pp + 1 == b.len() || only_comment_after(
                    b.skip(pp + 2),
                    0,
                ) {
                    if i + 1 < ls.len() && ls[i + 1].0 > ind {
                        yparse_block(ls, i + 1, ls[i + 1].0)
                    } else {
                        Some((Doc::Null, i + 1))
                    }
                } else {
                    match classify(b.skip(pp + 2)) {
                        Some(d) => Some((d, i + 1)),
                        None => None,
                    }
                };
                match item {
                    None => {},
                    Some((d, j0)) => {
                        let j1 = if j0 < i + 1 {
                            i + 1
                        } else {
                            j0
                        };
                        let j = if j1 > ls.len() {
                            ls.len() as int
                        } else {
                            j1
                        };
                        lemma_yparse_map_wf(ls, j, ind);
                        match yparse_map(ls, j, ind) {
                            Some((es, e)) => {
                                assert forall|t: int|
                                    0 <= t < (seq![(key, d)] + es).len() implies crate::value::wf(
                                    #[trigger] (seq![(key, d)] + es)[t].1,
                                ) by {
                                    if t > 0 {
                                        assert((seq![(key, d)] + es)[t] == es[t - 1]);
                                    }
                                }
                            },
                            None => {},
                        }
                    },
                }
            },
        }
    }
}

/// Every document the parser returns is well-formed: integers in machine
/// range and mapping keys distinct, throughout the tree.
pub proof fn lemma_yparse_doc_wf(s: Seq<char>)
    ensures
        match yparse_doc(s) {
            Some(d) => crate::value::wf(d),
            None => true,
        },
{
    let ls = yaml_items(s, 0);
    if ls.len() > 0 {
        lemma_yparse_block_wf(ls, 0, ls[0].0);
    }
}

} // verus!
