//! The bracketed format: canonical pretty-printed encoding and a
//! recursive-descent parser, with the proof that the one inverts the
//! other.

use vstd::prelude::*;

use crate::text::{
    is_digit, int_text, quoted_text, parse_quoted, is_ws, skip_ws, spaces, digits_val,
};
use crate::value::{Doc, unique_keys, Value, ParseError, ParseErrorKind, value_model, list_model, dict_model, lemma_list_model, lemma_dict_model, lemma_list_model_cons, lemma_dict_model_cons};

verus! {

broadcast use vstd::std_specs::vec::group_vec_axioms;

// ------------------------------------------------------------- encoding

/// The larger of `i` and `j`.
pub open spec fn at_least(i: int, j: int) -> int {
    if j < i {
        i
    } else {
        j
    }
}

/// Canonical text of a document at nesting depth `ind`: two spaces per
/// level, one item per line, keys double-quoted.
pub open spec fn jenc(d: Doc, ind: int) -> Seq<char>
    decreases d, 1int,
{
    match d {
        Doc::Null => seq!['n', 'u', 'l', 'l'],
        Doc::Bool(b) => if b {
            seq!['t', 'r', 'u', 'e']
        } else {
            seq!['f', 'a', 'l', 's', 'e']
        },
        Doc::Int(n) => int_text(n),
        Doc::Text(s) => quoted_text(s),
        Doc::List(items) => if items.len() == 0 {
            seq!['[', ']']
        } else {
            seq!['['] + jenc_items(items, 0, ind + 1) + seq!['\n'] + spaces(2 * ind) + seq![']']
        },
        Doc::Dict(entries) => if entries.len() == 0 {
            seq!['{', '}']
        } else {
            seq!['{'] + jenc_entries(entries, 0, ind + 1) + seq!['\n'] + spaces(2 * ind) + seq![
                '}',
            ]
        },
    }
}

/// The item lines of a sequence from position `i` on: each item on its
/// own line, a comma after every item but the last.
pub open spec fn jenc_items(items: Seq<Doc>, i: int, ind: int) -> Seq<char>
    decreases items, items.len() - i,
{
    if 0 <= i < items.len() {
        seq!['\n'] + spaces(2 * ind) + jenc(items[i], ind) + (if i + 1 < items.len() {
            seq![',']
        } else {
            Seq::empty()
        }) + jenc_items(items, i + 1, ind)
    } else {
        Seq::empty()
    }
}

/// The entry lines of a mapping from position `i` on.
pub open spec fn jenc_entries(entries: Seq<(Seq<char>, Doc)>, i: int, ind: int) -> Seq<char>
    decreases entries, entries.len() - i,
{
    if 0 <= i < entries.len() {
        seq!['\n'] + spaces(2 * ind) + quoted_text(entries[i].0) + seq![':', ' '] + jenc(
            entries[i].1,
            ind,
        ) + (if i + 1 < entries.len() {
            seq![',']
        } else {
            Seq::empty()
        }) + jenc_entries(entries, i + 1, ind)
    } else {
        Seq::empty()
    }
}

/// The canonical document text: the root at depth zero, a final newline.
pub open spec fn json_text(d: Doc) -> Seq<char> {
    jenc(d, 0) + seq!['\n']
}

// -------------------------------------------------------------- parsing

/// End of the digit run that starts at `i`.
pub open spec fn digits_end(s: Seq<char>, i: int) -> int
    decreases s.len() - i,
{
    if 0 <= i < s.len() && is_digit(s[i]) {
        digits_end(s, i + 1)
    } else {
        i
    }
}

/// Parse an integer literal: an optional minus sign, then digits with no
/// leading zero, within machine range.
pub open spec fn jparse_number(s: Seq<char>, i: int) -> Option<(Doc, int)> {
    let neg = s[i] == '-';
    let a = if neg {
        i + 1
    } else {
        i
    };
    let b = digits_end(s, a);
    if b <= a {
        None
    } else {
        let t = s.subrange(a, b);
        if t[0] == '0' && b - a > 1 {
            None
        } else {
            let v = if neg {
                -digits_val(t)
            } else {
                digits_val(t)
            };
            if i64::MIN <= v <= i64::MAX {
                Some((Doc::Int(v), b))
            } else {
                None
            }
        }
    }
}

/// Parse one value starting at `i`, whitespace allowed before it.
/// Returns the document and the position just after its text.
pub open spec fn jparse_value(s: Seq<char>, i: int) -> Option<(Doc, int)>
    decreases s.len() - i, 2int,
{
    if i < 0 {
        None
    } else {
        let j = at_least(i, skip_ws(s, i));
        if j >= s.len() {
            None
        } else {
            let c = s[j];
            if c == 'n' {
                if j + 4 <= s.len() && s[j + 1] == 'u' && s[j + 2] == 'l' && s[j + 3] == 'l' {
                    Some((Doc::Null, j + 4))
                } else {
                    None
                }
            } else if c == 't' {
                if j + 4 <= s.len() && s[j + 1] == 'r' && s[j + 2] == 'u' && s[j + 3] == 'e' {
                    Some((Doc::Bool(true), j + 4))
                } else {
                    None
                }
            } else if c == 'f' {
                if j + 5 <= s.len() && s[j + 1] == 'a' && s[j + 2] == 'l' && s[j + 3] == 's' && s[j
                    + 4] == 'e' {
                    Some((Doc::Bool(false), j + 5))
                } else {
                    None
                }
            } else if c == '"' {
                match parse_quoted(s, j + 1) {
                    Some((content, k)) => Some((Doc::Text(content), k)),
                    None => None,
                }
            } else if c == '-' || is_digit(c) {
                jparse_number(s, j)
            } else if c == '[' {
                let j2 = at_least(j + 1, skip_ws(s, j + 1));
                if j2 < s.len() && s[j2] == ']' {
                    Some((Doc::List(Seq::empty()), j2 + 1))
                } else {
                    match jparse_items(s, j + 1) {
                        Some((ds, k)) => Some((Doc::List(ds), k)),
                        None => None,
                    }
                }
            } else if c == '{' {
                let j2 = at_least(j + 1, skip_ws(s, j + 1));
                if j2 < s.len() && s[j2] == '}' {
                    Some((Doc::Dict(Seq::empty()), j2 + 1))
                } else {
                    match jparse_entries(s, j + 1) {
                        Some((es, k)) => if unique_keys(es) {
                            Some((Doc::Dict(es), k))
                        } else {
                            None
                        },
                        None => None,
                    }
                }
            } else {
                None
            }
        }
    }
}

/// Parse the items of a nonempty sequence, starting just after `[` or a
/// comma, up to and including the closing bracket.
pub open spec fn jparse_items(s: Seq<char>, i: int) -> Option<(Seq<Doc>, int)>
    decreases s.len() - i, 3int,
{
    if i < 0 {
        None
    } else {
        match jparse_value(s, i) {
            None => None,
            Some((d, k0)) => {
                let k = at_least(i + 1, k0);
                let m = at_least(k, skip_ws(s, k));
                if m >= s.len() {
                    None
                } else if s[m] == ',' {
                    match jparse_items(s, m + 1) {
                        Some((ds, e)) => Some((seq![d] + ds, e)),
                        None => None,
                    }
                } else if s[m] == ']' {
                    Some((seq![d], m + 1))
                } else {
                    None
                }
            },
        }
    }
}

/// Parse the entries of a nonempty mapping, starting just after `{` or a
/// comma, up to and including the closing brace.
pub open spec fn jparse_entries(s: Seq<char>, i: int) -> Option<(Seq<(Seq<char>, Doc)>, int)>
    decreases s.len() - i, 3int,
{
    if i < 0 {
        None
    } else {
        let j = at_least(i, skip_ws(s, i));
        if j >= s.len() || s[j] != '"' {
            None
        } else {
            match parse_quoted(s, j + 1) {
                None => None,
                Some((key, q0)) => {
                    let q = at_least(j + 2, q0);
                    let r = at_least(q, skip_ws(s, q));
                    if r >= s.len() || s[r] != ':' {
                        None
                    } else {
                        match jparse_value(s, r + 1) {
                            None => None,
                            Some((d, k0)) => {
                                let k = at_least(r + 2, k0);
                                let m = at_least(k, skip_ws(s, k));
                                if m >= s.len() {
                                    None
                                } else if s[m] == ',' {
                                    match jparse_entries(s, m + 1) {
                                        Some((es, e)) => Some((seq![(key, d)] + es, e)),
                                        None => None,
                                    }
                                } else if s[m] == '}' {
                                    Some((seq![(key, d)], m + 1))
                                } else {
                                    None
                                }
                            },
                        }
                    }
                },
            }
        }
    }
}

pub proof fn lemma_digits_end(s: Seq<char>, i: int)
    requires
        0 <= i <= s.len(),
    ensures
        i <= digits_end(s, i) <= s.len(),
        forall|j: int| i <= j < digits_end(s, i) ==> is_digit(#[trigger] s[j]),
        digits_end(s, i) < s.len() ==> !is_digit(s[digits_end(s, i)]),
    decreases s.len() - i,
{
    if i < s.len() && is_digit(s[i]) {
        lemma_digits_end(s, i + 1);
    }
}

/// A run of digits delimited on the right scans to exactly its end.
pub proof fn lemma_digits_end_run(s: Seq<char>, i: int, j: int)
    requires
        0 <= i <= j <= s.len(),
        forall|k: int| i <= k < j ==> is_digit(#[trigger] s[k]),
        j == s.len() || !is_digit(s[j]),
    ensures
        digits_end(s, i) == j,
    decreases j - i,
{
    if i < j {
        lemma_digits_end_run(s, i + 1, j);
    }
}

/// Every successful parse moves forward, stays in bounds, and yields a
/// well-formed document.
pub proof fn lemma_jparse_value_ok(s: Seq<char>, i: int)
    requires
        0 <= i <= s.len(),
    ensures
        match jparse_value(s, i) {
            Some((d, k)) => i < k <= s.len() && crate::value::wf(d),
            None => true,
        },
    decreases s.len() - i, 2int,
{
    crate::text::lemma_skip_ws_bounds(s, i);
    let j = at_least(i, skip_ws(s, i));
    if j < s.len() {
        let c = s[j];
        if c == '"' {
            crate::text::lemma_parse_quoted_bounds(s, j + 1);
        } else if c == '-' || is_digit(c) {
            let neg = c == '-';
            let a = if neg {
                j + 1
            } else {
                j
            };
            if a <= s.len() {
                lemma_digits_end(s, a);
            }
        } else if c == '[' {
            crate::text::lemma_skip_ws_bounds(s, j + 1);
            if !(at_least(j + 1, skip_ws(s, j + 1)) < s.len() && s[at_least(
                j + 1,
                skip_ws(s, j + 1),
            )] == ']') {
                lemma_jparse_items_ok(s, j + 1);
            }
        } else if c == '{' {
            crate::text::lemma_skip_ws_bounds(s, j + 1);
            if !(at_least(j + 1, skip_ws(s, j + 1)) < s.len() && s[at_least(
                j + 1,
                skip_ws(s, j + 1),
            )] == '}') {
                lemma_jparse_entries_ok(s, j + 1);
            }
        }
    }
}

pub proof fn lemma_jparse_items_ok(s: Seq<char>, i: int)
    requires
        0 <= i <= s.len(),
    ensures
        match jparse_items(s, i) {
            Some((ds, e)) => i < e <= s.len() && forall|t: int|
                0 <= t < ds.len() ==> crate::value::wf(#[trigger] ds[t]),
            None => true,
        },
    decreases s.len() - i, 3int,
{
    lemma_jparse_value_ok(s, i);
    match jparse_value(s, i) {
        None => {},
        Some((d, k0)) => {
            let k = at_least(i + 1, k0);
            crate::text::lemma_skip_ws_bounds(s, k);
            let m = at_least(k, skip_ws(s, k));
            if m < s.len() && s[m] == ',' {
                lemma_jparse_items_ok(s, m + 1);
            }
        },
    }
}

pub proof fn lemma_jparse_entries_ok(s: Seq<char>, i: int)
    requires
        0 <= i <= s.len(),
    ensures
        match jparse_entries(s, i) {
            Some((es, e)) => i < e <= s.len() && forall|t: int|
                0 <= t < es.len() ==> crate::value::wf(#[trigger] es[t].1),
            None => true,
        },
    decreases s.len() - i, 3int,
{
    crate::text::lemma_skip_ws_bounds(s, i);
    let j = at_least(i, skip_ws(s, i));
    if j < s.len() && s[j] == '"' {
        crate::text::lemma_parse_quoted_bounds(s, j + 1);
        match parse_quoted(s, j + 1) {
            None => {},
            Some((key, q0)) => {
                let q = at_least(j + 2, q0);
                crate::text::lemma_skip_ws_bounds(s, q);
                let r = at_least(q, skip_ws(s, q));
                if r < s.len() && s[r] == ':' {
                    if r + 1 <= s.len() {
                        lemma_jparse_value_ok(s, r + 1);
                    }
                    match jparse_value(s, r + 1) {
                        None => {},
                        Some((d, k0)) => {
                            let k = at_least(r + 2, k0);
                            crate::text::lemma_skip_ws_bounds(s, k);
                            let m = at_least(k, skip_ws(s, k));
                            if m < s.len() && s[m] == ',' {
                                lemma_jparse_entries_ok(s, m + 1);
                            }
                        },
                    }
                }
            },
        }
    }
}

// ------------------------------------------------------- round trip

/// What follows a sequence's items: the closing line and bracket.
pub open spec fn jitems_tail(items: Seq<Doc>, idx: int, ind: int) -> Seq<char> {
    jenc_items(items, idx, ind) + seq!['\n'] + spaces(2 * (ind - 1)) + seq![']']
}

/// What follows a mapping's entries: the closing line and brace.
pub open spec fn jentries_tail(entries: Seq<(Seq<char>, Doc)>, idx: int, ind: int) -> Seq<char> {
    jenc_entries(entries, idx, ind) + seq!['\n'] + spaces(2 * (ind - 1)) + seq!['}']
}

/// The first character of an encoding: never whitespace, never a
/// delimiter, always a value's start character.
pub proof fn lemma_jenc_head(d: Doc, ind: int)
    ensures
        jenc(d, ind).len() >= 1,
        ({
            let h = jenc(d, ind)[0];
            (h == 'n' || h == 't' || h == 'f' || h == '"' || h == '[' || h == '{' || h == '-'
                || is_digit(h)) && !is_ws(h) && h != ']' && h != '}' && h != ','
        }),
{
    match d {
        Doc::Int(n) => {
            crate::text::lemma_int_text_round_trip(n);
        },
        _ => {},
    }
}

/// The canonical text of an integer, delimited on the right, parses as
/// that integer.
pub proof fn lemma_jparse_number_int(n: int, s: Seq<char>, i: int)
    requires
        i64::MIN <= n <= i64::MAX,
        0 <= i,
        i + int_text(n).len() <= s.len(),
        s.subrange(i, i + int_text(n).len()) == int_text(n),
        i + int_text(n).len() == s.len() || !is_digit(s[i + int_text(n).len()]),
    ensures
        jparse_number(s, i) == Some((Doc::Int(n), i + int_text(n).len())),
{
    let t = int_text(n);
    let fin = i + t.len();
    crate::text::lemma_int_text_round_trip(n);
    crate::text::lemma_seg_index(s, i, t);
    assert(s[i + 0] == t[0]);
    if n < 0 {
        let dd = crate::text::dec_digits((-n) as nat);
        crate::text::lemma_dec_digits_all_digits((-n) as nat);
        crate::text::lemma_dec_digits_no_leading_zero((-n) as nat);
        crate::text::lemma_digits_val_of_dec_digits((-n) as nat);
        assert(t.skip(1) =~= dd);
        assert forall|k: int| i + 1 <= k < fin implies is_digit(#[trigger] s[k]) by {
            assert(s[i + (k - i)] == t[k - i]);
            assert(t[k - i] == dd[k - i - 1]);
        }
        lemma_digits_end_run(s, i + 1, fin);
        assert forall|m: int| 0 <= m < dd.len() implies s.subrange(i + 1, fin)[m] == dd[m] by {
            assert(s[i + (m + 1)] == t[m + 1]);
        }
        assert(s.subrange(i + 1, fin) =~= dd);
        assert(jparse_number(s, i) == Some((Doc::Int(n), fin)));
    } else {
        let dd = crate::text::dec_digits(n as nat);
        crate::text::lemma_dec_digits_all_digits(n as nat);
        crate::text::lemma_dec_digits_no_leading_zero(n as nat);
        crate::text::lemma_digits_val_of_dec_digits(n as nat);
        assert(t =~= dd);
        assert forall|k: int| i <= k < fin implies is_digit(#[trigger] s[k]) by {
            assert(s[i + (k - i)] == t[k - i]);
        }
        assert(s[i] != '-');
        lemma_digits_end_run(s, i, fin);
        assert(s.subrange(i, fin) =~= dd);
        assert(jparse_number(s, i) == Some((Doc::Int(n), fin)));
    }
}

/// A canonically encoded value, preceded by a run of whitespace and
/// delimited on the right, parses back to exactly itself.
#[verifier::rlimit(60)]
pub proof fn lemma_jenc_parse(d: Doc, ind: int, s: Seq<char>, i: int, w: int)
    requires
        crate::value::wf(d),
        0 <= i,
        0 <= w,
        0 <= ind,
        i + w + jenc(d, ind).len() <= s.len(),
        forall|m: int| i <= m < i + w ==> is_ws(#[trigger] s[m]),
        s.subrange(i + w, i + w + jenc(d, ind).len()) == jenc(d, ind),
        i + w + jenc(d, ind).len() == s.len() || !is_digit(s[i + w + jenc(d, ind).len()]),
    ensures
        jparse_value(s, i) == Some((d, i + w + jenc(d, ind).len())),
    decreases d, 1int,
{
    let e = jenc(d, ind);
    let b = i + w;
    let fin = b + e.len();
    lemma_jenc_head(d, ind);
    crate::text::lemma_seg_index(s, b, e);
    assert(s[b + 0] == e[0]);
    crate::text::lemma_skip_ws_run(s, i, b);
    assert(at_least(i, skip_ws(s, i)) == b);
    match d {
        Doc::Null => {
            assert(s[b + 1] == e[1] && s[b + 2] == e[2] && s[b + 3] == e[3]);
        },
        Doc::Bool(v) => {
            if v {
                assert(s[b + 1] == e[1] && s[b + 2] == e[2] && s[b + 3] == e[3]);
            } else {
                assert(s[b + 1] == e[1] && s[b + 2] == e[2] && s[b + 3] == e[3] && s[b + 4]
                    == e[4]);
            }
        },
        Doc::Int(n) => {
            lemma_jparse_number_int(n, s, b);
        },
        Doc::Text(txt) => {
            crate::text::lemma_quoted_round_trip(txt, s, b);
        },
        Doc::List(items) => {
            if items.len() == 0 {
                assert(s[b + 1] == e[1]);
                crate::text::lemma_skip_ws_run(s, b + 1, b + 1);
                assert(items =~= Seq::<Doc>::empty());
            } else {
                let ind1 = ind + 1;
                let tail = jitems_tail(items, 0, ind1);
                assert(e =~= seq!['['] + tail);
                crate::text::lemma_sub_split(s, b, seq!['['], tail);
                lemma_jitems_parse(items, 0, ind1, s, b + 1);
                // the lookahead for an empty sequence sees the first item, not `]`
                let u = jenc_items(items, 0, ind1);
                lemma_jenc_head(items[0], ind1);
                crate::text::lemma_seg_index(s, b + 1, tail);
                let wi = 1 + 2 * ind1;
                assert forall|m: int| b + 1 <= m < b + 1 + wi implies is_ws(#[trigger] s[m]) by {
                    assert(s[(b + 1) + (m - b - 1)] == tail[m - b - 1]);
                    if m == b + 1 {
                        assert(tail[0] == '\n');
                    } else {
                        assert(tail[m - b - 1] == spaces(2 * ind1)[m - b - 2]);
                    }
                }
                assert(s[(b + 1) + wi] == tail[wi]);
                assert(tail[wi] == jenc(items[0], ind1)[0]);
                crate::text::lemma_skip_ws_run(s, b + 1, b + 1 + wi);
                assert(s[at_least(b + 1, skip_ws(s, b + 1))] != ']');
                assert(items.skip(0) =~= items);
            }
        },
        Doc::Dict(entries) => {
            if entries.len() == 0 {
                assert(s[b + 1] == e[1]);
                crate::text::lemma_skip_ws_run(s, b + 1, b + 1);
                assert(entries =~= Seq::<(Seq<char>, Doc)>::empty());
            } else {
                let ind1 = ind + 1;
                let tail = jentries_tail(entries, 0, ind1);
                assert(e =~= seq!['{'] + tail);
                crate::text::lemma_sub_split(s, b, seq!['{'], tail);
                lemma_jentries_parse(entries, 0, ind1, s, b + 1);
                crate::text::lemma_seg_index(s, b + 1, tail);
                let wi = 1 + 2 * ind1;
                assert forall|m: int| b + 1 <= m < b + 1 + wi implies is_ws(#[trigger] s[m]) by {
                    assert(s[(b + 1) + (m - b - 1)] == tail[m - b - 1]);
                    if m == b + 1 {
                        assert(tail[0] == '\n');
                    } else {
                        assert(tail[m - b - 1] == spaces(2 * ind1)[m - b - 2]);
                    }
                }
                assert(s[(b + 1) + wi] == tail[wi]);
                assert(tail[wi] == '"');
                crate::text::lemma_skip_ws_run(s, b + 1, b + 1 + wi);
                assert(s[at_least(b + 1, skip_ws(s, b + 1))] != '}');
                assert(entries.skip(0) =~= entries);
            }
        },
    }
}

/// The encoded items of a sequence, from `idx` on, parse back to exactly
/// those items.
#[verifier::rlimit(60)]
pub proof fn lemma_jitems_parse(items: Seq<Doc>, idx: int, ind: int, s: Seq<char>, i: int)
    requires
        0 <= idx < items.len(),
        1 <= ind,
        0 <= i,
        forall|t: int| 0 <= t < items.len() ==> crate::value::wf(#[trigger] items[t]),
        i + jitems_tail(items, idx, ind).len() <= s.len(),
        s.subrange(i, i + jitems_tail(items, idx, ind).len()) == jitems_tail(items, idx, ind),
    ensures
        jparse_items(s, i) == Some((items.skip(idx), i + jitems_tail(items, idx, ind).len())),
    decreases items, items.len() - idx,
{
    let tl = jitems_tail(items, idx, ind);
    let ej = jenc(items[idx], ind);
    let wseq = seq!['\n'] + spaces(2 * ind);
    let wi = 1 + 2 * ind;
    let sep: Seq<char> = if idx + 1 < items.len() {
        seq![',']
    } else {
        Seq::empty()
    };
    let rest: Seq<char> = if idx + 1 < items.len() {
        jitems_tail(items, idx + 1, ind)
    } else {
        seq!['\n'] + spaces(2 * (ind - 1)) + seq![']']
    };
    assert(tl =~= wseq + ej + sep + rest);
    assert(wseq + ej + sep + rest =~= wseq + (ej + (sep + rest)));
    crate::text::lemma_sub_split(s, i, wseq, ej + (sep + rest));
    crate::text::lemma_sub_split(s, i + wi, ej, sep + rest);
    crate::text::lemma_seg_index(s, i, wseq);
    assert forall|m: int| i <= m < i + wi implies is_ws(#[trigger] s[m]) by {
        assert(s[i + (m - i)] == wseq[m - i]);
    }
    let k = i + wi + ej.len();
    crate::text::lemma_seg_index(s, k, sep + rest);
    assert(s[k + 0] == (sep + rest)[0]);
    if idx + 1 < items.len() {
        assert((sep + rest)[0] == ',');
        lemma_jenc_parse(items[idx], ind, s, i, wi);
        assert(at_least(i + 1, k) == k);
        crate::text::lemma_skip_ws_run(s, k, k);
        crate::text::lemma_sub_split(s, k, sep, rest);
        lemma_jitems_parse(items, idx + 1, ind, s, k + 1);
        assert(seq![items[idx]] + items.skip(idx + 1) =~= items.skip(idx));
    } else {
        assert((sep + rest)[0] == '\n');
        lemma_jenc_parse(items[idx], ind, s, i, wi);
        assert(at_least(i + 1, k) == k);
        let wc = 1 + 2 * (ind - 1);
        assert forall|m: int| k <= m < k + wc implies is_ws(#[trigger] s[m]) by {
            assert(s[k + (m - k)] == (sep + rest)[m - k]);
            if m > k {
                assert((sep + rest)[m - k] == spaces(2 * (ind - 1))[m - k - 1]);
            }
        }
        assert(s[k + wc] == (sep + rest)[wc]);
        assert((sep + rest)[wc] == ']');
        crate::text::lemma_skip_ws_run(s, k, k + wc);
        assert(seq![items[idx]] =~= items.skip(idx));
    }
}

/// The encoded entries of a mapping, from `idx` on, parse back to
/// exactly those entries.
#[verifier::rlimit(100)]
pub proof fn lemma_jentries_parse(
    entries: Seq<(Seq<char>, Doc)>,
    idx: int,
    ind: int,
    s: Seq<char>,
    i: int,
)
    requires
        0 <= idx < entries.len(),
        1 <= ind,
        0 <= i,
        forall|t: int| 0 <= t < entries.len() ==> crate::value::wf(#[trigger] entries[t].1),
        i + jentries_tail(entries, idx, ind).len() <= s.len(),
        s.subrange(i, i + jentries_tail(entries, idx, ind).len()) == jentries_tail(
            entries,
            idx,
            ind,
        ),
    ensures
        jparse_entries(s, i) == Some(
            (entries.skip(idx), i + jentries_tail(entries, idx, ind).len()),
        ),
    decreases entries, entries.len() - idx,
{
    let tl = jentries_tail(entries, idx, ind);
    let key = entries[idx].0;
    let qk = quoted_text(key);
    let ej = jenc(entries[idx].1, ind);
    let wseq = seq!['\n'] + spaces(2 * ind);
    let wi = 1 + 2 * ind;
    let sep: Seq<char> = if idx + 1 < entries.len() {
        seq![',']
    } else {
        Seq::empty()
    };
    let rest: Seq<char> = if idx + 1 < entries.len() {
        jentries_tail(entries, idx + 1, ind)
    } else {
        seq!['\n'] + spaces(2 * (ind - 1)) + seq!['}']
    };
    assert(tl =~= wseq + qk + seq![':', ' '] + ej + sep + rest);
    assert(wseq + qk + seq![':', ' '] + ej + sep + rest =~= wseq + (qk + (seq![':', ' '] + (ej + (
    sep + rest)))));
    crate::text::lemma_sub_split(s, i, wseq, qk + (seq![':', ' '] + (ej + (sep + rest))));
    let jq = i + wi;
    crate::text::lemma_sub_split(s, jq, qk, seq![':', ' '] + (ej + (sep + rest)));
    let r = jq + qk.len();
    crate::text::lemma_sub_split(s, r, seq![':', ' '], ej + (sep + rest));
    crate::text::lemma_sub_split(s, r + 2, ej, sep + rest);
    let k = r + 2 + ej.len();
    crate::text::lemma_seg_index(s, i, wseq);
    assert forall|m: int| i <= m < i + wi implies is_ws(#[trigger] s[m]) by {
        assert(s[i + (m - i)] == wseq[m - i]);
    }
    crate::text::lemma_quoted_round_trip(key, s, jq);
    crate::text::lemma_skip_ws_run(s, i, jq);
    assert(at_least(i, skip_ws(s, i)) == jq);
    crate::text::lemma_seg_index(s, r, seq![':', ' ']);
    assert(s[r + 0] == ':');
    assert(s[r + 1] == ' ');
    crate::text::lemma_skip_ws_run(s, r, r);
    assert(at_least(jq + 2, jq + qk.len()) == r);
    crate::text::lemma_seg_index(s, k, sep + rest);
    assert(s[k + 0] == (sep + rest)[0]);
    lemma_jenc_parse(entries[idx].1, ind, s, r + 1, 1);
    assert(at_least(r + 2, k) == k);
    if idx + 1 < entries.len() {
        assert((sep + rest)[0] == ',');
        crate::text::lemma_skip_ws_run(s, k, k);
        crate::text::lemma_sub_split(s, k, sep, rest);
        lemma_jentries_parse(entries, idx + 1, ind, s, k + 1);
        assert((entries[idx].0, entries[idx].1) == entries[idx]);
        assert(seq![entries[idx]] + entries.skip(idx + 1) =~= entries.skip(idx));
    } else {
        assert((sep + rest)[0] == '\n');
        let wc = 1 + 2 * (ind - 1);
        assert forall|m: int| k <= m < k + wc implies is_ws(#[trigger] s[m]) by {
            assert(s[k + (m - k)] == (sep + rest)[m - k]);
            if m > k {
                assert((sep + rest)[m - k] == spaces(2 * (ind - 1))[m - k - 1]);
            }
        }
        assert(s[k + wc] == (sep + rest)[wc]);
        assert((sep + rest)[wc] == '}');
        crate::text::lemma_skip_ws_run(s, k, k + wc);
        assert((entries[idx].0, entries[idx].1) == entries[idx]);
        assert(seq![entries[idx]] =~= entries.skip(idx));
    }
}

/// Round trip: the canonical text of a well-formed document decodes to
/// exactly that document.
pub proof fn lemma_json_round_trip(d: Doc)
    requires
        crate::value::wf(d),
    ensures
        jparse_doc(json_text(d)) == Some(d),
{
    let s = json_text(d);
    let ln = jenc(d, 0).len() as int;
    assert(s.subrange(0, ln) =~= jenc(d, 0));
    lemma_jenc_parse(d, 0, s, 0, 0);
    assert(s[ln] == '\n');
    crate::text::lemma_skip_ws_run(s, ln, s.len() as int);
}

/// Parse a whole document: one value, then only whitespace to the end.
pub open spec fn jparse_doc(s: Seq<char>) -> Option<Doc> {
    match jparse_value(s, 0) {
        Some((d, k)) => if 0 <= k <= s.len() && skip_ws(s, k) == s.len() {
            Some(d)
        } else {
            None
        },
        None => None,
    }
}

// ------------------------------------------------------------ exec layer

pub(crate) fn is_ws_x(c: char) -> (r: bool)
    ensures
        r == is_ws(c),
{
    c == ' ' || c == '\n' || c == '\t' || c == '\r'
}

pub(crate) fn is_digit_x(c: char) -> (r: bool)
    ensures
        r == is_digit(c),
{
    c >= '0' && c <= '9'
}

pub(crate) fn is_hex_x(c: char) -> (r: bool)
    ensures
        r == crate::text::is_hex(c),
{
    (c >= '0' && c <= '9') || (c >= 'a' && c <= 'f') || (c >= 'A' && c <= 'F')
}

pub(crate) fn hex_val_x(c: char) -> (r: u32)
    requires
        crate::text::is_hex(c),
    ensures
        r as int == crate::text::hex_val(c),
        r < 16,
{
    if c >= '0' && c <= '9' {
        c as u32 - 48
    } else if c >= 'a' && c <= 'f' {
        c as u32 - 'a' as u32 + 10
    } else {
        c as u32 - 'A' as u32 + 10
    }
}

pub(crate) fn skip_ws_x(s: &Vec<char>, i: usize) -> (r: usize)
    requires
        i <= s.len(),
    ensures
        r as int == skip_ws(s@, i as int),
        i <= r <= s.len(),
{
    let mut j = i;
    while j < s.len() && is_ws_x(s[j])
        invariant
            i <= j <= s.len(),
            skip_ws(s@, i as int) == skip_ws(s@, j as int),
        decreases s.len() - j,
    {
        j = j + 1;
    }
    j
}

/// Copy `src` onto the end of `out`.
pub(crate) fn push_all(out: &mut Vec<char>, src: &Vec<char>)
    ensures
        final(out)@ == old(out)@ + src@,
{
    let mut k: usize = 0;
    while k < src.len()
        invariant
            0 <= k <= src.len(),
            out@ == old(out)@ + src@.take(k as int),
        decreases src.len() - k,
    {
        out.push(src[k]);
        proof {
            assert(src@.take(k + 1) =~= src@.take(k as int).push(src@[k as int]));
            assert(old(out)@ + src@.take(k as int).push(src@[k as int]) =~= (old(out)@
                + src@.take(k as int)).push(src@[k as int]));
        }
        k = k + 1;
    }
    proof {
        assert(src@.take(src@.len() as int) =~= src@);
    }
}

pub(crate) fn parse_quoted_x(s: &Vec<char>, i: usize) -> (r: Result<
    (Vec<char>, usize),
    ParseError,
>)
    requires
        i <= s.len(),
    ensures
        match r {
            Ok(p) => parse_quoted(s@, i as int) == Some((p.0@, p.1 as int)) && i < p.1 <= s.len(),
            Err(_) => parse_quoted(s@, i as int) is None,
        },
{
    let mut out: Vec<char> = Vec::new();
    let mut j = i;
    loop
        invariant
            i <= j <= s.len(),
            forall|c2: Seq<char>, e: int|
                parse_quoted(s@, j as int) == Some((c2, e)) ==> parse_quoted(s@, i as int)
                    == Some((out@ + c2, e)),
            parse_quoted(s@, j as int) is None ==> parse_quoted(s@, i as int) is None,
        decreases s.len() - j,
    {
        if j >= s.len() {
            return Err(ParseError { kind: ParseErrorKind::UnexpectedEnd, pos: j });
        }
        let c = s[j];
        if c == '"' {
            proof {
                assert(out@ + Seq::<char>::empty() =~= out@);
                crate::text::lemma_parse_quoted_bounds(s@, i as int);
            }
            return Ok((out, j + 1));
        } else if c == '\\' {
            if j + 1 < s.len() {
                let e = s[j + 1];
                if e == 'u' {
                    if s.len() - j >= 6 && is_hex_x(s[j + 2]) && is_hex_x(s[j + 3]) && is_hex_x(
                        s[j + 4],
                    ) && is_hex_x(s[j + 5]) {
                        let code: u32 = hex_val_x(s[j + 2]) * 4096 + hex_val_x(s[j + 3]) * 256
                            + hex_val_x(s[j + 4]) * 16 + hex_val_x(s[j + 5]);
                        proof {
                            assert(code as int == crate::text::hex4_val(s@, j + 2));
                        }
                        if code < 0xD800 || code >= 0xE000 {
                            let u = crate::text::char_from_code(code);
                            let ghost out0 = out@;
                            out.push(u);
                            proof {
                                assert forall|c2: Seq<char>, e2: int|
                                    parse_quoted(s@, j + 6) == Some((c2, e2)) implies parse_quoted(
                                    s@,
                                    i as int,
                                ) == Some((out@ + c2, e2)) by {
                                    assert(parse_quoted(s@, j as int) == Some(
                                        (seq![
                                            crate::text::code_char(
                                                crate::text::hex4_val(s@, j + 2),
                                            ),
                                        ] + c2, e2),
                                    ));
                                    assert(out0 + (seq![u] + c2) =~= out0.push(u) + c2);
                                }
                            }
                            j = j + 6;
                        } else {
                            return Err(
                                ParseError { kind: ParseErrorKind::BadEscape, pos: j },
                            );
                        }
                    } else {
                        return Err(ParseError { kind: ParseErrorKind::BadEscape, pos: j });
                    }
                } else if e == '"' || e == '\\' || e == '/' || e == 'n' || e == 't' || e == 'r'
                    || e == 'b' || e == 'f' {
                    let u = if e == 'n' {
                        '\n'
                    } else if e == 't' {
                        '\t'
                    } else if e == 'r' {
                        '\r'
                    } else if e == 'b' {
                        '\u{8}'
                    } else if e == 'f' {
                        '\u{c}'
                    } else {
                        e
                    };
                    let ghost out0 = out@;
                    out.push(u);
                    proof {
                        assert forall|c2: Seq<char>, e2: int|
                            parse_quoted(s@, j + 2) == Some((c2, e2)) implies parse_quoted(
                            s@,
                            i as int,
                        ) == Some((out@ + c2, e2)) by {
                            assert(parse_quoted(s@, j as int) == Some(
                                (seq![crate::text::unescaped(s@[j as int + 1])] + c2, e2),
                            ));
                            assert(out0 + (seq![u] + c2) =~= out0.push(u) + c2);
                        }
                    }
                    j = j + 2;
                } else {
                    return Err(ParseError { kind: ParseErrorKind::BadEscape, pos: j });
                }
            } else {
                return Err(ParseError { kind: ParseErrorKind::BadEscape, pos: j });
            }
        } else if c == '\n' {
            return Err(ParseError { kind: ParseErrorKind::BadValue, pos: j });
        } else {
            let ghost out0 = out@;
            out.push(c);
            proof {
                assert forall|c2: Seq<char>, e2: int|
                    parse_quoted(s@, j + 1) == Some((c2, e2)) implies parse_quoted(s@, i as int)
                        == Some((out@ + c2, e2)) by {
                    assert(parse_quoted(s@, j as int) == Some((seq![s@[j as int]] + c2, e2)));
                    assert(out0 + (seq![c] + c2) =~= out0.push(c) + c2);
                }
            }
            j = j + 1;
        }
    }
}

pub(crate) fn digits_end_x(s: &Vec<char>, i: usize) -> (r: usize)
    requires
        i <= s.len(),
    ensures
        r as int == digits_end(s@, i as int),
        i <= r <= s.len(),
{
    let mut j = i;
    while j < s.len() && is_digit_x(s[j])
        invariant
            i <= j <= s.len(),
            digits_end(s@, i as int) == digits_end(s@, j as int),
        decreases s.len() - j,
    {
        j = j + 1;
    }
    j
}

#[verifier::rlimit(100)]
#[verifier::spinoff_prover]
pub(crate) fn jparse_number_x(s: &Vec<char>, i: usize) -> (r: Result<(Value, usize), ParseError>)
    requires
        i < s.len(),
    ensures
        match r {
            Ok(p) => jparse_number(s@, i as int) == Some((p.0@, p.1 as int)) && i < p.1 <= s.len(),
            Err(_) => jparse_number(s@, i as int) is None,
        },
{
    let neg = s[i] == '-';
    let a = if neg {
        i + 1
    } else {
        i
    };
    let b = digits_end_x(s, a);
    proof {
        lemma_digits_end(s@, a as int);
    }
    if b <= a {
        return Err(ParseError { kind: ParseErrorKind::BadNumber, pos: i });
    }
    let ghost tk = s@.subrange(a as int, b as int);
    proof {
        assert(tk[0] == s@[a as int]);
        assert(crate::text::all_digits(tk)) by {
            assert(forall|q: int| 0 <= q < tk.len() ==> tk[q] == s@[a + q]);
        }
    }
    if s[a] == '0' && b - a > 1 {
        return Err(ParseError { kind: ParseErrorKind::BadNumber, pos: i });
    }
    proof {
        crate::text::lemma_digits_val_bounds(tk);
        crate::text::lemma_pow10_vals();
    }
    if b - a > 19 {
        proof {
            assert(crate::text::digits_val(tk) >= crate::text::pow10((tk.len() - 1) as nat));
            crate::text::lemma_pow10_mono(19, (tk.len() - 1) as nat);
        }
        return Err(ParseError { kind: ParseErrorKind::BadNumber, pos: i });
    }
    let mut acc: u64 = 0;
    let mut m = a;
    while m < b
        invariant
            a <= m <= b,
            b <= s.len(),
            b - a <= 19,
            tk == s@.subrange(a as int, b as int),
            crate::text::all_digits(tk),
            acc as int == crate::text::digits_val(s@.subrange(a as int, m as int)),
            (acc as int) < crate::text::pow10((m - a) as nat),
        decreases b - m,
    {
        proof {
            crate::text::lemma_pow10_vals();
            crate::text::lemma_pow10_mono((m - a) as nat, 18);
        }
        let c = s[m];
        proof {
            assert(tk[m - a] == s@[m as int]);
            assert(is_digit(c));
            assert('0' as u32 == 48);
        }
        let d: u64 = (c as u32 - '0' as u32) as u64;
        let ghost pre = s@.subrange(a as int, m as int);
        let ghost cur = s@.subrange(a as int, m + 1);
        acc = acc * 10 + d;
        proof {
            assert(cur.take(cur.len() - 1) =~= pre);
            assert(cur[cur.len() - 1] == s@[m as int]);
            assert(crate::text::digit_val(s@[m as int]) == d);
            assert(crate::text::digits_val(cur) == crate::text::digits_val(pre) * 10 + d);
        }
        m = m + 1;
    }
    proof {
        assert(s@.subrange(a as int, b as int) =~= tk);
        assert(acc as int == crate::text::digits_val(tk));
    }
    if neg {
        if acc > 9223372036854775808u64 {
            return Err(ParseError { kind: ParseErrorKind::BadNumber, pos: i });
        }
        let v: i64 = if acc == 9223372036854775808u64 {
            i64::MIN
        } else {
            -(acc as i64)
        };
        Ok((Value::Int(v), b))
    } else {
        if acc > 9223372036854775807u64 {
            return Err(ParseError { kind: ParseErrorKind::BadNumber, pos: i });
        }
        Ok((Value::Int(acc as i64), b))
    }
}

pub(crate) fn unique_keys_x(entries: &Vec<(String, Value)>) -> (r: bool)
    ensures
        r == unique_keys(dict_model(entries@, 0)),
{
    proof {
        lemma_dict_model(entries@, 0);
    }
    let ghost dm = dict_model(entries@, 0);
    let mut a: usize = 0;
    while a < entries.len()
        invariant
            0 <= a <= entries.len(),
            dm == dict_model(entries@, 0),
            dm.len() == entries@.len(),
            forall|x: int, y: int|
                0 <= x < y < dm.len() && x < a ==> #[trigger] dm[x].0 != #[trigger] dm[y].0,
        decreases entries.len() - a,
    {
        let mut b2: usize = a + 1;
        while b2 < entries.len()
            invariant
                0 <= a < entries.len(),
                a + 1 <= b2 <= entries.len(),
                dm == dict_model(entries@, 0),
                dm.len() == entries@.len(),
                forall|y: int| a < y < b2 ==> dm[a as int].0 != #[trigger] dm[y].0,
            decreases entries.len() - b2,
        {
            proof {
                lemma_dict_model(entries@, 0);
                assert(dm[a as int] == (entries@[a as int].0@, value_model(entries@[a as int].1)));
                assert(dm[b2 as int] == (entries@[b2 as int].0@, value_model(
                    entries@[b2 as int].1,
                )));
            }
            if entries[a].0 == entries[b2].0 {
                proof {
                    assert(dm[a as int].0 == dm[b2 as int].0);
                    assert(!unique_keys(dm));
                }
                return false;
            }
            b2 = b2 + 1;
        }
        a = a + 1;
    }
    proof {
        assert(unique_keys(dm));
    }
    true
}

pub(crate) fn jparse_value_x(s: &Vec<char>, i: usize) -> (r: Result<(Value, usize), ParseError>)
    requires
        i <= s.len(),
    ensures
        match r {
            Ok(p) => jparse_value(s@, i as int) == Some((p.0@, p.1 as int)) && i < p.1 <= s.len(),
            Err(_) => jparse_value(s@, i as int) is None,
        },
    decreases s.len() - i, 2int,
{
    proof {
        crate::text::lemma_skip_ws_bounds(s@, i as int);
        lemma_jparse_value_ok(s@, i as int);
    }
    let j = skip_ws_x(s, i);
    proof {
        assert(at_least(i as int, skip_ws(s@, i as int)) == j as int);
    }
    if j >= s.len() {
        return Err(ParseError { kind: ParseErrorKind::UnexpectedEnd, pos: j });
    }
    let c = s[j];
    if c == 'n' {
        if s.len() - j >= 4 && s[j + 1] == 'u' && s[j + 2] == 'l' && s[j + 3] == 'l' {
            Ok((Value::Null, j + 4))
        } else {
            Err(ParseError { kind: ParseErrorKind::BadValue, pos: j })
        }
    } else if c == 't' {
        if s.len() - j >= 4 && s[j + 1] == 'r' && s[j + 2] == 'u' && s[j + 3] == 'e' {
            Ok((Value::Bool(true), j + 4))
        } else {
            Err(ParseError { kind: ParseErrorKind::BadValue, pos: j })
        }
    } else if c == 'f' {
        if s.len() - j >= 5 && s[j + 1] == 'a' && s[j + 2] == 'l' && s[j + 3] == 's' && s[j + 4]
            == 'e' {
            Ok((Value::Bool(false), j + 5))
        } else {
            Err(ParseError { kind: ParseErrorKind::BadValue, pos: j })
        }
    } else if c == '"' {
        match parse_quoted_x(s, j + 1) {
            Ok((cv, k)) => Ok((Value::Str(crate::text::chars_to_string(&cv)), k)),
            Err(e) => Err(e),
        }
    } else if c == '-' || is_digit_x(c) {
        jparse_number_x(s, j)
    } else if c == '[' {
        proof {
            crate::text::lemma_skip_ws_bounds(s@, j as int + 1);
        }
        let j2 = skip_ws_x(s, j + 1);
        proof {
            assert(at_least(j as int + 1, skip_ws(s@, j as int + 1)) == j2 as int);
        }
        if j2 < s.len() && s[j2] == ']' {
            let vs: Vec<Value> = Vec::new();
            proof {
                assert(list_model(vs@, 0) =~= Seq::<Doc>::empty());
            }
            Ok((Value::List(vs), j2 + 1))
        } else {
            match jparse_items_x(s, j + 1) {
                Ok((vs, e2)) => Ok((Value::List(vs), e2)),
                Err(e) => Err(e),
            }
        }
    } else if c == '{' {
        proof {
            crate::text::lemma_skip_ws_bounds(s@, j as int + 1);
        }
        let j2 = skip_ws_x(s, j + 1);
        proof {
            assert(at_least(j as int + 1, skip_ws(s@, j as int + 1)) == j2 as int);
        }
        if j2 < s.len() && s[j2] == '}' {
            let es: Vec<(String, Value)> = Vec::new();
            proof {
                assert(dict_model(es@, 0) =~= Seq::<(Seq<char>, Doc)>::empty());
            }
            Ok((Value::Dict(es), j2 + 1))
        } else {
            match jparse_entries_x(s, j + 1) {
                Ok((es, e2)) => {
                    if unique_keys_x(&es) {
                        Ok((Value::Dict(es), e2))
                    } else {
                        Err(ParseError { kind: ParseErrorKind::DuplicateKey, pos: j })
                    }
                },
                Err(e) => Err(e),
            }
        }
    } else {
        Err(ParseError { kind: ParseErrorKind::BadValue, pos: j })
    }
}

pub(crate) fn jparse_items_x(s: &Vec<char>, i: usize) -> (r: Result<
    (Vec<Value>, usize),
    ParseError,
>)
    requires
        i <= s.len(),
    ensures
        match r {
            Ok(p) => jparse_items(s@, i as int) == Some((list_model(p.0@, 0), p.1 as int)) && i
                < p.1 <= s.len(),
            Err(_) => jparse_items(s@, i as int) is None,
        },
    decreases s.len() - i, 3int,
{
    proof {
        lemma_jparse_value_ok(s@, i as int);
    }
    match jparse_value_x(s, i) {
        Err(e) => Err(e),
        Ok((v, k)) => {
            proof {
                assert(at_least(i as int + 1, k as int) == k as int);
                crate::text::lemma_skip_ws_bounds(s@, k as int);
            }
            let m = skip_ws_x(s, k);
            proof {
                assert(at_least(k as int, skip_ws(s@, k as int)) == m as int);
            }
            if m >= s.len() {
                Err(ParseError { kind: ParseErrorKind::UnexpectedEnd, pos: m })
            } else if s[m] == ',' {
                match jparse_items_x(s, m + 1) {
                    Err(e) => Err(e),
                    Ok((vs, e2)) => {
                        let ghost vs0 = vs@;
                        let mut vs2 = vs;
                        vs2.insert(0, v);
                        proof {
                            assert(vs2@ =~= seq![v] + vs0);
                            lemma_list_model_cons(v, vs0);
                        }
                        Ok((vs2, e2))
                    },
                }
            } else if s[m] == ']' {
                let mut vs2: Vec<Value> = Vec::new();
                vs2.push(v);
                proof {
                    assert(vs2@ =~= seq![v] + Seq::<Value>::empty());
                    lemma_list_model_cons(v, Seq::<Value>::empty());
                    assert(seq![value_model(v)] + list_model(Seq::<Value>::empty(), 0) =~= seq![
                        value_model(v),
                    ]);
                }
                Ok((vs2, m + 1))
            } else {
                Err(ParseError { kind: ParseErrorKind::BadValue, pos: m })
            }
        },
    }
}

pub(crate) fn jparse_entries_x(s: &Vec<char>, i: usize) -> (r: Result<
    (Vec<(String, Value)>, usize),
    ParseError,
>)
    requires
        i <= s.len(),
    ensures
        match r {
            Ok(p) => jparse_entries(s@, i as int) == Some((dict_model(p.0@, 0), p.1 as int)) && i
                < p.1 <= s.len(),
            Err(_) => jparse_entries(s@, i as int) is None,
        },
    decreases s.len() - i, 3int,
{
    proof {
        crate::text::lemma_skip_ws_bounds(s@, i as int);
        lemma_jparse_entries_ok(s@, i as int);
    }
    let j = skip_ws_x(s, i);
    proof {
        assert(at_least(i as int, skip_ws(s@, i as int)) == j as int);
    }
    if j >= s.len() {
        return Err(ParseError { kind: ParseErrorKind::UnexpectedEnd, pos: j });
    }
    if s[j] != '"' {
        return Err(ParseError { kind: ParseErrorKind::BadKey, pos: j });
    }
    match parse_quoted_x(s, j + 1) {
        Err(e) => Err(e),
        Ok((kv, q)) => {
            proof {
                assert(at_least(j as int + 2, q as int) == q as int);
                crate::text::lemma_skip_ws_bounds(s@, q as int);
            }
            let r2 = skip_ws_x(s, q);
            proof {
                assert(at_least(q as int, skip_ws(s@, q as int)) == r2 as int);
            }
            if r2 >= s.len() {
                return Err(ParseError { kind: ParseErrorKind::UnexpectedEnd, pos: r2 });
            }
            if s[r2] != ':' {
                return Err(ParseError { kind: ParseErrorKind::BadKey, pos: r2 });
            }
            proof {
                lemma_jparse_value_ok(s@, r2 as int + 1);
            }
            match jparse_value_x(s, r2 + 1) {
                Err(e) => Err(e),
                Ok((v, k)) => {
                    proof {
                        assert(at_least(r2 as int + 2, k as int) == k as int);
                        crate::text::lemma_skip_ws_bounds(s@, k as int);
                    }
                    let m = skip_ws_x(s, k);
                    proof {
                        assert(at_least(k as int, skip_ws(s@, k as int)) == m as int);
                    }
                    if m >= s.len() {
                        Err(ParseError { kind: ParseErrorKind::UnexpectedEnd, pos: m })
                    } else if s[m] == ',' {
                        match jparse_entries_x(s, m + 1) {
                            Err(e) => Err(e),
                            Ok((es, e2)) => {
                                let key = crate::text::chars_to_string(&kv);
                                let ghost es0 = es@;
                                let ghost keyg = key;
                                let mut es2 = es;
                                es2.insert(0, (key, v));
                                proof {
                                    assert(es2@ =~= seq![(keyg, v)] + es0);
                                    lemma_dict_model_cons(keyg, v, es0);
                                }
                                Ok((es2, e2))
                            },
                        }
                    } else if s[m] == '}' {
                        let key = crate::text::chars_to_string(&kv);
                        let ghost keyg = key;
                        let mut es2: Vec<(String, Value)> = Vec::new();
                        es2.push((key, v));
                        proof {
                            assert(es2@ =~= seq![(keyg, v)] + Seq::<(String, Value)>::empty());
                            lemma_dict_model_cons(keyg, v, Seq::<(String, Value)>::empty());
                            assert(seq![(keyg@, value_model(v))] + dict_model(
                                Seq::<(String, Value)>::empty(),
                                0,
                            ) =~= seq![(keyg@, value_model(v))]);
                        }
                        Ok((es2, m + 1))
                    } else {
                        Err(ParseError { kind: ParseErrorKind::BadValue, pos: m })
                    }
                },
            }
        },
    }
}

/// Decode a bracketed-format document into a value tree.  Succeeds on
/// exactly the texts the document grammar accepts, and then returns the
/// tree the grammar gives.
pub fn parse_json(s: &str) -> (r: Result<Value, ParseError>)
    ensures
        match r {
            Ok(v) => jparse_doc(s@) == Some(v@),
            Err(_) => jparse_doc(s@) is None,
        },
{
    let chars = crate::text::to_chars(s);
    proof {
        lemma_jparse_value_ok(chars@, 0);
    }
    match jparse_value_x(&chars, 0) {
        Err(e) => Err(e),
        Ok((v, k)) => {
            let m = skip_ws_x(&chars, k);
            if m == chars.len() {
                Ok(v)
            } else {
                Err(ParseError { kind: ParseErrorKind::TrailingContent, pos: m })
            }
        },
    }
}

// ---------------------------------------------------------- exec encode

pub(crate) fn digit_char_x(d: u64) -> (r: char)
    requires
        d < 10,
    ensures
        r == crate::text::digit_char(d as int),
{
    if d == 0 {
        '0'
    } else if d == 1 {
        '1'
    } else if d == 2 {
        '2'
    } else if d == 3 {
        '3'
    } else if d == 4 {
        '4'
    } else if d == 5 {
        '5'
    } else if d == 6 {
        '6'
    } else if d == 7 {
        '7'
    } else if d == 8 {
        '8'
    } else {
        '9'
    }
}

/// Write the canonical decimal text of `n` onto `out`.
pub(crate) fn enc_int_x(n: i64, out: &mut Vec<char>)
    ensures
        final(out)@ == old(out)@ + int_text(n as int),
{
    let mag: u64 = if n < 0 {
        (-(n as i128)) as u64
    } else {
        n as u64
    };
    proof {
        assert(mag as int == if n < 0 {
            -(n as int)
        } else {
            n as int
        });
    }
    if n < 0 {
        out.push('-');
    }
    let ghost base = out@;
    let mut rev: Vec<char> = Vec::new();
    let ghost mut digs: Seq<char> = Seq::empty();
    let mut m = mag;
    proof {
        if mag > 0 {
            assert(crate::text::dec_digits(mag as nat) + Seq::<char>::empty()
                =~= crate::text::dec_digits(mag as nat));
        }
    }
    loop
        invariant_except_break
            (m > 0 && crate::text::dec_digits(mag as nat) == crate::text::dec_digits(m as nat)
                + digs) || (m == 0 && mag == 0 && digs.len() == 0),
            rev@.len() == digs.len(),
            forall|k: int| 0 <= k < rev@.len() ==> #[trigger] rev@[k] == digs[digs.len() - 1 - k],
            out@ == base,
        ensures
            digs.len() >= 1,
            crate::text::dec_digits(mag as nat) == digs,
            rev@.len() == digs.len(),
            forall|k: int| 0 <= k < rev@.len() ==> #[trigger] rev@[k] == digs[digs.len() - 1 - k],
            out@ == base,
        decreases m,
    {
        let d = m % 10;
        let c = digit_char_x(d);
        let ghost digs_old = digs;
        let ghost m_old = m;
        rev.push(c);
        proof {
            digs = seq![c] + digs_old;
        }
        m = m / 10;
        proof {
            vstd::arithmetic::div_mod::lemma_fundamental_div_mod(m_old as int, 10);
            if m_old < 10 {
                assert(m_old % 10 == m_old);
                assert(c == crate::text::digit_char(m_old as int));
                assert(crate::text::dec_digits(m_old as nat) == seq![c]);
            }
            if m_old == 0 {
                assert(crate::text::dec_digits(mag as nat) == seq![c]);
                assert(seq![c] + digs_old =~= seq![c]);
            } else if m_old < 10 {
                assert(crate::text::dec_digits(m_old as nat) + digs_old =~= seq![c] + digs_old);
            } else {
                assert(crate::text::dec_digits(m_old as nat) == crate::text::dec_digits(
                    (m_old / 10) as nat,
                ) + seq![c]);
                assert((crate::text::dec_digits((m_old / 10) as nat) + seq![c]) + digs_old
                    =~= crate::text::dec_digits((m_old / 10) as nat) + (seq![c] + digs_old));
            }
            assert forall|k: int| 0 <= k < rev@.len() implies #[trigger] rev@[k] == digs[digs.len()
                - 1 - k] by {
                if k < rev@.len() - 1 {
                    assert(rev@[k] == digs_old[digs_old.len() - 1 - k]);
                    assert(digs[digs.len() - 1 - k] == digs_old[digs_old.len() - 1 - k]);
                }
            }
        }
        if m == 0 {
            break;
        }
    }
    let mut tpos: usize = 0;
    while tpos < rev.len()
        invariant
            0 <= tpos <= rev.len(),
            rev@.len() == digs.len(),
            crate::text::dec_digits(mag as nat) == digs,
            forall|k: int| 0 <= k < rev@.len() ==> #[trigger] rev@[k] == digs[digs.len() - 1 - k],
            out@ == base + digs.take(tpos as int),
        decreases rev.len() - tpos,
    {
        let c = rev[rev.len() - 1 - tpos];
        out.push(c);
        proof {
            assert(c == digs[tpos as int]);
            assert(digs.take(tpos + 1) =~= digs.take(tpos as int).push(digs[tpos as int]));
            assert((base + digs.take(tpos as int)).push(digs[tpos as int]) =~= base + digs.take(
                tpos + 1,
            ));
        }
        tpos = tpos + 1;
    }
    proof {
        assert(digs.take(digs.len() as int) =~= digs);
        if n < 0 {
            assert(old(out)@ + int_text(n as int) =~= (old(out)@ + seq!['-'])
                + crate::text::dec_digits(mag as nat));
        }
    }
}

/// Write the canonical quoted form of `s` onto `out`.
pub(crate) fn enc_quoted_x(s: &str, out: &mut Vec<char>)
    ensures
        final(out)@ == old(out)@ + quoted_text(s@),
{
    let n = s.unicode_len();
    out.push('"');
    proof {
        assert(old(out)@ + quoted_text(s@) =~= (old(out)@.push('"')) + crate::text::esc_text(
            s@,
            0,
        ) + seq!['"']);
    }
    let mut i: usize = 0;
    while i < n
        invariant
            n == s@.len(),
            0 <= i <= n,
            out@ + crate::text::esc_text(s@, i as int) + seq!['"'] == old(out)@ + quoted_text(s@),
        decreases n - i,
    {
        let c = s.get_char(i);
        let ghost pre = out@;
        if c == '"' {
            out.push('\\');
            out.push('"');
        } else if c == '\\' {
            out.push('\\');
            out.push('\\');
        } else if c == '\n' {
            out.push('\\');
            out.push('n');
        } else if c == '\t' {
            out.push('\\');
            out.push('t');
        } else if c == '\r' {
            out.push('\\');
            out.push('r');
        } else {
            out.push(c);
        }
        proof {
            assert(out@ =~= pre + crate::text::esc_char(s@[i as int]));
            assert(crate::text::esc_text(s@, i as int) == crate::text::esc_char(s@[i as int])
                + crate::text::esc_text(s@, i + 1));
            assert((pre + crate::text::esc_char(s@[i as int])) + crate::text::esc_text(s@, i + 1)
                + seq!['"'] =~= pre + crate::text::esc_text(s@, i as int) + seq!['"']);
        }
        i = i + 1;
    }
    out.push('"');
    proof {
        assert(crate::text::esc_text(s@, n as int) =~= Seq::<char>::empty());
        assert(old(out)@ + quoted_text(s@) =~= (old(out)@ + quoted_text(s@).take(
            quoted_text(s@).len() - 1,
        )).push('"'));
        assert(out@ =~= old(out)@ + quoted_text(s@));
    }
}

/// Write the canonical text of `v` at depth `ind` onto `out`, using
/// `pad`, which holds the indentation spaces for this depth.
#[verifier::rlimit(100)]
#[verifier::loop_isolation(false)]
pub(crate) fn jenc_x(v: &Value, pad: &mut Vec<char>, out: &mut Vec<char>, Ghost(ind): Ghost<int>)
    requires
        ind >= 0,
        old(pad)@ == spaces(2 * ind),
    ensures
        final(out)@ == old(out)@ + jenc(v@, ind),
        final(pad)@ == old(pad)@,
    decreases v,
{
    match v {
        Value::Null => {
            out.push('n');
            out.push('u');
            out.push('l');
            out.push('l');
            proof {
                assert(out@ =~= old(out)@ + jenc(v@, ind));
            }
        },
        Value::Bool(bv) => {
            if *bv {
                out.push('t');
                out.push('r');
                out.push('u');
                out.push('e');
            } else {
                out.push('f');
                out.push('a');
                out.push('l');
                out.push('s');
                out.push('e');
            }
            proof {
                assert(out@ =~= old(out)@ + jenc(v@, ind));
            }
        },
        Value::Int(n) => {
            enc_int_x(*n, out);
        },
        Value::Str(sv) => {
            enc_quoted_x(sv.as_str(), out);
        },
        Value::List(items) => {
            if items.len() == 0 {
                out.push('[');
                out.push(']');
                proof {
                    assert(list_model(items@, 0) =~= Seq::<Doc>::empty());
                    assert(out@ =~= old(out)@ + jenc(v@, ind));
                }
            } else {
                let ghost ms = list_model(items@, 0);
                proof {
                    lemma_list_model(items@, 0);
                }
                out.push('[');
                let ghost outbase = out@;
                pad.push(' ');
                pad.push(' ');
                proof {
                    assert(pad@ =~= spaces(2 * (ind + 1)));
                }
                let mut idx: usize = 0;
                while idx < items.len()
                    invariant
                        0 < items.len() == ms.len(),
                        0 <= idx <= items.len(),
                        ms == list_model(items@, 0),
                        forall|q: int| 0 <= q < ms.len() ==> #[trigger] ms[q] == value_model(
                            items@[q],
                        ),
                        pad@ == spaces(2 * (ind + 1)),
                        ind >= 0,
                        out@ + jenc_items(ms, idx as int, ind + 1) == outbase + jenc_items(
                            ms,
                            0,
                            ind + 1,
                        ),
                    decreases items.len() - idx,
                {
                    let ghost pre = out@;
                    out.push('\n');
                    push_all(out, pad);
                    proof {
                        assert(decreases_to!(*v => (*v)->List_0));
                        assert(decreases_to!(*items => items@));
                        assert(decreases_to!(items@ => items@[idx as int]));
                    }
                    jenc_x(&items[idx], pad, out, Ghost(ind + 1));
                    if idx + 1 < items.len() {
                        out.push(',');
                        proof {
                            assert(out@ =~= pre + (seq!['\n'] + spaces(2 * (ind + 1)) + jenc(
                                ms[idx as int],
                                ind + 1,
                            ) + seq![',']));
                            assert(jenc_items(ms, idx as int, ind + 1) == seq!['\n'] + spaces(
                                2 * (ind + 1),
                            ) + jenc(ms[idx as int], ind + 1) + seq![','] + jenc_items(
                                ms,
                                idx + 1,
                                ind + 1,
                            ));
                            assert(out@ + jenc_items(ms, idx + 1, ind + 1) =~= pre + jenc_items(
                                ms,
                                idx as int,
                                ind + 1,
                            ));
                        }
                    } else {
                        proof {
                            assert(out@ =~= pre + (seq!['\n'] + spaces(2 * (ind + 1)) + jenc(
                                ms[idx as int],
                                ind + 1,
                            ) + Seq::<char>::empty()));
                            assert(jenc_items(ms, idx as int, ind + 1) == seq!['\n'] + spaces(
                                2 * (ind + 1),
                            ) + jenc(ms[idx as int], ind + 1) + Seq::<char>::empty() + jenc_items(
                                ms,
                                idx + 1,
                                ind + 1,
                            ));
                            assert(out@ + jenc_items(ms, idx + 1, ind + 1) =~= pre + jenc_items(
                                ms,
                                idx as int,
                                ind + 1,
                            ));
                        }
                    }
                    idx = idx + 1;
                }
                proof {
                    assert(jenc_items(ms, items@.len() as int, ind + 1) =~= Seq::<char>::empty());
                    assert(out@ + Seq::<char>::empty() =~= out@);
                }
                out.push('\n');
                pad.pop();
                pad.pop();
                proof {
                    assert(pad@ =~= spaces(2 * ind));
                }
                push_all(out, pad);
                out.push(']');
                proof {
                    assert(jenc(v@, ind) == seq!['['] + jenc_items(ms, 0, ind + 1) + seq!['\n']
                        + spaces(2 * ind) + seq![']']);
                    assert(out@ =~= old(out)@ + jenc(v@, ind));
                }
            }
        },
        Value::Dict(entries) => {
            if entries.len() == 0 {
                out.push('{');
                out.push('}');
                proof {
                    assert(dict_model(entries@, 0) =~= Seq::<(Seq<char>, Doc)>::empty());
                    assert(out@ =~= old(out)@ + jenc(v@, ind));
                }
            } else {
                let ghost ms = dict_model(entries@, 0);
                proof {
                    lemma_dict_model(entries@, 0);
                }
                out.push('{');
                let ghost outbase = out@;
                pad.push(' ');
                pad.push(' ');
                proof {
                    assert(pad@ =~= spaces(2 * (ind + 1)));
                }
                let mut idx: usize = 0;
                while idx < entries.len()
                    invariant
                        0 < entries.len() == ms.len(),
                        0 <= idx <= entries.len(),
                        ms == dict_model(entries@, 0),
                        forall|q: int| 0 <= q < ms.len() ==> #[trigger] ms[q] == (
                        entries@[q].0@, value_model(entries@[q].1)),
                        pad@ == spaces(2 * (ind + 1)),
                        ind >= 0,
                        out@ + jenc_entries(ms, idx as int, ind + 1) == outbase + jenc_entries(
                            ms,
                            0,
                            ind + 1,
                        ),
                    decreases entries.len() - idx,
                {
                    let ghost pre = out@;
                    out.push('\n');
                    push_all(out, pad);
                    enc_quoted_x(entries[idx].0.as_str(), out);
                    out.push(':');
                    out.push(' ');
                    proof {
                        assert(decreases_to!(*v => (*v)->Dict_0));
                        assert(decreases_to!(*entries => entries@));
                        assert(decreases_to!(entries@ => entries@[idx as int]));
                        assert(decreases_to!(entries@[idx as int] => entries@[idx as int].1));
                    }
                    jenc_x(&entries[idx].1, pad, out, Ghost(ind + 1));
                    if idx + 1 < entries.len() {
                        out.push(',');
                        proof {
                            assert(out@ =~= pre + (seq!['\n'] + spaces(2 * (ind + 1))
                                + quoted_text(ms[idx as int].0) + seq![':', ' '] + jenc(
                                ms[idx as int].1,
                                ind + 1,
                            ) + seq![',']));
                            assert(jenc_entries(ms, idx as int, ind + 1) == seq!['\n'] + spaces(
                                2 * (ind + 1),
                            ) + quoted_text(ms[idx as int].0) + seq![':', ' '] + jenc(
                                ms[idx as int].1,
                                ind + 1,
                            ) + seq![','] + jenc_entries(ms, idx + 1, ind + 1));
                            assert(out@ + jenc_entries(ms, idx + 1, ind + 1) =~= pre
                                + jenc_entries(ms, idx as int, ind + 1));
                        }
                    } else {
                        proof {
                            assert(out@ =~= pre + (seq!['\n'] + spaces(2 * (ind + 1))
                                + quoted_text(ms[idx as int].0) + seq![':', ' '] + jenc(
                                ms[idx as int].1,
                                ind + 1,
                            ) + Seq::<char>::empty()));
                            assert(jenc_entries(ms, idx as int, ind + 1) == seq!['\n'] + spaces(
                                2 * (ind + 1),
                            ) + quoted_text(ms[idx as int].0) + seq![':', ' '] + jenc(
                                ms[idx as int].1,
                                ind + 1,
                            ) + Seq::<char>::empty() + jenc_entries(ms, idx + 1, ind + 1));
                            assert(out@ + jenc_entries(ms, idx + 1, ind + 1) =~= pre
                                + jenc_entries(ms, idx as int, ind + 1));
                        }
                    }
                    idx = idx + 1;
                }
                proof {
                    assert(jenc_entries(ms, entries@.len() as int, ind + 1) =~= Seq::<
                        char,
                    >::empty());
                    assert(out@ + Seq::<char>::empty() =~= out@);
                }
                out.push('\n');
                pad.pop();
                pad.pop();
                proof {
                    assert(pad@ =~= spaces(2 * ind));
                }
                push_all(out, pad);
                out.push('}');
                proof {
                    assert(jenc(v@, ind) == seq!['{'] + jenc_entries(ms, 0, ind + 1) + seq!['\n']
                        + spaces(2 * ind) + seq!['}']);
                    assert(out@ =~= old(out)@ + jenc(v@, ind));
                }
            }
        },
    }
}

/// Encode a value tree as the canonical bracketed-format document text.
/// Deterministic: the output is a function of the tree alone.
pub fn encode_json(v: &Value) -> (r: String)
    ensures
        r@ == json_text(v@),
{
    let mut out: Vec<char> = Vec::new();
    let mut pad: Vec<char> = Vec::new();
    proof {
        assert(pad@ =~= spaces(0));
    }
    jenc_x(v, &mut pad, &mut out, Ghost(0));
    out.push('\n');
    proof {
        assert(out@ =~= jenc(v@, 0) + seq!['\n']);
    }
    crate::text::chars_to_string(&out)
}

/// Every document the parser returns is well-formed: integers in machine
/// range and mapping keys distinct, throughout the tree.
pub proof fn lemma_jparse_doc_wf(s: Seq<char>)
    ensures
        match jparse_doc(s) {
            Some(d) => crate::value::wf(d),
            None => true,
        },
{
    lemma_jparse_value_ok(s, 0);
}

} // verus!
