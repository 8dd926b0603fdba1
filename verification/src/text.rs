//! Shared textual building blocks of both formats: decimal integer
//! literals, double-quoted strings with escapes, and whitespace.

use vstd::prelude::*;

verus! {

// ---------------------------------------------------------------- digits

pub open spec fn is_digit(c: char) -> bool {
    '0' <= c && c <= '9'
}

pub open spec fn digit_val(c: char) -> int {
    c as int - '0' as int
}

pub open spec fn digit_char(d: int) -> char {
    if d == 0 {
        '0'
    } else if d == 1 {
        '1'
    } else if d == 2 {
        '2'
    } else if d == 3 {
        '3'
    } else if d == 4 {
        '4'
    } else if d == 5 {
        '5'
    } else if d == 6 {
        '6'
    } else if d == 7 {
        '7'
    } else if d == 8 {
        '8'
    } else {
        '9'
    }
}

/// Decimal digits of `n`, most significant first.
pub open spec fn dec_digits(n: nat) -> Seq<char>
    decreases n,
{
    if n < 10 {
        seq![digit_char(n as int)]
    } else {
        dec_digits(n / 10) + seq![digit_char((n % 10) as int)]
    }
}

/// Canonical text of an integer: a minus sign for negatives, then digits
/// without leading zeros.
pub open spec fn int_text(n: int) -> Seq<char> {
    if n < 0 {
        seq!['-'] + dec_digits((-n) as nat)
    } else {
        dec_digits(n as nat)
    }
}

pub open spec fn all_digits(s: Seq<char>) -> bool {
    forall|i: int| 0 <= i < s.len() ==> is_digit(#[trigger] s[i])
}

/// Value of a digit sequence, most significant digit first.
pub open spec fn digits_val(s: Seq<char>) -> int
    decreases s.len(),
{
    if s.len() == 0 {
        0
    } else {
        digits_val(s.take(s.len() - 1)) * 10 + digit_val(s[s.len() - 1])
    }
}

/// A digit run that is a valid integer body: nonempty, all digits, and no
/// leading zero unless it is exactly "0".
pub open spec fn digits_ok(s: Seq<char>) -> bool {
    s.len() >= 1 && all_digits(s) && (s[0] != '0' || s.len() == 1)
}

/// The whole of `s` is an integer literal.
pub open spec fn is_int_literal(s: Seq<char>) -> bool {
    if s.len() >= 1 && s[0] == '-' {
        digits_ok(s.skip(1))
    } else {
        digits_ok(s)
    }
}

pub open spec fn int_of_literal(s: Seq<char>) -> int {
    if s.len() >= 1 && s[0] == '-' {
        -digits_val(s.skip(1))
    } else {
        digits_val(s)
    }
}

pub proof fn lemma_dec_digits_all_digits(n: nat)
    ensures
        all_digits(dec_digits(n)),
        dec_digits(n).len() >= 1,
    decreases n,
{
    if n >= 10 {
        lemma_dec_digits_all_digits(n / 10);
        let a = dec_digits(n / 10);
        let whole = dec_digits(n);
        assert forall|i: int| 0 <= i < whole.len() implies is_digit(#[trigger] whole[i]) by {
            if i < a.len() {
                assert(whole[i] == a[i]);
            }
        }
    }
}

pub proof fn lemma_dec_digits_no_leading_zero(n: nat)
    ensures
        n >= 1 ==> dec_digits(n)[0] != '0',
    decreases n,
{
    if n >= 10 {
        lemma_dec_digits_no_leading_zero(n / 10);
        assert(dec_digits(n)[0] == dec_digits(n / 10)[0]);
    }
}

pub proof fn lemma_digits_val_of_dec_digits(n: nat)
    ensures
        digits_val(dec_digits(n)) == n,
    decreases n,
{
    if n < 10 {
        assert('0' as int == 48);
        assert(dec_digits(n).take(0) =~= Seq::<char>::empty());
        assert(dec_digits(n) == seq![digit_char(n as int)]);
        assert(digits_val(dec_digits(n)) == digits_val(Seq::<char>::empty()) * 10 + digit_val(
            digit_char(n as int),
        ));
        assert(digit_val(digit_char(n as int)) == n);
    } else {
        lemma_digits_val_of_dec_digits(n / 10);
        let a = dec_digits(n / 10);
        let whole = dec_digits(n);
        assert(whole.take(whole.len() - 1) =~= a);
        assert(whole[whole.len() - 1] == digit_char((n % 10) as int));
        assert(digit_val(digit_char((n % 10) as int)) == n % 10);
        vstd::arithmetic::div_mod::lemma_fundamental_div_mod(n as int, 10);
    }
}

/// The canonical text of an integer reads back as that integer.
pub proof fn lemma_int_text_round_trip(n: int)
    ensures
        is_int_literal(int_text(n)),
        int_of_literal(int_text(n)) == n,
        int_text(n).len() >= 1,
        int_text(n)[0] != '-' ==> is_digit(int_text(n)[0]),
        int_text(n)[0] == '-' ==> n < 0,
{
    if n < 0 {
        let m = (-n) as nat;
        lemma_dec_digits_all_digits(m);
        lemma_dec_digits_no_leading_zero(m);
        lemma_digits_val_of_dec_digits(m);
        assert(int_text(n).skip(1) =~= dec_digits(m));
    } else {
        lemma_dec_digits_all_digits(n as nat);
        lemma_dec_digits_no_leading_zero(n as nat);
        lemma_digits_val_of_dec_digits(n as nat);
        assert(int_text(n)[0] == dec_digits(n as nat)[0]);
    }
}

pub open spec fn pow10(k: nat) -> int
    decreases k,
{
    if k == 0 {
        1
    } else {
        10 * pow10((k - 1) as nat)
    }
}

pub proof fn lemma_pow10_mono(a: nat, b: nat)
    requires
        a <= b,
    ensures
        pow10(a) <= pow10(b),
        pow10(a) >= 1,
    decreases b,
{
    if b > 0 {
        if a == b {
            lemma_pow10_mono((a - 1) as nat, (b - 1) as nat);
        } else {
            lemma_pow10_mono(a, (b - 1) as nat);
        }
    }
}

/// The powers of ten at the machine-integer boundary.
pub proof fn lemma_pow10_vals()
    ensures
        pow10(18) == 1000000000000000000,
        pow10(19) == 10000000000000000000,
{
    reveal_with_fuel(pow10, 21);
}

/// A digit run's value is below ten to its length; with no leading zero
/// it is at least ten to one less than its length.
pub proof fn lemma_digits_val_bounds(s: Seq<char>)
    requires
        all_digits(s),
    ensures
        0 <= digits_val(s) < pow10(s.len() as nat),
        s.len() >= 1 && s[0] != '0' ==> digits_val(s) >= pow10((s.len() - 1) as nat),
    decreases s.len(),
{
    if s.len() >= 1 {
        let h = s.take(s.len() - 1);
        assert(all_digits(h)) by {
            assert(forall|i: int| 0 <= i < h.len() ==> h[i] == s[i]);
        }
        lemma_digits_val_bounds(h);
        assert('0' as int == 48);
        if s.len() >= 1 && s[0] != '0' {
            if s.len() == 1 {
                assert(digits_val(s) >= 1);
            } else {
                assert(h[0] == s[0]);
            }
        }
    }
}

// ---------------------------------------------------------------- strings

/// The characters that may follow a backslash in a quoted string as a
/// one-character escape.
pub open spec fn is_escape_code(c: char) -> bool {
    c == '"' || c == '\\' || c == '/' || c == 'n' || c == 't' || c == 'r' || c == 'b' || c == 'f'
}

pub open spec fn unescaped(c: char) -> char {
    if c == 'n' {
        '\n'
    } else if c == 't' {
        '\t'
    } else if c == 'r' {
        '\r'
    } else if c == 'b' {
        '\u{8}'
    } else if c == 'f' {
        '\u{c}'
    } else {
        c
    }
}

pub open spec fn is_hex(c: char) -> bool {
    ('0' <= c && c <= '9') || ('a' <= c && c <= 'f') || ('A' <= c && c <= 'F')
}

pub open spec fn hex_val(c: char) -> int {
    if '0' <= c && c <= '9' {
        c as int - '0' as int
    } else if 'a' <= c && c <= 'f' {
        c as int - 'a' as int + 10
    } else {
        c as int - 'A' as int + 10
    }
}

/// The code point written by a four-digit hexadecimal escape at `i`.
pub open spec fn hex4_val(s: Seq<char>, i: int) -> int {
    hex_val(s[i]) * 4096 + hex_val(s[i + 1]) * 256 + hex_val(s[i + 2]) * 16 + hex_val(s[i + 3])
}

/// A code point a four-digit escape may denote: not a surrogate.
pub open spec fn valid_code(n: int) -> bool {
    0 <= n < 0xD800 || 0xE000 <= n <= 0xFFFF
}

/// The character with code point `n`.
pub open spec fn code_char(n: int) -> char {
    (n as u32) as char
}

/// How one character is written inside a quoted string.
pub open spec fn esc_char(c: char) -> Seq<char> {
    if c == '"' {
        seq!['\\', '"']
    } else if c == '\\' {
        seq!['\\', '\\']
    } else if c == '\n' {
        seq!['\\', 'n']
    } else if c == '\t' {
        seq!['\\', 't']
    } else if c == '\r' {
        seq!['\\', 'r']
    } else {
        seq![c]
    }
}

/// The escaped form of `s` from position `i` on.
pub open spec fn esc_text(s: Seq<char>, i: int) -> Seq<char>
    decreases s.len() - i,
{
    if 0 <= i < s.len() {
        esc_char(s[i]) + esc_text(s, i + 1)
    } else {
        Seq::empty()
    }
}

/// The canonical double-quoted form of a string.
pub open spec fn quoted_text(s: Seq<char>) -> Seq<char> {
    seq!['"'] + esc_text(s, 0) + seq!['"']
}

/// Parse a quoted string body starting at `i`, just after the opening
/// quote.  Returns the content and the index after the closing quote.
/// A raw newline or an unknown escape is an error.
pub open spec fn parse_quoted(s: Seq<char>, i: int) -> Option<(Seq<char>, int)>
    decreases s.len() - i,
{
    if i < 0 || i >= s.len() {
        None
    } else if s[i] == '"' {
        Some((Seq::empty(), i + 1))
    } else if s[i] == '\\' {
        if i + 2 <= s.len() && s[i + 1] == 'u' {
            if i + 6 <= s.len() && is_hex(s[i + 2]) && is_hex(s[i + 3]) && is_hex(s[i + 4])
                && is_hex(s[i + 5]) && valid_code(hex4_val(s, i + 2)) {
                match parse_quoted(s, i + 6) {
                    Some((rest, j)) => Some((seq![code_char(hex4_val(s, i + 2))] + rest, j)),
                    None => None,
                }
            } else {
                None
            }
        } else if i + 2 <= s.len() && is_escape_code(s[i + 1]) {
            match parse_quoted(s, i + 2) {
                Some((rest, j)) => Some((seq![unescaped(s[i + 1])] + rest, j)),
                None => None,
            }
        } else {
            None
        }
    } else if s[i] == '\n' {
        None
    } else {
        match parse_quoted(s, i + 1) {
            Some((rest, j)) => Some((seq![s[i]] + rest, j)),
            None => None,
        }
    }
}

/// Escaped text never holds a raw line break.
pub proof fn lemma_esc_text_no_newline(s: Seq<char>, i: int)
    ensures
        forall|k: int| 0 <= k < esc_text(s, i).len() ==> #[trigger] esc_text(s, i)[k] != '\n',
    decreases s.len() - i,
{
    if 0 <= i < s.len() {
        lemma_esc_text_no_newline(s, i + 1);
        let e = esc_text(s, i);
        let h = esc_char(s[i]);
        assert forall|k: int| 0 <= k < e.len() implies (#[trigger] e[k] != '\n') by {
            if k >= h.len() {
                assert(e[k] == esc_text(s, i + 1)[k - h.len()]);
            }
        }
    }
}

/// The quoted form of a string: bracketed by quotes, free of raw line
/// breaks.
pub proof fn lemma_quoted_text_facts(s: Seq<char>)
    ensures
        quoted_text(s).len() >= 2,
        quoted_text(s)[0] == '"',
        quoted_text(s)[quoted_text(s).len() - 1] == '"',
        forall|k: int| 0 <= k < quoted_text(s).len() ==> #[trigger] quoted_text(s)[k] != '\n',
{
    lemma_esc_text_no_newline(s, 0);
    let q = quoted_text(s);
    let e = esc_text(s, 0);
    assert forall|k: int| 0 <= k < q.len() implies (#[trigger] q[k] != '\n') by {
        if 1 <= k < 1 + e.len() {
            assert(q[k] == e[k - 1]);
        }
    }
}

/// Every character of an integer's text is a minus sign or a digit.
pub proof fn lemma_int_text_chars(n: int)
    ensures
        forall|k: int|
            0 <= k < int_text(n).len() ==> #[trigger] int_text(n)[k] == '-' || is_digit(
                int_text(n)[k],
            ),
{
    let t = int_text(n);
    if n < 0 {
        lemma_dec_digits_all_digits((-n) as nat);
        let dd = dec_digits((-n) as nat);
        assert forall|k: int| 0 <= k < t.len() implies (#[trigger] t[k] == '-' || is_digit(t[k])) by {
            if k >= 1 {
                assert(t[k] == dd[k - 1]);
            }
        }
    } else {
        lemma_dec_digits_all_digits(n as nat);
    }
}

/// Escaped text placed in a larger buffer and closed with a quote parses
/// back to the original content.
pub proof fn lemma_parse_escaped(content: Seq<char>, k: int, s: Seq<char>, i: int)
    requires
        0 <= k <= content.len(),
        0 <= i,
        i + esc_text(content, k).len() + 1 <= s.len(),
        s.subrange(i, i + esc_text(content, k).len() + 1) == esc_text(content, k) + seq!['"'],
    ensures
        parse_quoted(s, i) == Some(
            (content.skip(k), i + esc_text(content, k).len() + 1),
        ),
    decreases content.len() - k,
{
    let e = esc_text(content, k);
    let seg = s.subrange(i, i + e.len() + 1);
    assert forall|m: int| 0 <= m < e.len() + 1 implies s[i + m] == (e + seq!['"'])[m] by {
        assert(seg[m] == s[i + m]);
    }
    if k == content.len() {
        assert(s[i] == seg[0]);
        assert(s[i] == '"');
        assert(content.skip(k) =~= Seq::<char>::empty());
    } else {
        let c = content[k];
        let e1 = esc_text(content, k + 1);
        assert(e == esc_char(c) + e1);
        let step = esc_char(c).len() as int;
        assert forall|t: int| 0 <= t < e1.len() + 1 implies s.subrange(
            i + step,
            i + e.len() + 1,
        )[t] == (e1 + seq!['"'])[t] by {
            let m = step + t;
            assert(s[i + m] == (e + seq!['"'])[m]);
            assert((e + seq!['"'])[m] == (e1 + seq!['"'])[t]);
        }
        assert(s.subrange(i + step, i + e.len() + 1) =~= esc_text(content, k + 1) + seq!['"']);
        lemma_parse_escaped(content, k + 1, s, i + step);
        if c == '"' || c == '\\' || c == '\n' || c == '\t' || c == '\r' {
            assert(s[i] == seg[0]);
            assert(s[i + 1] == seg[1]);
            assert(s[i] == '\\');
            assert(s[i + 1] != 'u');
            assert(is_escape_code(s[i + 1]));
            assert(unescaped(s[i + 1]) == c);
            assert(seq![c] + content.skip(k + 1) =~= content.skip(k));
        } else {
            assert(s[i] == seg[0]);
            assert(s[i] == c);
            assert(s[i] != '"' && s[i] != '\\' && s[i] != '\n');
            assert(seq![c] + content.skip(k + 1) =~= content.skip(k));
        }
    }
}

/// The canonical quoted form of a string parses back to that string.
pub proof fn lemma_quoted_round_trip(content: Seq<char>, s: Seq<char>, i: int)
    requires
        0 <= i,
        i + quoted_text(content).len() <= s.len(),
        s.subrange(i, i + quoted_text(content).len()) == quoted_text(content),
    ensures
        i < s.len() && s[i] == '"',
        parse_quoted(s, i + 1) == Some((content, i + quoted_text(content).len())),
{
    let q = quoted_text(content);
    assert forall|m: int| 0 <= m < q.len() implies s[i + m] == q[m] by {
        assert(s.subrange(i, i + q.len())[m] == s[i + m]);
    }
    assert(s[i] == q[0]);
    let e0 = esc_text(content, 0);
    assert forall|t: int| 0 <= t < e0.len() + 1 implies s.subrange(i + 1, i + q.len())[t] == (e0
        + seq!['"'])[t] by {
        let m = 1 + t;
        assert(s[i + m] == q[m]);
        assert(q[m] == (e0 + seq!['"'])[t]);
    }
    assert(s.subrange(i + 1, i + q.len()) =~= esc_text(content, 0) + seq!['"']);
    lemma_parse_escaped(content, 0, s, i + 1);
    assert(content.skip(0) =~= content);
}

pub proof fn lemma_parse_quoted_bounds(s: Seq<char>, i: int)
    requires
        0 <= i <= s.len(),
    ensures
        match parse_quoted(s, i) {
            Some((c, j)) => i < j <= s.len(),
            None => true,
        },
    decreases s.len() - i,
{
    if i < s.len() && s[i] == '\\' {
        if i + 2 <= s.len() && s[i + 1] == 'u' {
            if i + 6 <= s.len() {
                lemma_parse_quoted_bounds(s, i + 6);
            }
        } else if i + 2 <= s.len() && is_escape_code(s[i + 1]) {
            lemma_parse_quoted_bounds(s, i + 2);
        }
    } else if i < s.len() && s[i] != '"' && s[i] != '\n' {
        lemma_parse_quoted_bounds(s, i + 1);
    }
}

// ---------------------------------------------------------- seq helpers

/// Pointwise view of a segment equality.
pub proof fn lemma_seg_index<T>(s: Seq<T>, i: int, t: Seq<T>)
    requires
        0 <= i,
        i + t.len() <= s.len(),
        s.subrange(i, i + t.len()) == t,
    ensures
        forall|m: int| 0 <= m < t.len() ==> #[trigger] s[i + m] == t[m],
{
    assert forall|m: int| 0 <= m < t.len() implies #[trigger] s[i + m] == t[m] by {
        assert(s.subrange(i, i + t.len())[m] == s[i + m]);
    }
}

/// A segment equal to a concatenation splits into two segment equalities.
pub proof fn lemma_sub_split<T>(s: Seq<T>, i: int, a: Seq<T>, b: Seq<T>)
    requires
        0 <= i,
        i + a.len() + b.len() <= s.len(),
        s.subrange(i, i + a.len() + b.len()) == a + b,
    ensures
        s.subrange(i, i + a.len()) == a,
        s.subrange(i + a.len(), i + a.len() + b.len()) == b,
{
    lemma_seg_index(s, i, a + b);
    assert forall|m: int| 0 <= m < a.len() implies s.subrange(i, i + a.len())[m] == a[m] by {
        assert(s[i + m] == (a + b)[m]);
    }
    assert(s.subrange(i, i + a.len()) =~= a);
    assert forall|m: int| 0 <= m < b.len() implies s.subrange(
        i + a.len(),
        i + a.len() + b.len(),
    )[m] == b[m] by {
        assert(s[i + (a.len() + m)] == (a + b)[a.len() + m]);
    }
    assert(s.subrange(i + a.len(), i + a.len() + b.len()) =~= b);
}

// ------------------------------------------------------------- whitespace

pub open spec fn is_ws(c: char) -> bool {
    c == ' ' || c == '\n' || c == '\t' || c == '\r'
}

/// The first position at or after `i` that holds a non-whitespace
/// character, or the end of the text.
pub open spec fn skip_ws(s: Seq<char>, i: int) -> int
    decreases s.len() - i,
{
    if 0 <= i < s.len() && is_ws(s[i]) {
        skip_ws(s, i + 1)
    } else {
        i
    }
}

pub proof fn lemma_skip_ws_bounds(s: Seq<char>, i: int)
    requires
        0 <= i <= s.len(),
    ensures
        i <= skip_ws(s, i) <= s.len(),
        skip_ws(s, i) < s.len() ==> !is_ws(s[skip_ws(s, i)]),
        forall|j: int| i <= j < skip_ws(s, i) ==> is_ws(#[trigger] s[j]),
    decreases s.len() - i,
{
    if i < s.len() && is_ws(s[i]) {
        lemma_skip_ws_bounds(s, i + 1);
    }
}

/// Skipping whitespace over a run of whitespace characters lands exactly
/// on the first non-whitespace position.
pub proof fn lemma_skip_ws_run(s: Seq<char>, i: int, j: int)
    requires
        0 <= i <= j <= s.len(),
        forall|k: int| i <= k < j ==> is_ws(#[trigger] s[k]),
        j == s.len() || !is_ws(s[j]),
    ensures
        skip_ws(s, i) == j,
    decreases j - i,
{
    if i < j {
        lemma_skip_ws_run(s, i + 1, j);
    }
}

/// `n` spaces.
pub open spec fn spaces(n: int) -> Seq<char> {
    Seq::new(if n >= 0 {
        n as nat
    } else {
        0
    }, |i: int| ' ')
}

// ------------------------------------------------------------ exec layer

/// The characters of `s`, in order.
pub fn to_chars(s: &str) -> (r: Vec<char>)
    ensures
        r@ == s@,
{
    let n = s.unicode_len();
    let mut r: Vec<char> = Vec::new();
    let mut i: usize = 0;
    while i < n
        invariant
            n == s@.len(),
            0 <= i <= n,
            r@ == s@.take(i as int),
        decreases n - i,
    {
        let c = s.get_char(i);
        r.push(c);
        proof {
            assert(s@.take(i + 1) =~= s@.take(i as int).push(s@[i as int]));
        }
        i = i + 1;
    }
    proof {
        assert(s@.take(n as int) =~= s@);
    }
    r
}

/// Relies on std's `char::from_u32`: for a non-surrogate code point at
/// most 0xFFFF it returns the character with exactly that code point.
#[verifier::external_body]
pub(crate) fn char_from_code(n: u32) -> (r: char)
    requires
        valid_code(n as int),
    ensures
        r == code_char(n as int),
{
    char::from_u32(n).unwrap()
}

/// Relies on std's `String: FromIterator<&char>`: collecting the
/// characters of a vector yields the string holding exactly those
/// characters in order.
#[verifier::external_body]
pub fn chars_to_string(v: &Vec<char>) -> (r: String)
    ensures
        r@ == v@,
{
    v.iter().collect()
}

} // verus!
