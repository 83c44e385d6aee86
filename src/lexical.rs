use vstd::prelude::*;

use crate::token::Token;

verus! {

/// JSON whitespace.
pub open spec fn is_ws(c: char) -> bool {
    c == ' ' || c == '\n' || c == '\r' || c == '\t'
}

pub open spec fn is_digit(c: char) -> bool {
    '0' <= c && c <= '9'
}

pub open spec fn is_hex(c: char) -> bool {
    is_digit(c) || ('a' <= c && c <= 'f') || ('A' <= c && c <= 'F')
}

/// A character in U+0000..U+001F, which a JSON string must escape.
pub open spec fn is_control(c: char) -> bool {
    c <= '\u{1f}'
}

pub open spec fn hex_val(c: char) -> int {
    if is_digit(c) {
        c as int - '0' as int
    } else if 'a' <= c && c <= 'f' {
        c as int - 'a' as int + 10
    } else {
        c as int - 'A' as int + 10
    }
}

/// The value of a sequence of hexadecimal digits.
pub open spec fn hex_value(r: Seq<char>) -> int
    decreases r.len(),
{
    if r.len() == 0 {
        0
    } else {
        hex_value(r.drop_last()) * 16 + hex_val(r.last())
    }
}

pub open spec fn all_digits(r: Seq<char>) -> bool {
    forall|i: int| 0 <= i < r.len() ==> is_digit(#[trigger] r[i])
}

pub open spec fn all_hex(r: Seq<char>) -> bool {
    forall|i: int| 0 <= i < r.len() ==> is_hex(#[trigger] r[i])
}

/// The index of the first character at or after `i` that is not whitespace.
pub open spec fn skip_ws(s: Seq<char>, i: int) -> int
    decreases s.len() - i,
{
    if i < 0 || i >= s.len() || !is_ws(s[i]) {
        i
    } else {
        skip_ws(s, i + 1)
    }
}

pub proof fn lemma_skip_ws_bounds(s: Seq<char>, i: int)
    requires
        0 <= i <= s.len(),
    ensures
        i <= skip_ws(s, i) <= s.len(),
    decreases s.len() - i,
{
    if i < s.len() && is_ws(s[i]) {
        lemma_skip_ws_bounds(s, i + 1);
    }
}

/// `s[start..end]` is a complete number lexeme: a number that the next
/// character (if any) cannot extend.
pub open spec fn number_lexeme(s: Seq<char>, start: int, end: int) -> bool {
    &&& 0 <= start < end <= s.len()
    &&& is_number(s.subrange(start, end))
    &&& (end == s.len() || !extends_number(s.subrange(start, end), s[end]))
}

/// `s` has a complete number lexeme at `start`.
pub open spec fn number_at(s: Seq<char>, start: int) -> bool {
    exists|end: int| number_lexeme(s, start, end)
}

/// The digits of `s` run from `a` up to `b`, and stop there.
pub open spec fn digit_run(s: Seq<char>, a: int, b: int) -> bool {
    &&& 0 <= a <= b <= s.len()
    &&& forall|x: int| a <= x < b ==> is_digit(#[trigger] s[x])
    &&& (b == s.len() || !is_digit(s[b]))
}

/// Where the integer digits of a number at `start` begin.
pub open spec fn int_start(s: Seq<char>, start: int) -> int {
    if s[start] == '-' {
        start + 1
    } else {
        start
    }
}

/// The facts about a number lexeme that a left-to-right scan relies on, given
/// where the scan found its integer digits to end (`b`) and, after an
/// optional fraction, where it stands (`c`).
pub proof fn lemma_number_scan(s: Seq<char>, start: int, end: int, b: int, c: int)
    requires
        number_lexeme(s, start, end),
    ensures
        s[start] == '-' ==> start + 1 < s.len() && is_digit(s[start + 1]),
        s[start] != '-' ==> is_digit(s[start]),
        s[int_start(s, start)] == '0' ==> int_start(s, start) + 1 == s.len() || !is_digit(
            s[int_start(s, start) + 1],
        ),
        int_start(s, start) < b && digit_run(s, int_start(s, start), b) ==> {
            &&& b < s.len() && s[b] == '.' ==> b + 1 < s.len() && is_digit(s[b + 1])
            &&& (if b < s.len() && s[b] == '.' {
                b + 1 < c && digit_run(s, b + 1, c)
            } else {
                c == b
            }) ==> (c < s.len() && (s[c] == 'e' || s[c] == 'E') ==> c + 1 < s.len() && is_digit(
                s[c + 1],
            ))
        },
{
    let n = s.subrange(start, end);
    let (i, j, k) = choose|i: int, j: int, k: int| number_parts(n, i, j, k);
    assert(number_parts(n, i, j, k));
    let a = start + i;
    assert(n[i] == n.subrange(i, j)[0]);
    assert(is_digit(n[i]));
    assert(i == 0 ==> s[start] != '-');
    assert(i == 1 ==> s[start] == '-');
    assert(a == int_start(s, start));
    assert forall|x: int| i <= x < j implies is_digit(#[trigger] n[x]) by {
        assert(n[x] == n.subrange(i, j)[x - i]);
    }
    assert forall|x: int| j < x < k implies is_digit(#[trigger] n[x]) by {
        assert(n[x] == n.subrange(j + 1, k)[x - j - 1]);
    }
    assert forall|x: int| k < x < n.len() implies is_digit(#[trigger] n[x]) by {
        assert(n[x] == n.subrange(k + 1, n.len() as int)[x - k - 1]);
    }
    // where the integer digits stop
    let int_stop = j == n.len() || !is_digit(n[j]);
    if j < n.len() {
        if k == j {
            assert(n[j] == 'e' || n[j] == 'E');
        } else {
            assert(n[j] == '.');
        }
    }
    assert(int_stop);
    if j == n.len() && end < s.len() {
        assert(!is_digit(s[end]));
    }
    if s[a] == '0' {
        assert(n.subrange(i, j)[0] == '0');
        assert(j == i + 1);
    }
    if int_start(s, start) < b && digit_run(s, int_start(s, start), b) {
        if b < start + j {
            assert(is_digit(n[b - start]));
        }
        if b > start + j {
            assert(is_digit(s[start + j]));
            assert(s[start + j] == n[j]);
        }
        assert(b == start + j);
        if b < s.len() && s[b] == '.' {
            if k == j {
                if j == n.len() {
                    assert forall|x: int| 0 <= x < n.len() implies n[x] != '.' && n[x] != 'e' && n[x]
                        != 'E' by {
                        if x >= i {
                            assert(is_digit(n[x]));
                        }
                    }
                    assert(!n.contains('.') && !n.contains('e') && !n.contains('E'));
                    assert(false);
                } else {
                    assert(n[j] == s[b]);
                    assert(false);
                }
            }
            assert(n[j + 1] == s[b + 1]);
            assert(is_digit(n[j + 1]));
        }
        let frac = b < s.len() && s[b] == '.';
        if (if frac {
            b + 1 < c && digit_run(s, b + 1, c)
        } else {
            c == b
        }) {
            if !frac {
                if k > j {
                    assert(n[j] == '.');
                    assert(s[b] == n[j]);
                }
                assert(k == j);
            } else {
                assert(k > j);
                if k < n.len() {
                    assert(n[k] == 'e' || n[k] == 'E');
                } else if end < s.len() {
                    assert(!is_digit(s[end]));
                }
                if c < start + k {
                    assert(is_digit(n[c - start]));
                }
                if c > start + k {
                    assert(is_digit(s[start + k]));
                    assert(s[start + k] == n[k]);
                }
            }
            assert(c == start + k);
            if c < s.len() && (s[c] == 'e' || s[c] == 'E') {
                if k == n.len() {
                    assert forall|x: int| 0 <= x < n.len() implies n[x] != 'e' && n[x] != 'E' by {
                        if x >= i && x != j {
                            assert(is_digit(n[x]));
                        }
                    }
                    assert(!n.contains('e') && !n.contains('E'));
                    assert(false);
                }
                assert(n[k + 1] == s[c + 1]);
                assert(is_digit(n[k + 1]));
            }
        }
    }
}

/// A character's scalar value is never a surrogate code and never past U+10FFFF.
pub proof fn lemma_char_range(c: char)
    ensures
        !(0xD800 <= c as int <= 0xDFFF),
        c as int <= 0x10FFFF,
{
}

/// A digit sequence with no unnecessary leading zero.
pub open spec fn is_int(d: Seq<char>) -> bool {
    d.len() >= 1 && all_digits(d) && (d[0] == '0' ==> d.len() == 1)
}

/// `n` is an optional `-` (up to `i`), an integer part (up to `j`), an
/// optional `.` with one or more digits (up to `k`) and an optional `e` or
/// `E` with one or more digits.
pub open spec fn number_parts(n: Seq<char>, i: int, j: int, k: int) -> bool {
    &&& 0 <= i <= j <= k <= n.len()
    &&& (i == 0 || (i == 1 && n[0] == '-'))
    &&& is_int(n.subrange(i, j))
    &&& (k == j || (k > j + 1 && n[j] == '.' && all_digits(n.subrange(j + 1, k))))
    &&& (k == n.len() || (n.len() > k + 1 && (n[k] == 'e' || n[k] == 'E') && all_digits(
        n.subrange(k + 1, n.len() as int),
    )))
}

/// The number grammar of the tokenizer.
pub open spec fn is_number(n: Seq<char>) -> bool {
    exists|i: int, j: int, k: int| number_parts(n, i, j, k)
}

/// Whether `c` right after the number text `n` would make the tokenizer read on.
pub open spec fn extends_number(n: Seq<char>, c: char) -> bool {
    ||| is_digit(c)
    ||| (c == '.' && !n.contains('.') && !n.contains('e') && !n.contains('E'))
    ||| ((c == 'e' || c == 'E') && !n.contains('e') && !n.contains('E'))
}

/// The character that a one-letter escape `\c` stands for.
pub open spec fn simple_escape(c: char) -> Option<char> {
    if c == '"' {
        Some('"')
    } else if c == '\\' {
        Some('\\')
    } else if c == '/' {
        Some('/')
    } else if c == 'b' {
        Some('\u{8}')
    } else if c == 'f' {
        Some('\u{c}')
    } else if c == 'n' {
        Some('\n')
    } else if c == 'r' {
        Some('\r')
    } else if c == 't' {
        Some('\t')
    } else {
        None
    }
}

/// The length of the unit (a character or an escape sequence) that begins `r`.
pub open spec fn unit_len(r: Seq<char>) -> int {
    if r[0] != '\\' {
        1
    } else if r.len() >= 2 && r[1] == 'u' {
        6
    } else {
        2
    }
}

/// The string unit `u` stands for the character `c`.
pub open spec fn unit_decodes(u: Seq<char>, c: char) -> bool {
    if u.len() == 1 {
        u[0] != '"' && u[0] != '\\' && !is_control(u[0]) && c == u[0]
    } else if u.len() == 2 {
        u[0] == '\\' && simple_escape(u[1]) == Some(c)
    } else {
        &&& u.len() == 6
        &&& u[0] == '\\'
        &&& u[1] == 'u'
        &&& all_hex(u.subrange(2, 6))
        &&& c as int == hex_value(u.subrange(2, 6))
    }
}

/// The body `r` of a JSON string literal (between its quotes) decodes to `v`.
pub open spec fn decodes(r: Seq<char>, v: Seq<char>) -> bool
    decreases r.len(),
{
    if r.len() == 0 {
        v.len() == 0
    } else if v.len() == 0 {
        false
    } else {
        let n = unit_len(r);
        n <= r.len() && unit_decodes(r.subrange(0, n), v[0]) && decodes(
            r.subrange(n, r.len() as int),
            v.drop_first(),
        )
    }
}

pub proof fn lemma_decodes_push(a: Seq<char>, v: Seq<char>, b: Seq<char>, c: char)
    requires
        decodes(a, v),
        b.len() >= 1,
        unit_len(b) == b.len(),
        unit_decodes(b, c),
    ensures
        decodes(a + b, v.push(c)),
    decreases a.len(),
{
    if a.len() == 0 {
        assert(a + b =~= b);
        assert(b.subrange(0, b.len() as int) =~= b);
        assert(v.push(c).drop_first() =~= Seq::<char>::empty());
        assert(b.subrange(b.len() as int, b.len() as int) =~= Seq::<char>::empty());
        assert(v.push(c)[0] == c);
        assert(decodes(Seq::<char>::empty(), Seq::<char>::empty()));
    } else {
        let n = unit_len(a);
        let ab = a + b;
        assert(ab[0] == a[0]);
        if a[0] == '\\' {
            assert(ab[1] == a[1]);
        }
        assert(unit_len(ab) == n);
        assert(ab.subrange(0, n) =~= a.subrange(0, n));
        assert(ab.subrange(n, ab.len() as int) =~= a.subrange(n, a.len() as int) + b);
        assert(v.push(c).drop_first() =~= v.drop_first().push(c));
        lemma_decodes_push(a.subrange(n, a.len() as int), v.drop_first(), b, c);
        assert(v.push(c)[0] == v[0]);
    }
}

/// The characters of a keyword token.
pub open spec fn keyword_text(t: Token) -> Seq<char> {
    match t {
        Token::True => seq!['t', 'r', 'u', 'e'],
        Token::False => seq!['f', 'a', 'l', 's', 'e'],
        _ => seq!['n', 'u', 'l', 'l'],
    }
}

/// The one character of a punctuation token.
pub open spec fn punct_char(t: Token) -> char {
    match t {
        Token::ObjectStart => '{',
        Token::ObjectEnd => '}',
        Token::ArrayStart => '[',
        Token::ArrayEnd => ']',
        Token::Colon => ':',
        _ => ',',
    }
}

/// A character that is a token by itself.
pub open spec fn is_punct(c: char) -> bool {
    c == '{' || c == '}' || c == '[' || c == ']' || c == ':' || c == ','
}

/// `s` has a well-formed string literal (opening quote, body, closing quote)
/// at `start`.
pub open spec fn string_at(s: Seq<char>, start: int) -> bool {
    exists|e: int, v: Seq<char>| string_lexeme(s, start, e, v)
}

pub open spec fn string_lexeme(s: Seq<char>, start: int, e: int, v: Seq<char>) -> bool {
    &&& 0 <= start
    &&& start + 2 <= e <= s.len()
    &&& s[start] == '"'
    &&& s[e - 1] == '"'
    &&& decodes(s.subrange(start + 1, e - 1), v)
}

/// The token of a punctuation character.
pub open spec fn punct_token(c: char) -> Token {
    if c == '{' {
        Token::ObjectStart
    } else if c == '}' {
        Token::ObjectEnd
    } else if c == '[' {
        Token::ArrayStart
    } else if c == ']' {
        Token::ArrayEnd
    } else if c == ':' {
        Token::Colon
    } else {
        Token::Comma
    }
}

/// `s` has the keyword `k` at `start`.
pub open spec fn keyword_at(s: Seq<char>, start: int, k: Seq<char>) -> bool {
    0 <= start && start + k.len() <= s.len() && s.subrange(start, start + k.len()) == k
}

/// The first offset `m` (from `m` on, below `k.len()`) where `s` after
/// `start` stops matching the keyword `k`; `k.len()` if it matches to the end.
pub open spec fn mismatch_from(s: Seq<char>, start: int, k: Seq<char>, m: int) -> int
    decreases k.len() - m,
{
    if m >= k.len() || m < 0 {
        m
    } else if start + m >= s.len() || s[start + m] != k[m] {
        m
    } else {
        mismatch_from(s, start, k, m + 1)
    }
}

/// The first unit of a decodable non-empty string body is well formed.
pub proof fn lemma_unit_ok(r: Seq<char>, w: Seq<char>)
    requires
        decodes(r, w),
        r.len() > 0,
    ensures
        r[0] != '"',
        !is_control(r[0]),
        r[0] == '\\' ==> r.len() >= 2,
        r[0] == '\\' && r[1] == 'u' ==> r.len() >= 6 && all_hex(r.subrange(2, 6)) && w[0] as int
            == hex_value(r.subrange(2, 6)),
        r[0] == '\\' && r[1] != 'u' ==> simple_escape(r[1]) is Some,
{
    let n = unit_len(r);
    let u = r.subrange(0, n);
    assert(unit_decodes(u, w[0]));
    assert(u[0] == r[0]);
    if n >= 2 {
        assert(u[1] == r[1]);
    }
    if n == 6 {
        assert(u.subrange(2, 6) =~= r.subrange(2, 6));
    }
}

/// The keyword that a character begins, if any.
pub open spec fn keyword_of(c: char) -> Option<Token> {
    if c == 't' {
        Some(Token::True)
    } else if c == 'f' {
        Some(Token::False)
    } else if c == 'n' {
        Some(Token::Null)
    } else {
        None
    }
}

/// A character that can begin a lexeme.
pub open spec fn starts_lexeme(c: char) -> bool {
    is_punct(c) || c == '"' || c == '-' || is_digit(c) || keyword_of(c) is Some
}

/// The characters `s[start..end]` are a complete lexeme of the token `t`.
pub open spec fn lexes(s: Seq<char>, start: int, end: int, t: Token) -> bool {
    &&& 0 <= start < end <= s.len()
    &&& match t {
        Token::String(v) => {
            &&& s[start] == '"'
            &&& end >= start + 2
            &&& s[end - 1] == '"'
            &&& decodes(s.subrange(start + 1, end - 1), v@)
        },
        Token::Number(n) => {
            &&& s.subrange(start, end) == n@
            &&& is_number(n@)
            &&& (end == s.len() || !extends_number(n@, s[end]))
        },
        Token::True | Token::False | Token::Null => s.subrange(start, end) == keyword_text(t),
        _ => end == start + 1 && s[start] == punct_char(t),
    }
}

} // verus!
