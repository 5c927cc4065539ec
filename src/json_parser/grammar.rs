//! The language that the parser accepts, stated as spec functions over the
//! input characters and a position in them.
//!
//! Each production takes the input `s` and the position `p` where it starts,
//! and gives `Some((result, end))` when it recognizes a construct there, with
//! `end` the position just past it, or `None` when the input is malformed.
use vstd::prelude::*;
use crate::values::Json;

verus! {

/// The three whitespace characters that separate tokens.
pub open spec fn is_ws(c: char) -> bool {
    c == ' ' || c == '\t' || c == '\n'
}

pub open spec fn is_digit(c: char) -> bool {
    '0' <= c <= '9'
}

/// The characters that the scan of a number literal takes.
pub open spec fn is_number_char(c: char) -> bool {
    c == '-' || c == '.' || is_digit(c)
}

/// The character at `p`, if there is one.
pub open spec fn char_at(s: Seq<char>, p: int) -> Option<char> {
    if 0 <= p < s.len() {
        Some(s[p])
    } else {
        None
    }
}

/// The first position at or after `p` that does not hold whitespace.
pub open spec fn skip_ws(s: Seq<char>, p: int) -> int
    decreases s.len() - p,
{
    if 0 <= p < s.len() && is_ws(s[p]) {
        skip_ws(s, p + 1)
    } else {
        p
    }
}

/// The end of the longest run of number characters that starts at `p`.
pub open spec fn number_end(s: Seq<char>, p: int) -> int
    decreases s.len() - p,
{
    if 0 <= p < s.len() && is_number_char(s[p]) {
        number_end(s, p + 1)
    } else {
        p
    }
}

/// The code of `c` with ASCII upper-case letters taken to lower case.
pub open spec fn lower_code(c: char) -> int {
    if 'A' <= c <= 'Z' {
        c as int + 32
    } else {
        c as int
    }
}

/// Whether `actual` matches `expected`, ignoring ASCII case if asked.
pub open spec fn chars_match(actual: char, expected: char, ignore_case: bool) -> bool {
    if ignore_case {
        lower_code(actual) == lower_code(expected)
    } else {
        actual == expected
    }
}

/// Whether the character at `p + i` matches character `i` of `lit`.
pub open spec fn literal_char_at(s: Seq<char>, p: int, lit: Seq<char>, ignore_case: bool, i: int) -> bool {
    0 <= p + i && p + i < s.len() && chars_match(s[p + i], lit[i], ignore_case)
}

/// Whether the characters from `p` on spell `lit`.
pub open spec fn literal_at(s: Seq<char>, p: int, lit: Seq<char>, ignore_case: bool) -> bool {
    forall|i: int| 0 <= i < lit.len() ==> #[trigger] literal_char_at(s, p, lit, ignore_case, i)
}

pub open spec fn true_text() -> Seq<char> {
    seq!['t', 'r', 'u', 'e']
}

pub open spec fn false_text() -> Seq<char> {
    seq!['f', 'a', 'l', 's', 'e']
}

pub open spec fn null_text() -> Seq<char> {
    seq!['n', 'u', 'l', 'l']
}

/// The value of a hexadecimal digit, or -1 for any other character.
pub open spec fn hex_value(c: char) -> int {
    if '0' <= c <= '9' {
        c as int - '0' as int
    } else if 'a' <= c <= 'f' {
        c as int - 'a' as int + 10
    } else if 'A' <= c <= 'F' {
        c as int - 'A' as int + 10
    } else {
        -1
    }
}

/// Whether `n` is the code of a Unicode scalar value (a `char`).
pub open spec fn is_scalar(n: int) -> bool {
    0 <= n <= 0x10FFFF && !(0xD800 <= n <= 0xDFFF)
}

/// Whether the four characters from `p` on are hexadecimal digits.
pub open spec fn is_hex4(s: Seq<char>, p: int) -> bool {
    &&& 0 <= p
    &&& p + 4 <= s.len()
    &&& forall|i: int| 0 <= i < 4 ==> hex_value(#[trigger] s[p + i]) >= 0
}

/// The number that the four hexadecimal digits from `p` on spell.
pub open spec fn hex4_value(s: Seq<char>, p: int) -> int {
    4096 * hex_value(s[p]) + 256 * hex_value(s[p + 1]) + 16 * hex_value(s[p + 2]) + hex_value(
        s[p + 3],
    )
}

/// How many characters follow the escape letter `c` after a backslash.
pub open spec fn escape_extra(c: char) -> int {
    if c == 'u' {
        4
    } else {
        0
    }
}

/// The character that the escape sequence whose letter stands at `p` (just
/// after a backslash) stands for.
pub open spec fn parse_escape(s: Seq<char>, p: int) -> Option<char> {
    if !(0 <= p < s.len()) {
        None
    } else {
        let c = s[p];
        if c == 'n' {
            Some('\n')
        } else if c == 't' {
            Some('\t')
        } else if c == 'r' {
            Some('\r')
        } else if c == '"' {
            Some('"')
        } else if c == '\\' {
            Some('\\')
        } else if c == 'u' {
            if is_hex4(s, p + 1) && is_scalar(hex4_value(s, p + 1)) {
                Some((hex4_value(s, p + 1) as u32) as char)
            } else {
                None
            }
        } else {
            None
        }
    }
}

/// The rest of a string literal from `p` on (after the opening quote), with
/// `acc` the characters decoded so far: the decoded text and the position just
/// past the closing quote.
pub open spec fn parse_string_body(s: Seq<char>, p: int, acc: Seq<char>) -> Option<
    (Seq<char>, int),
>
    decreases s.len() - p,
{
    if !(0 <= p < s.len()) {
        None
    } else if s[p] == '"' {
        Some((acc, p + 1))
    } else if s[p] == '\\' {
        match parse_escape(s, p + 1) {
            Some(c) => parse_string_body(s, p + 2 + escape_extra(s[p + 1]), acc.push(c)),
            None => None,
        }
    } else {
        parse_string_body(s, p + 1, acc.push(s[p]))
    }
}

/// A string literal that starts with its opening quote at `p`.
pub open spec fn parse_string(s: Seq<char>, p: int) -> Option<(Seq<char>, int)> {
    if char_at(s, p) == Some('"') {
        parse_string_body(s, p + 1, Seq::empty())
    } else {
        None
    }
}

/// The value of a sequence of decimal digits.
pub open spec fn digits_value(d: Seq<char>) -> int
    decreases d.len(),
{
    if d.len() == 0 {
        0
    } else {
        digits_value(d.drop_last()) * 10 + (d.last() as int - '0' as int)
    }
}

pub open spec fn all_digits(d: Seq<char>) -> bool {
    forall|i: int| 0 <= i < d.len() ==> is_digit(#[trigger] d[i])
}

/// `t` without one leading minus sign, if it has one.
pub open spec fn unsigned_part(t: Seq<char>) -> Seq<char> {
    if t.len() > 0 && t[0] == '-' {
        t.drop_first()
    } else {
        t
    }
}

/// The integer that `t` spells as an optional minus sign and decimal digits,
/// if it does and the integer fits in an `i128`.
pub open spec fn int_text_value(t: Seq<char>) -> Option<int> {
    let d = unsigned_part(t);
    let v = if t.len() > 0 && t[0] == '-' {
        -digits_value(d)
    } else {
        digits_value(d)
    };
    if d.len() > 0 && all_digits(d) && i128::MIN <= v <= i128::MAX {
        Some(v)
    } else {
        None
    }
}

/// Whether `t` is a floating-point literal of the shape that std's `f64`
/// parser accepts, among texts made of digits, `-` and `.`: an optional
/// minus sign, then digits with exactly one point, and at least one digit.
pub open spec fn is_float_text(t: Seq<char>) -> bool {
    let d = unsigned_part(t);
    &&& d.len() >= 2
    &&& exists|k: int|
        0 <= k < d.len() && d[k] == '.' && forall|i: int|
            0 <= i < d.len() && i != k ==> is_digit(#[trigger] d[i])
}

/// A number literal starting at `p`: the longest run of number characters,
/// read as a floating-point literal if it holds a point and as an integer
/// otherwise.
pub open spec fn parse_number(s: Seq<char>, p: int) -> Option<(Json, int)> {
    let e = number_end(s, p);
    let t = s.subrange(p, e);
    if t.contains('.') {
        if is_float_text(t) {
            Some((Json::Float(t), e))
        } else {
            None
        }
    } else {
        match int_text_value(t) {
            Some(i) => Some((Json::Int(i), e)),
            None => None,
        }
    }
}

/// Whether no two entries share a key.
pub open spec fn keys_unique(entries: Seq<(Seq<char>, Json)>) -> bool {
    forall|i: int, j: int|
        0 <= i < j < entries.len() ==> #[trigger] entries[i].0 != #[trigger] entries[j].0
}

/// Whether some entry has key `k`.
pub open spec fn has_key(entries: Seq<(Seq<char>, Json)>, k: Seq<char>) -> bool {
    exists|i: int| 0 <= i < entries.len() && #[trigger] entries[i].0 == k
}

/// `entries` with key `k` bound to `v`: an entry with that key has its value
/// replaced in place, else the entry goes at the end.
pub open spec fn insert_entry(entries: Seq<(Seq<char>, Json)>, k: Seq<char>, v: Json) -> Seq<
    (Seq<char>, Json),
> {
    if has_key(entries, k) {
        let i = choose|i: int| 0 <= i < entries.len() && #[trigger] entries[i].0 == k;
        entries.update(i, (k, v))
    } else {
        entries.push((k, v))
    }
}

/// A value that starts at `p` or after whitespace.
pub open spec fn parse_value(s: Seq<char>, p: int) -> Option<(Json, int)>
    decreases s.len() - p, 2int,
{
    let q = skip_ws(s, p);
    proof {
        lemma_skip_ws(s, p);
    }
    if !(0 <= q < s.len()) {
        None
    } else {
        let c = s[q];
        if c == 't' || c == 'T' {
            if literal_at(s, q, true_text(), true) {
                Some((Json::Bool(true), q + 4))
            } else {
                None
            }
        } else if c == 'f' || c == 'F' {
            if literal_at(s, q, false_text(), true) {
                Some((Json::Bool(false), q + 5))
            } else {
                None
            }
        } else if c == 'n' {
            if literal_at(s, q, null_text(), false) {
                Some((Json::Null, q + 4))
            } else {
                None
            }
        } else if is_number_char(c) {
            parse_number(s, q)
        } else if c == '"' {
            match parse_string(s, q) {
                Some((t, e)) => Some((Json::Str(t), e)),
                None => None,
            }
        } else if c == '[' {
            parse_array(s, q)
        } else if c == '{' {
            parse_object(s, q)
        } else {
            None
        }
    }
}

/// An array whose opening bracket stands at `q`.
pub open spec fn parse_array(s: Seq<char>, q: int) -> Option<(Json, int)>
    decreases s.len() - q, 1int,
{
    let r = skip_ws(s, q + 1);
    proof {
        lemma_skip_ws(s, q + 1);
    }
    if char_at(s, q) != Some('[') {
        None
    } else if char_at(s, r) == Some(']') {
        Some((Json::Array(Seq::empty()), r + 1))
    } else {
        parse_elements(s, r, Seq::empty())
    }
}

/// The elements of an array from `p` on, with `acc` those read so far, up to
/// and including the closing bracket. Whitespace may stand around each
/// element and each comma.
pub open spec fn parse_elements(s: Seq<char>, p: int, acc: Seq<Json>) -> Option<(Json, int)>
    decreases s.len() - p, 3int,
{
    match parse_value(s, p) {
        None => None,
        Some((v, r)) => {
            let t = skip_ws(s, r);
            // A value spans at least one character (`lemma_value_end`), so
            // `t > p` always holds; testing it keeps the termination argument
            // local.
            if t <= p {
                None
            } else if char_at(s, t) == Some(',') {
                proof {
                    lemma_skip_ws(s, t + 1);
                }
                parse_elements(s, skip_ws(s, t + 1), acc.push(v))
            } else if char_at(s, t) == Some(']') {
                Some((Json::Array(acc.push(v)), t + 1))
            } else {
                None
            }
        },
    }
}

/// An object whose opening brace stands at `q`.
pub open spec fn parse_object(s: Seq<char>, q: int) -> Option<(Json, int)>
    decreases s.len() - q, 1int,
{
    let r = skip_ws(s, q + 1);
    proof {
        lemma_skip_ws(s, q + 1);
    }
    if char_at(s, q) != Some('{') {
        None
    } else if char_at(s, r) == Some('}') {
        Some((Json::Object(Seq::empty()), r + 1))
    } else {
        parse_members(s, r, Seq::empty())
    }
}

/// The members of an object from `p` on (each a string key, a colon and a
/// value), with `acc` the entries read so far, up to and including the closing
/// brace. Whitespace may stand around each key, colon, value and comma; a key
/// that comes again replaces the earlier value.
pub open spec fn parse_members(s: Seq<char>, p: int, acc: Seq<(Seq<char>, Json)>) -> Option<
    (Json, int),
>
    decreases s.len() - p, 3int,
{
    match parse_string(s, p) {
        None => None,
        Some((k, r1)) => {
            let r2 = skip_ws(s, r1);
            proof {
                lemma_string_end(s, p);
                lemma_skip_ws(s, r1);
            }
            if char_at(s, r2) != Some(':') {
                None
            } else {
                match parse_value(s, r2 + 1) {
                    None => None,
                    Some((v, r3)) => {
                        let t = skip_ws(s, r3);
                        let acc2 = insert_entry(acc, k, v);
                        // As in `parse_elements`, `t > p` always holds
                        // (`lemma_value_end`).
                        if t <= p {
                            None
                        } else if char_at(s, t) == Some(',') {
                            proof {
                                lemma_skip_ws(s, t + 1);
                            }
                            parse_members(s, skip_ws(s, t + 1), acc2)
                        } else if char_at(s, t) == Some('}') {
                            Some((Json::Object(acc2), t + 1))
                        } else {
                            None
                        }
                    },
                }
            }
        },
    }
}

/// A whole text: the value that follows any leading whitespace, or null when
/// there is nothing but whitespace.
pub open spec fn parse_text(s: Seq<char>) -> Option<Json> {
    if skip_ws(s, 0) >= s.len() {
        Some(Json::Null)
    } else {
        match parse_value(s, 0) {
            Some((v, _)) => Some(v),
            None => None,
        }
    }
}

pub proof fn lemma_skip_ws(s: Seq<char>, p: int)
    ensures
        p <= skip_ws(s, p),
        0 <= p <= s.len() ==> skip_ws(s, p) <= s.len(),
        forall|i: int| p <= i < skip_ws(s, p) ==> is_ws(#[trigger] s[i]),
        0 <= skip_ws(s, p) < s.len() ==> !is_ws(s[skip_ws(s, p)]),
    decreases s.len() - p,
{
    if 0 <= p < s.len() && is_ws(s[p]) {
        lemma_skip_ws(s, p + 1);
    }
}

pub proof fn lemma_skip_ws_again(s: Seq<char>, p: int)
    ensures
        skip_ws(s, skip_ws(s, p)) == skip_ws(s, p),
    decreases s.len() - p,
{
    if 0 <= p < s.len() && is_ws(s[p]) {
        lemma_skip_ws_again(s, p + 1);
    }
}

/// A value may be looked for before or after the whitespace that precedes it.
pub proof fn lemma_value_after_ws(s: Seq<char>, p: int)
    ensures
        parse_value(s, skip_ws(s, p)) == parse_value(s, p),
{
    lemma_skip_ws_again(s, p);
}

pub proof fn lemma_number_end(s: Seq<char>, p: int)
    ensures
        p <= number_end(s, p),
        0 <= p <= s.len() ==> number_end(s, p) <= s.len(),
        forall|i: int| p <= i < number_end(s, p) ==> is_number_char(#[trigger] s[i]),
        0 <= number_end(s, p) < s.len() ==> !is_number_char(s[number_end(s, p)]),
    decreases s.len() - p,
{
    if 0 <= p < s.len() && is_number_char(s[p]) {
        lemma_number_end(s, p + 1);
    }
}

pub proof fn lemma_string_body_end(s: Seq<char>, p: int, acc: Seq<char>)
    ensures
        parse_string_body(s, p, acc) matches Some((_, e)) ==> p < e <= s.len(),
    decreases s.len() - p,
{
    if 0 <= p < s.len() && s[p] != '"' {
        if s[p] == '\\' {
            if let Some(c) = parse_escape(s, p + 1) {
                lemma_string_body_end(s, p + 2 + escape_extra(s[p + 1]), acc.push(c));
            }
        } else {
            lemma_string_body_end(s, p + 1, acc.push(s[p]));
        }
    }
}

pub proof fn lemma_string_end(s: Seq<char>, p: int)
    ensures
        parse_string(s, p) matches Some((_, e)) ==> p < e <= s.len(),
{
    lemma_string_body_end(s, p + 1, Seq::empty());
}

proof fn lemma_elements_end(s: Seq<char>, p: int, acc: Seq<Json>)
    ensures
        parse_elements(s, p, acc) matches Some((_, e)) ==> e > p,
    decreases s.len() - p,
{
    if let Some((v, r)) = parse_value(s, p) {
        let t = skip_ws(s, r);
        if t > p && char_at(s, t) == Some(',') {
            lemma_skip_ws(s, t + 1);
            lemma_elements_end(s, skip_ws(s, t + 1), acc.push(v));
        }
    }
}

proof fn lemma_members_end(s: Seq<char>, p: int, acc: Seq<(Seq<char>, Json)>)
    ensures
        parse_members(s, p, acc) matches Some((_, e)) ==> e > p,
    decreases s.len() - p,
{
    if let Some((k, r1)) = parse_string(s, p) {
        let r2 = skip_ws(s, r1);
        if char_at(s, r2) == Some(':') {
            if let Some((v, r3)) = parse_value(s, r2 + 1) {
                let t = skip_ws(s, r3);
                if t > p && char_at(s, t) == Some(',') {
                    lemma_skip_ws(s, t + 1);
                    lemma_members_end(s, skip_ws(s, t + 1), insert_entry(acc, k, v));
                }
            }
        }
    }
}

/// A value spans at least one character.
pub proof fn lemma_value_end(s: Seq<char>, p: int)
    ensures
        parse_value(s, p) matches Some((_, e)) ==> e > p,
{
    let q = skip_ws(s, p);
    lemma_skip_ws(s, p);
    if 0 <= q < s.len() {
        lemma_number_end(s, q + 1);
        lemma_string_end(s, q);
        lemma_skip_ws(s, q + 1);
        lemma_elements_end(s, skip_ws(s, q + 1), Seq::empty());
        lemma_members_end(s, skip_ws(s, q + 1), Seq::empty());
    }
}

} // verus!
