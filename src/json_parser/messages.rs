//! The error messages of the parser, stated as spec functions: for each
//! production, the message that it gives where the grammar of
//! [`crate::json_parser::grammar`] reads nothing.
use vstd::prelude::*;
use crate::json_parser::grammar::{
    literal_at, literal_char_at, char_at, chars_match, escape_extra, false_text, hex_value, is_number_char, lemma_skip_ws,
    lemma_string_end, null_text, number_end, parse_escape, parse_string, parse_value, skip_ws,
    true_text,
};
use crate::text::nat_text;

verus! {

/// Where the cursor goes when it reads one character at `i`: one step on, up
/// to one past the end of the input.
pub open spec fn next_pos(s: Seq<char>, i: int) -> int {
    if i <= s.len() {
        i + 1
    } else {
        i
    }
}

/// The message for input that ends in the middle of a construct.
pub open spec fn end_message() -> Seq<char> {
    "Invalid JSON\t unexpected end of string"@
}

/// The message when a character is expected at the end of the input.
pub open spec fn no_char_message() -> Seq<char> {
    "No char returned"@
}

/// The message when `found` was read, at position `pos`, where `expected`
/// should have been.
pub open spec fn mismatch_message(found: char, expected: char, pos: int) -> Seq<char> {
    "`"@ + seq![found] + "` is not equal to `"@ + seq![expected] + "` at position "@ + nat_text(
        pos as nat,
    )
}

/// The message when the character at `i` is not the `expected` one.
pub open spec fn char_error_message(s: Seq<char>, i: int, expected: char) -> Seq<char> {
    if 0 <= i < s.len() {
        mismatch_message(s[i], expected, i + 1)
    } else {
        no_char_message()
    }
}

/// Whether the character at `i` is there and matches `c`.
pub open spec fn char_ok(s: Seq<char>, i: int, c: char, ignore_case: bool) -> bool {
    0 <= i && i < s.len() && chars_match(s[i], c, ignore_case)
}

/// The index, from `k` on, of the first character of `lit` that the input
/// from `p` on does not match (`lit.len()` if there is none).
pub open spec fn first_mismatch(s: Seq<char>, p: int, lit: Seq<char>, ignore_case: bool, k: int) -> int
    decreases lit.len() - k,
{
    if k < 0 || k >= lit.len() {
        k
    } else if char_ok(s, p + k, lit[k], ignore_case) {
        first_mismatch(s, p, lit, ignore_case, k + 1)
    } else {
        k
    }
}

/// The message when the input from `p` on does not spell `lit`.
pub open spec fn literal_message(s: Seq<char>, p: int, lit: Seq<char>, ignore_case: bool) -> Seq<
    char,
> {
    let k = first_mismatch(s, p, lit, ignore_case, 0);
    "failed assert expected \""@ + lit + "\"\n"@ + char_error_message(s, p + k, lit[k])
}

/// The message for a character `c`, at position `pos`, that starts no value.
pub open spec fn unknown_char_message(pos: int, c: char) -> Seq<char> {
    "Invalid JSON\tunknown character at position: "@ + nat_text(pos as nat) + " `"@ + seq![c]
        + "`"@
}

/// The message for a character `c`, at position `pos`, where one of
/// `expected` should have followed an element or a member.
pub open spec fn separator_message(pos: int, expected: Seq<char>, c: char) -> Seq<char> {
    "Invalid json string error at position "@ + nat_text(pos as nat) + "  expected either "@
        + expected + " instead found `"@ + seq![c] + "`"@
}

/// The message for a number literal `t` that does not convert.
pub open spec fn number_message(t: Seq<char>) -> Seq<char> {
    if t.contains('.') {
        "failed to parse number as f64 ("@ + t + ") invalid float literal"@
    } else {
        "failed to parse number as i128 ("@ + t + ") invalid or out of range integer literal"@
    }
}

/// The message for an escape letter `c` that is not one, read at position
/// `pos`.
pub open spec fn bad_escape_message(pos: int, c: char) -> Seq<char> {
    "invalid character escape at "@ + nat_text(pos as nat) + "\tattempted escape character`"@
        + seq![c] + "`"@
}

/// The message for a `\u` escape that is not four hexadecimal digits of a
/// Unicode scalar value.
pub open spec fn unicode_message() -> Seq<char> {
    "failed to parse unicode escape"@
}

/// The index, from `k` on, of the first of the four characters from `q` on
/// that is missing or not a hexadecimal digit (4 if there is none).
pub open spec fn first_non_hex(s: Seq<char>, q: int, k: int) -> int
    decreases 4 - k,
{
    if k >= 4 {
        k
    } else if 0 <= q + k < s.len() && hex_value(s[q + k]) >= 0 {
        first_non_hex(s, q, k + 1)
    } else {
        k
    }
}

/// The message of an escape sequence whose letter stands at `p`, where it
/// does not decode.
pub open spec fn escape_error(s: Seq<char>, p: int) -> Seq<char> {
    if !(0 <= p < s.len()) {
        end_message()
    } else if s[p] == 'u' {
        let k = first_non_hex(s, p + 1, 0);
        if k < 4 && p + 1 + k >= s.len() {
            end_message()
        } else {
            unicode_message()
        }
    } else {
        bad_escape_message(p + 1, s[p])
    }
}

/// The message of the rest of a string literal from `p` on, where it does
/// not read.
pub open spec fn string_body_error(s: Seq<char>, p: int) -> Seq<char>
    decreases s.len() - p,
{
    if !(0 <= p < s.len()) {
        end_message()
    } else if s[p] == '"' {
        Seq::empty()
    } else if s[p] == '\\' {
        match parse_escape(s, p + 1) {
            Some(_) => string_body_error(s, p + 2 + escape_extra(s[p + 1])),
            None => escape_error(s, p + 1),
        }
    } else {
        string_body_error(s, p + 1)
    }
}

/// The message of a string literal at `p`, where it does not read.
pub open spec fn string_error(s: Seq<char>, p: int) -> Seq<char> {
    if char_at(s, p) != Some('"') {
        char_error_message(s, p, '"')
    } else {
        string_body_error(s, p + 1)
    }
}

/// The message of a value at `p` (after whitespace), where it does not read.
pub open spec fn value_error(s: Seq<char>, p: int) -> Seq<char>
    decreases s.len() - p, 2int,
{
    let q = skip_ws(s, p);
    proof {
        lemma_skip_ws(s, p);
    }
    if !(0 <= q < s.len()) {
        end_message()
    } else {
        let c = s[q];
        if c == 't' || c == 'T' {
            literal_message(s, q, true_text(), true)
        } else if c == 'f' || c == 'F' {
            literal_message(s, q, false_text(), true)
        } else if c == 'n' {
            literal_message(s, q, null_text(), false)
        } else if is_number_char(c) {
            number_message(s.subrange(q, number_end(s, q)))
        } else if c == '"' {
            string_error(s, q)
        } else if c == '[' {
            array_error(s, q)
        } else if c == '{' {
            object_error(s, q)
        } else {
            unknown_char_message(q, c)
        }
    }
}

/// The message of an array at `q`, where it does not read.
pub open spec fn array_error(s: Seq<char>, q: int) -> Seq<char>
    decreases s.len() - q, 1int,
{
    let r = skip_ws(s, q + 1);
    proof {
        lemma_skip_ws(s, q + 1);
    }
    if char_at(s, q) != Some('[') {
        char_error_message(s, q, '[')
    } else if char_at(s, r) == Some(']') {
        Seq::empty()
    } else {
        elements_error(s, r)
    }
}

/// The message of the elements of an array from `p` on, where they do not
/// read.
pub open spec fn elements_error(s: Seq<char>, p: int) -> Seq<char>
    decreases s.len() - p, 3int,
{
    match parse_value(s, p) {
        None => value_error(s, p),
        Some((_, r)) => {
            let t = skip_ws(s, r);
            if t <= p {
                Seq::empty()
            } else if char_at(s, t) == Some(',') {
                proof {
                    lemma_skip_ws(s, t + 1);
                }
                elements_error(s, skip_ws(s, t + 1))
            } else if char_at(s, t) == Some(']') {
                Seq::empty()
            } else if t >= s.len() {
                end_message()
            } else {
                separator_message(t + 1, "`,` or `]`"@, s[t])
            }
        },
    }
}

/// The message of an object at `q`, where it does not read.
pub open spec fn object_error(s: Seq<char>, q: int) -> Seq<char>
    decreases s.len() - q, 1int,
{
    let r = skip_ws(s, q + 1);
    proof {
        lemma_skip_ws(s, q + 1);
    }
    if char_at(s, q) != Some('{') {
        char_error_message(s, q, '{')
    } else if char_at(s, r) == Some('}') {
        Seq::empty()
    } else {
        members_error(s, r)
    }
}

/// The message of the members of an object from `p` on, where they do not
/// read.
pub open spec fn members_error(s: Seq<char>, p: int) -> Seq<char>
    decreases s.len() - p, 3int,
{
    match parse_string(s, p) {
        None => string_error(s, p),
        Some((_, r1)) => {
            let r2 = skip_ws(s, r1);
            proof {
                lemma_string_end(s, p);
                lemma_skip_ws(s, r1);
            }
            if char_at(s, r2) != Some(':') {
                char_error_message(s, r2, ':')
            } else {
                match parse_value(s, r2 + 1) {
                    None => value_error(s, r2 + 1),
                    Some((_, r3)) => {
                        let t = skip_ws(s, r3);
                        if t <= p {
                            Seq::empty()
                        } else if char_at(s, t) == Some(',') {
                            proof {
                                lemma_skip_ws(s, t + 1);
                            }
                            members_error(s, skip_ws(s, t + 1))
                        } else if char_at(s, t) == Some('}') {
                            Seq::empty()
                        } else if t >= s.len() {
                            end_message()
                        } else {
                            separator_message(t + 1, "`,` or `}`"@, s[t])
                        }
                    },
                }
            }
        },
    }
}

/// The message of a whole text, where it does not read.
pub open spec fn text_error(s: Seq<char>) -> Seq<char> {
    value_error(s, 0)
}

/// The first mismatch is where the matching stops.
pub proof fn lemma_first_mismatch(s: Seq<char>, p: int, lit: Seq<char>, ignore_case: bool, k: int, i: int)
    requires
        0 <= k <= i <= lit.len(),
        forall|j: int| k <= j < i ==> char_ok(s, p + j, #[trigger] lit[j], ignore_case),
        i < lit.len() ==> !char_ok(s, p + i, lit[i], ignore_case),
    ensures
        first_mismatch(s, p, lit, ignore_case, k) == i,
    decreases i - k,
{
    if k < i {
        lemma_first_mismatch(s, p, lit, ignore_case, k + 1, i);
    }
}

/// A literal matches exactly where no character of it mismatches.
pub proof fn lemma_literal_at_mismatch(s: Seq<char>, p: int, lit: Seq<char>, ignore_case: bool, k: int)
    requires
        0 <= k <= lit.len(),
        forall|j: int| 0 <= j < k ==> char_ok(s, p + j, #[trigger] lit[j], ignore_case),
    ensures
        (first_mismatch(s, p, lit, ignore_case, k) == lit.len()) <==> literal_at(
            s,
            p,
            lit,
            ignore_case,
        ),
        first_mismatch(s, p, lit, ignore_case, k) <= lit.len(),
    decreases lit.len() - k,
{
    if k < lit.len() {
        if char_ok(s, p + k, lit[k], ignore_case) {
            lemma_literal_at_mismatch(s, p, lit, ignore_case, k + 1);
        } else {
            assert(!literal_char_at(s, p, lit, ignore_case, k));
        }
    } else {
        assert forall|i: int| 0 <= i < lit.len() implies #[trigger] literal_char_at(
            s,
            p,
            lit,
            ignore_case,
            i,
        ) by {
            assert(char_ok(s, p + i, lit[i], ignore_case));
        }
    }
}

/// The message of a value may be looked for before or after the whitespace
/// that precedes it.
pub proof fn lemma_value_error_after_ws(s: Seq<char>, p: int)
    ensures
        value_error(s, skip_ws(s, p)) == value_error(s, p),
{
    crate::json_parser::grammar::lemma_skip_ws_again(s, p);
}

} // verus!
