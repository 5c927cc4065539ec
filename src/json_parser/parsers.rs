//! The productions of the grammar: each reads one construct with the cursor
//! and builds its value, exactly as the matching spec function of
//! [`crate::json_parser::grammar`] describes.
use vstd::prelude::*;
use crate::error::{FuzJsonParseError, Result};
use crate::json_parser::grammar;
use crate::json_parser::grammar::{
    escape_extra, false_text, has_key, hex4_value, hex_value, insert_entry, is_hex4, keys_unique,
    lemma_number_end, lemma_skip_ws, lemma_value_after_ws, null_text, number_end, parse_string_body,
    true_text,
};
use crate::json_parser::literals::{hex_digit_value, int_value, is_float_literal};
use crate::json_parser::messages::{
    array_error, bad_escape_message, end_message, escape_error, first_non_hex,
    lemma_value_error_after_ws, number_message, object_error, separator_message, string_body_error,
    string_error, unicode_message, unknown_char_message, value_error, elements_error, members_error,
};
use crate::json_parser::state::ParserState;
use crate::text::{append_nat, char_from_code, chars_of, push_char};
use crate::values::{
    entries_view, lemma_entries_view, lemma_entries_view_push, lemma_entries_view_update,
    lemma_items_view_push, items_view, Json, JsonNum, JsonValue,
};

verus! {

/// Whether a production's result `r`, with the cursor left at `end`, is the
/// one that the grammar gives (`expected`), and where the grammar reads
/// nothing, an error with `message`.
pub open spec fn agrees(
    r: Result<JsonValue>,
    expected: Option<(Json, int)>,
    end: int,
    message: Seq<char>,
) -> bool {
    match expected {
        Some((v, e)) => r matches Ok(x) && x@ == v && end == e,
        None => r matches Err(x) && x.0@ == message,
    }
}

/// The error for input that ends in the middle of a construct.
fn unexpected_end() -> (r: FuzJsonParseError)
    ensures
        r.0@ == end_message(),
{
    FuzJsonParseError(String::from_str("Invalid JSON\t unexpected end of string"))
}

/// The error for a `\u` escape that does not decode.
fn unicode_error() -> (r: FuzJsonParseError)
    ensures
        r.0@ == unicode_message(),
{
    FuzJsonParseError(String::from_str("failed to parse unicode escape"))
}

/// An error that names the character `c` found at position `pos` where one of
/// `expected` should have been.
fn unexpected_char(pos: usize, expected: &str, c: char) -> (r: FuzJsonParseError)
    ensures
        r.0@ == separator_message(pos as int, expected@, c),
{
    let mut msg = String::from_str("Invalid json string error at position ");
    append_nat(&mut msg, pos as u128);
    msg.append("  expected either ");
    msg.append(expected);
    msg.append(" instead found `");
    push_char(&mut msg, c);
    msg.append("`");
    assert(msg@ =~= separator_message(pos as int, expected@, c));
    FuzJsonParseError(msg)
}

/// Reads a number literal: a floating-point number if the literal holds a
/// point, an integer otherwise.
pub fn parse_number(state: &mut ParserState) -> (r: Result<JsonValue>)
    requires
        old(state).wf(),
        old(state).pos() <= old(state).text().len(),
    ensures
        final(state).wf(),
        final(state).text() == old(state).text(),
        final(state).pos() >= old(state).pos(),
        agrees(
            r,
            grammar::parse_number(old(state).text(), old(state).pos()),
            final(state).pos(),
            number_message(
                old(state).text().subrange(
                    old(state).pos(),
                    number_end(old(state).text(), old(state).pos()),
                ),
            ),
        ),
{
    proof {
        lemma_number_end(old(state).text(), old(state).pos());
    }
    let number_string = state.consume_number();
    let t = chars_of(number_string.as_str());
    let mut has_point = false;
    let mut i: usize = 0;
    while i < t.len()
        invariant
            i <= t.len(),
            has_point <==> exists|j: int| 0 <= j < i && t@[j] == '.',
        decreases t.len() - i,
    {
        if t[i] == '.' {
            has_point = true;
        }
        i = i + 1;
    }
    assert(has_point == t@.contains('.'));
    if has_point {
        if is_float_literal(&t) {
            Ok(JsonValue::Num(JsonNum::Float(number_string)))
        } else {
            let mut msg = String::from_str("failed to parse number as f64 (");
            msg.append(number_string.as_str());
            msg.append(") invalid float literal");
            assert(msg@ =~= number_message(number_string@));
            Err(FuzJsonParseError(msg))
        }
    } else {
        match int_value(&t) {
            Some(n) => Ok(JsonValue::Num(JsonNum::Int(n))),
            None => {
                let mut msg = String::from_str("failed to parse number as i128 (");
                msg.append(number_string.as_str());
                msg.append(") invalid or out of range integer literal");
                assert(msg@ =~= number_message(number_string@));
                Err(FuzJsonParseError(msg))
            },
        }
    }
}

/// Reads the rest of an escape sequence, just after its backslash, and
/// returns the character it stands for.
pub fn parse_escape_sequence(state: &mut ParserState) -> (r: Result<char>)
    requires
        old(state).wf(),
    ensures
        final(state).wf(),
        final(state).text() == old(state).text(),
        match grammar::parse_escape(old(state).text(), old(state).pos()) {
            Some(c) => r == Ok::<char, FuzJsonParseError>(c) && final(state).pos() == old(
                state,
            ).pos() + 1 + escape_extra(old(state).text()[old(state).pos()]),
            None => r matches Err(e) && e.0@ == escape_error(old(state).text(), old(state).pos()),
        },
        final(state).pos() >= old(state).pos(),
{
    let ghost s = state.text();
    let ghost p = state.pos();
    match state.advance() {
        Some('n') => Ok('\n'),
        Some('t') => Ok('\t'),
        Some('r') => Ok('\r'),
        Some('u') => {
            let mut code: u32 = 0;
            let mut k: usize = 0;
            while k < 4
                invariant
                    state.wf(),
                    state.text() == s,
                    s == old(state).text(),
                    p == old(state).pos(),
                    0 <= p,
                    s[p] == 'u',
                    k <= 4,
                    state.pos() == p + 1 + k,
                    p + 1 + k <= s.len(),
                    forall|j: int| 0 <= j < k ==> hex_value(#[trigger] s[p + 1 + j]) >= 0,
                    first_non_hex(s, p + 1, 0) == first_non_hex(s, p + 1, k as int),
                    code == if k == 0 {
                        0
                    } else if k == 1 {
                        hex_value(s[p + 1])
                    } else if k == 2 {
                        16 * hex_value(s[p + 1]) + hex_value(s[p + 2])
                    } else if k == 3 {
                        256 * hex_value(s[p + 1]) + 16 * hex_value(s[p + 2]) + hex_value(s[p + 3])
                    } else {
                        hex4_value(s, p + 1)
                    },
                decreases 4 - k,
            {
                match state.advance() {
                    Some(c) => match hex_digit_value(c) {
                        Some(v) => {
                            code = code * 16 + v;
                        },
                        None => {
                            assert(!is_hex4(s, p + 1));
                            assert(first_non_hex(s, p + 1, k as int) == k);
                            assert(escape_error(s, p) == unicode_message());
                            return Err(unicode_error());
                        },
                    },
                    None => {
                        assert(!is_hex4(s, p + 1));
                        assert(first_non_hex(s, p + 1, k as int) == k);
                        return Err(unexpected_end());
                    },
                }
                assert(first_non_hex(s, p + 1, k as int) == first_non_hex(s, p + 1, k + 1));
                k = k + 1;
            }
            match char_from_code(code) {
                Some(c) => {
                    proof {
                        vstd::utf8::char_u32_cast(c, code);
                    }
                    assert(c == ((hex4_value(s, p + 1) as u32) as char));
                    Ok(c)
                },
                None => {
                    assert(first_non_hex(s, p + 1, 4) == 4);
                    Err(unicode_error())
                },
            }
        },
        Some('"') => Ok('"'),
        Some('\\') => Ok('\\'),
        None => Err(unexpected_end()),
        Some(c) => {
            let mut msg = String::from_str("invalid character escape at ");
            append_nat(&mut msg, state.get_pos() as u128);
            msg.append("\tattempted escape character`");
            push_char(&mut msg, c);
            msg.append("`");
            assert(msg@ =~= bad_escape_message(p + 1, c));
            Err(FuzJsonParseError(msg))
        },
    }
}

/// Reads a string literal from its opening quote to its closing quote, and
/// returns the text between them with escape sequences decoded.
pub fn parse_string(state: &mut ParserState) -> (r: Result<String>)
    requires
        old(state).wf(),
    ensures
        final(state).wf(),
        final(state).text() == old(state).text(),
        match grammar::parse_string(old(state).text(), old(state).pos()) {
            Some((t, e)) => r matches Ok(x) && x@ == t && final(state).pos() == e,
            None => r matches Err(e) && e.0@ == string_error(old(state).text(), old(state).pos()),
        },
        final(state).pos() >= old(state).pos(),
{
    let ghost s = state.text();
    let ghost p = state.pos();
    match state.assert_char('"', false) {
        Ok(()) => {},
        Err(e) => {
            return Err(e);
        },
    }
    let mut working_string = String::new();
    loop
        invariant
            state.wf(),
            state.text() == s,
            s == old(state).text(),
            p == old(state).pos(),
            p < state.pos(),
            grammar::parse_string(s, p) == parse_string_body(s, state.pos(), working_string@),
            string_error(s, p) == string_body_error(s, state.pos()),
        decreases s.len() + 1 - state.pos(),
    {
        let c = match state.advance() {
            Some(c) => c,
            None => {
                return Err(unexpected_end());
            },
        };
        if c == '"' {
            return Ok(working_string);
        } else if c == '\\' {
            match parse_escape_sequence(state) {
                Ok(decoded) => {
                    push_char(&mut working_string, decoded);
                },
                Err(e) => {
                    return Err(e);
                },
            }
        } else {
            push_char(&mut working_string, c);
        }
    }
}

/// Binds `key` to `value` in the entries of an object: an entry with that key
/// has its value replaced in place, else the entry goes at the end.
pub fn insert_member(entries: &mut Vec<(String, JsonValue)>, key: String, value: JsonValue)
    requires
        keys_unique(entries_view(old(entries)@)),
    ensures
        keys_unique(entries_view(final(entries)@)),
        entries_view(final(entries)@) == insert_entry(
            entries_view(old(entries)@),
            key@,
            value@,
        ),
{
    let ghost before = entries_view(entries@);
    proof {
        lemma_entries_view(entries@);
    }
    let mut i: usize = 0;
    while i < entries.len()
        invariant
            entries@ == old(entries)@,
            before == entries_view(entries@),
            before.len() == entries@.len(),
            forall|j: int|
                0 <= j < entries@.len() ==> #[trigger] before[j] == (
                    entries@[j].0@,
                    entries@[j].1@,
                ),
            keys_unique(before),
            i <= entries.len(),
            forall|j: int| 0 <= j < i ==> #[trigger] before[j].0 != key@,
        decreases entries.len() - i,
    {
        if entries[i].0 == key {
            proof {
                assert(before[i as int].0 == key@);
                assert(has_key(before, key@));
                let c = choose|c: int| 0 <= c < before.len() && #[trigger] before[c].0 == key@;
                assert(c == i);
                lemma_entries_view_update(entries@, i as int, (key, value));
            }
            entries.set(i, (key, value));
            proof {
                let after = entries_view(entries@);
                assert(after == before.update(i as int, (key@, value@)));
            }
            return;
        }
        i = i + 1;
    }
    proof {
        assert(!has_key(before, key@));
        lemma_entries_view_push(entries@, (key, value));
    }
    entries.push((key, value));
}

/// Reads an array from its opening bracket to its closing bracket.
pub fn parse_array(state: &mut ParserState) -> (r: Result<JsonValue>)
    requires
        old(state).wf(),
    ensures
        final(state).wf(),
        final(state).text() == old(state).text(),
        agrees(
            r,
            grammar::parse_array(old(state).text(), old(state).pos()),
            final(state).pos(),
            array_error(old(state).text(), old(state).pos()),
        ),
        final(state).pos() >= old(state).pos(),
        r is Ok ==> final(state).pos() > old(state).pos(),
    decreases old(state).text().len() + 1 - old(state).pos(), 1int,
{
    let ghost s = state.text();
    let ghost p = state.pos();
    match state.assert_char('[', false) {
        Ok(()) => {},
        Err(e) => {
            return Err(e);
        },
    }
    state.consume_whitespace();
    proof {
        lemma_skip_ws(s, p + 1);
    }
    let mut json_list: Vec<JsonValue> = Vec::new();
    if state.check_char(']') {
        return Ok(JsonValue::Array(json_list));
    }
    loop
        invariant
            state.wf(),
            state.text() == s,
            s == old(state).text(),
            p == old(state).pos(),
            p < state.pos(),
            grammar::parse_array(s, p) == grammar::parse_elements(
                s,
                state.pos(),
                items_view(json_list@),
            ),
            array_error(s, p) == elements_error(s, state.pos()),
        decreases s.len() + 1 - state.pos(),
    {
        let value = match main_parse(state) {
            Ok(v) => v,
            Err(e) => {
                return Err(e);
            },
        };
        proof {
            lemma_items_view_push(json_list@, value);
        }
        json_list.push(value);
        let ghost r = state.pos();
        state.consume_whitespace();
        let ghost t = state.pos();
        proof {
            lemma_skip_ws(s, r);
        }
        match state.advance() {
            Some(',') => {
                state.consume_whitespace();
                proof {
                    lemma_skip_ws(s, t + 1);
                }
            },
            Some(']') => {
                return Ok(JsonValue::Array(json_list));
            },
            None => {
                return Err(unexpected_end());
            },
            Some(c) => {
                return Err(unexpected_char(state.get_pos(), "`,` or `]`", c));
            },
        }
    }
}

/// Reads an object from its opening brace to its closing brace. A key that
/// comes again replaces the earlier value.
pub fn parse_object(state: &mut ParserState) -> (r: Result<JsonValue>)
    requires
        old(state).wf(),
    ensures
        final(state).wf(),
        final(state).text() == old(state).text(),
        agrees(
            r,
            grammar::parse_object(old(state).text(), old(state).pos()),
            final(state).pos(),
            object_error(old(state).text(), old(state).pos()),
        ),
        final(state).pos() >= old(state).pos(),
        r is Ok ==> final(state).pos() > old(state).pos(),
    decreases old(state).text().len() + 1 - old(state).pos(), 1int,
{
    let ghost s = state.text();
    let ghost p = state.pos();
    match state.assert_char('{', false) {
        Ok(()) => {},
        Err(e) => {
            return Err(e);
        },
    }
    state.consume_whitespace();
    proof {
        lemma_skip_ws(s, p + 1);
    }
    let mut json_map: Vec<(String, JsonValue)> = Vec::new();
    proof {
        lemma_entries_view(json_map@);
    }
    if state.check_char('}') {
        return Ok(JsonValue::Obj(json_map));
    }
    loop
        invariant
            state.wf(),
            state.text() == s,
            s == old(state).text(),
            p == old(state).pos(),
            p < state.pos(),
            keys_unique(entries_view(json_map@)),
            grammar::parse_object(s, p) == grammar::parse_members(
                s,
                state.pos(),
                entries_view(json_map@),
            ),
            object_error(s, p) == members_error(s, state.pos()),
        decreases s.len() + 1 - state.pos(),
    {
        let ghost q = state.pos();
        let key = match parse_string(state) {
            Ok(k) => k,
            Err(e) => {
                return Err(e);
            },
        };
        let ghost r1 = state.pos();
        proof {
            grammar::lemma_string_end(s, q);
        }
        state.consume_whitespace();
        proof {
            lemma_skip_ws(s, r1);
        }
        match state.assert_char(':', false) {
            Ok(()) => {},
            Err(e) => {
                return Err(e);
            },
        }
        let ghost r2 = state.pos() - 1;
        state.consume_whitespace();
        proof {
            lemma_value_after_ws(s, r2 + 1);
            lemma_value_error_after_ws(s, r2 + 1);
            lemma_skip_ws(s, r2 + 1);
        }
        let value = match main_parse(state) {
            Ok(v) => v,
            Err(e) => {
                return Err(e);
            },
        };
        insert_member(&mut json_map, key, value);
        let ghost r3 = state.pos();
        state.consume_whitespace();
        proof {
            lemma_skip_ws(s, r3);
        }
        match state.advance() {
            Some(',') => {
                let ghost t = state.pos() - 1;
                state.consume_whitespace();
                proof {
                    lemma_skip_ws(s, t + 1);
                }
            },
            Some('}') => {
                return Ok(JsonValue::Obj(json_map));
            },
            None => {
                return Err(unexpected_end());
            },
            Some(c) => {
                return Err(unexpected_char(state.get_pos(), "`,` or `}`", c));
            },
        }
    }
}

/// Reads one value, after any whitespace: the first character decides which
/// construct it is.
pub fn main_parse(state: &mut ParserState) -> (r: Result<JsonValue>)
    requires
        old(state).wf(),
    ensures
        final(state).wf(),
        final(state).text() == old(state).text(),
        agrees(
            r,
            grammar::parse_value(old(state).text(), old(state).pos()),
            final(state).pos(),
            value_error(old(state).text(), old(state).pos()),
        ),
        final(state).pos() >= old(state).pos(),
        r is Ok ==> final(state).pos() > old(state).pos(),
    decreases old(state).text().len() + 1 - old(state).pos(), 2int,
{
    let ghost s = state.text();
    let ghost p = state.pos();
    state.consume_whitespace();
    proof {
        lemma_skip_ws(s, p);
    }
    let ghost q = state.pos();
    match state.peek() {
        Some(c) => {
            if c == 't' || c == 'T' {
                proof {
                    reveal_strlit("true");
                    assert("true"@ =~= true_text());
                }
                match state.assert_string("true", true) {
                    Ok(()) => Ok(JsonValue::Bool(true)),
                    Err(e) => Err(e),
                }
            } else if c == 'f' || c == 'F' {
                proof {
                    reveal_strlit("false");
                    assert("false"@ =~= false_text());
                }
                match state.assert_string("false", true) {
                    Ok(()) => Ok(JsonValue::Bool(false)),
                    Err(e) => Err(e),
                }
            } else if c == 'n' {
                proof {
                    reveal_strlit("null");
                    assert("null"@ =~= null_text());
                }
                match state.assert_string("null", false) {
                    Ok(()) => Ok(JsonValue::Null),
                    Err(e) => Err(e),
                }
            } else if c == '.' || c == '-' || ('0' <= c && c <= '9') {
                proof {
                    lemma_number_end(s, q + 1);
                }
                parse_number(state)
            } else if c == '"' {
                proof {
                    grammar::lemma_string_end(s, q);
                }
                match parse_string(state) {
                    Ok(t) => Ok(JsonValue::String(t)),
                    Err(e) => Err(e),
                }
            } else if c == '[' {
                parse_array(state)
            } else if c == '{' {
                parse_object(state)
            } else {
                let mut msg = String::from_str("Invalid JSON\tunknown character at position: ");
                append_nat(&mut msg, state.get_pos() as u128);
                msg.append(" `");
                push_char(&mut msg, c);
                msg.append("`");
                assert(msg@ =~= unknown_char_message(q, c));
                Err(FuzJsonParseError(msg))
            }
        },
        None => Err(unexpected_end()),
    }
}

} // verus!
