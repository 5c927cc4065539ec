use fuz_json_parser::json_parser::parsers::{
    main_parse, parse_array, parse_escape_sequence, parse_number, parse_object, parse_string,
};
use fuz_json_parser::json_parser::state::{is_number_part, ParserState};

#[test]
fn peek_and_advance() {
    let mut state = ParserState::new("ab");
    assert_eq!(state.get_pos(), 0);
    assert_eq!(state.peek(), Some('a'));
    assert_eq!(state.advance(), Some('a'));
    assert_eq!(state.get_pos(), 1);
    assert_eq!(state.advance(), Some('b'));
    assert_eq!(state.advance(), None);
    assert_eq!(state.peek(), None);
    assert_eq!(state.get_pos(), 3);
    assert_eq!(state.advance(), None);
    assert_eq!(state.get_pos(), 3);
}

#[test]
fn reading_at_the_end_steps_past_it() {
    let mut state = ParserState::new("");
    assert_eq!(state.advance(), None);
    assert_eq!(state.get_pos(), 1);

    let mut state = ParserState::new("");
    let e = state.assert_char('x', false).unwrap_err();
    assert_eq!(e.message(), "No char returned");
    assert_eq!(state.get_pos(), 1);
}

#[test]
fn check_char_moves_only_on_match() {
    let mut state = ParserState::new("-127");
    assert!(!state.check_char('+'));
    assert_eq!(state.get_pos(), 0);
    assert!(state.check_char('-'));
    assert_eq!(state.get_pos(), 1);
}

#[test]
fn assert_char_and_string() {
    let mut state = ParserState::new("TrUe!");
    assert!(state.assert_char('t', true).is_ok());
    assert!(state.assert_string("rue", true).is_ok());
    assert_eq!(state.get_pos(), 4);
    let e = state.assert_char('?', false).unwrap_err();
    assert_eq!(e.message(), "`!` is not equal to `?` at position 5");
    assert_eq!(state.get_pos(), 5);
    assert!(state.assert_char('x', false).is_err());
    assert_eq!(state.get_pos(), 6);

    let mut exact = ParserState::new("Null");
    let e = exact.assert_string("null", false).unwrap_err();
    assert_eq!(
        e.message(),
        "failed assert expected \"null\"\n`N` is not equal to `n` at position 1"
    );
    assert_eq!(exact.get_pos(), 1);

    let mut short = ParserState::new("nu");
    let e = short.assert_string("null", false).unwrap_err();
    assert_eq!(e.message(), "failed assert expected \"null\"\nNo char returned");
    assert_eq!(short.get_pos(), 3);
}

#[test]
fn number_and_whitespace_scans() {
    let mut state = ParserState::new(" \t\n-1.5e3");
    assert!(state.is_whitespace());
    state.consume_whitespace();
    assert_eq!(state.get_pos(), 3);
    assert!(!state.is_whitespace());
    assert_eq!(state.consume_number(), "-1.5");
    assert_eq!(state.peek(), Some('e'));
    assert!(is_number_part('7') && is_number_part('-') && is_number_part('.'));
    assert!(!is_number_part('e'));
}

#[test]
fn string_and_escape_productions() {
    let mut state = ParserState::new("\"a\\u0042c\" rest");
    assert_eq!(parse_string(&mut state).unwrap(), "aBc");
    assert_eq!(state.get_pos(), 10);

    let mut esc = ParserState::new("u00e9");
    assert_eq!(parse_escape_sequence(&mut esc).unwrap(), 'é');
    let mut bad = ParserState::new("q");
    assert_eq!(
        parse_escape_sequence(&mut bad).unwrap_err().message(),
        "invalid character escape at 1\tattempted escape character`q`"
    );
    let mut empty = ParserState::new("");
    assert_eq!(
        parse_escape_sequence(&mut empty).unwrap_err().message(),
        "Invalid JSON\t unexpected end of string"
    );
    let mut short = ParserState::new("u00");
    assert_eq!(
        parse_escape_sequence(&mut short).unwrap_err().message(),
        "Invalid JSON\t unexpected end of string"
    );
    let mut surrogate = ParserState::new("uD800");
    assert_eq!(
        parse_escape_sequence(&mut surrogate).unwrap_err().message(),
        "failed to parse unicode escape"
    );

    let mut open = ParserState::new("\"unmatched quote");
    assert_eq!(
        parse_string(&mut open).unwrap_err().message(),
        "Invalid JSON\t unexpected end of string"
    );
    let mut unquoted = ParserState::new("abc\"");
    assert_eq!(
        parse_string(&mut unquoted).unwrap_err().message(),
        "`a` is not equal to `\"` at position 1"
    );
}

#[test]
fn value_and_number_messages() {
    let mut blank = ParserState::new("   ");
    assert_eq!(
        main_parse(&mut blank).unwrap_err().message(),
        "Invalid JSON\t unexpected end of string"
    );
    let mut text = ParserState::new("randomtext");
    assert_eq!(
        main_parse(&mut text).unwrap_err().message(),
        "Invalid JSON\tunknown character at position: 0 `r`"
    );
    let mut dots = ParserState::new("1.2.3");
    let e = parse_number(&mut dots).unwrap_err();
    assert!(e.message().contains("1.2.3"));
    let mut big = ParserState::new("170141183460469231731687303715884105728");
    let e = parse_number(&mut big).unwrap_err();
    assert!(e.message().contains("170141183460469231731687303715884105728"));
    let mut array = ParserState::new("[1 2]");
    assert_eq!(
        parse_array(&mut array).unwrap_err().message(),
        "Invalid json string error at position 4  expected either `,` or `]` instead found `2`"
    );
    let mut object = ParserState::new("{\"a\": 1 ; }");
    assert_eq!(
        parse_object(&mut object).unwrap_err().message(),
        "Invalid json string error at position 9  expected either `,` or `}` instead found `;`"
    );
}
