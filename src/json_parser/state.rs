//! The cursor over the input characters that every production reads with.
use vstd::prelude::*;
use crate::error::{FuzJsonParseError, Result};
use crate::json_parser::grammar::{
    char_at, chars_match, is_number_char, is_ws, literal_at, lower_code, number_end, skip_ws,
};
use crate::json_parser::messages::{
    char_error_message, char_ok, first_mismatch, lemma_first_mismatch, lemma_literal_at_mismatch, literal_message,
    mismatch_message, next_pos, no_char_message,
};
use crate::text::{append_nat, push_char};

verus! {

/// State of a parse: the input characters and the position of the cursor.
#[derive(Debug)]
pub struct ParserState {
    chars: Vec<char>,
    pos: usize,
}

/// The error for a character expected at the end of the input.
fn no_char_error() -> (r: FuzJsonParseError)
    ensures
        r.0@ == no_char_message(),
{
    FuzJsonParseError(String::from_str("No char returned"))
}

/// Whether `c` is one of the characters of a number literal.
pub fn is_number_part(c: char) -> (r: bool)
    ensures
        r == is_number_char(c),
{
    c == '-' || c == '.' || ('0' <= c && c <= '9')
}

/// `c` with an ASCII upper-case letter taken to lower case, as a code.
fn lower_code_of(c: char) -> (r: u32)
    ensures
        r == lower_code(c),
{
    if 'A' <= c && c <= 'Z' {
        c as u32 + 32
    } else {
        c as u32
    }
}

impl ParserState {
    /// The input characters.
    pub closed spec fn text(&self) -> Seq<char> {
        self.chars@
    }

    /// The position of the cursor: the index of the next character to read.
    pub closed spec fn pos(&self) -> int {
        self.pos as int
    }

    /// The cursor goes at most one step past the end of the input, and that
    /// position fits in a `usize`.
    pub open spec fn wf(&self) -> bool {
        &&& 0 <= self.pos() <= self.text().len() + 1
        &&& self.text().len() < usize::MAX
    }

    /// A cursor at the start of `input`.
    pub fn new(input: &str) -> (r: ParserState)
        requires
            input@.len() < usize::MAX,
        ensures
            r.wf(),
            r.text() == input@,
            r.pos() == 0,
    {
        ParserState { chars: crate::text::chars_of(input), pos: 0 }
    }

    /// The position of the cursor.
    pub fn get_pos(&self) -> (r: usize)
        ensures
            r == self.pos(),
    {
        self.pos
    }

    /// The character under the cursor, if any; the cursor does not move.
    pub fn peek(&self) -> (r: Option<char>)
        requires
            self.wf(),
        ensures
            r == char_at(self.text(), self.pos()),
    {
        if self.pos < self.chars.len() {
            Some(self.chars[self.pos])
        } else {
            None
        }
    }

    /// The character under the cursor, if any; the cursor moves one step
    /// on, also at the end of the input (but never more than one step past
    /// it).
    pub fn advance(&mut self) -> (r: Option<char>)
        requires
            old(self).wf(),
        ensures
            final(self).wf(),
            final(self).text() == old(self).text(),
            r == char_at(old(self).text(), old(self).pos()),
            final(self).pos() == next_pos(old(self).text(), old(self).pos()),
    {
        if self.pos < self.chars.len() {
            let c = self.chars[self.pos];
            self.pos = self.pos + 1;
            Some(c)
        } else {
            if self.pos == self.chars.len() {
                self.pos = self.pos + 1;
            }
            None
        }
    }

    /// Reads one character and fails unless it is `c` (in either ASCII case
    /// when `ignore_case` holds). The character is read in either case.
    pub fn assert_char(&mut self, c: char, ignore_case: bool) -> (r: Result<()>)
        requires
            old(self).wf(),
        ensures
            final(self).wf(),
            final(self).text() == old(self).text(),
            final(self).pos() == next_pos(old(self).text(), old(self).pos()),
            r is Ok <==> char_ok(old(self).text(), old(self).pos(), c, ignore_case),
            r matches Err(e) ==> e.0@ == char_error_message(old(self).text(), old(self).pos(), c),
    {
        match self.advance() {
            Some(found) => {
                let same = if ignore_case {
                    lower_code_of(found) == lower_code_of(c)
                } else {
                    found == c
                };
                if same {
                    Ok(())
                } else {
                    let mut msg = String::from_str("`");
                    push_char(&mut msg, found);
                    msg.append("` is not equal to `");
                    push_char(&mut msg, c);
                    msg.append("` at position ");
                    append_nat(&mut msg, self.pos as u128);
                    assert(msg@ =~= mismatch_message(found, c, self.pos as int));
                    Err(FuzJsonParseError(msg))
                }
            },
            None => Err(no_char_error()),
        }
    }

    /// Moves past the character under the cursor if it is `c`, and tells
    /// whether it did.
    pub fn check_char(&mut self, c: char) -> (r: bool)
        requires
            old(self).wf(),
        ensures
            final(self).wf(),
            final(self).text() == old(self).text(),
            r == (char_at(old(self).text(), old(self).pos()) == Some(c)),
            final(self).pos() == if r {
                old(self).pos() + 1
            } else {
                old(self).pos()
            },
    {
        if self.pos < self.chars.len() && self.chars[self.pos] == c {
            self.pos = self.pos + 1;
            true
        } else {
            false
        }
    }

    /// Reads the characters of `string` one by one with
    /// [`ParserState::assert_char`], and fails at the first that differs,
    /// with a message that names `string` and then the mismatch.
    pub fn assert_string(&mut self, string: &str, ignore_case: bool) -> (r: Result<()>)
        requires
            old(self).wf(),
        ensures
            final(self).wf(),
            final(self).text() == old(self).text(),
            final(self).pos() >= old(self).pos(),
            r is Ok <==> literal_at(old(self).text(), old(self).pos(), string@, ignore_case),
            r is Ok ==> final(self).pos() == old(self).pos() + string@.len(),
            r matches Err(e) ==> e.0@ == literal_message(
                old(self).text(),
                old(self).pos(),
                string@,
                ignore_case,
            ) && final(self).pos() == next_pos(
                old(self).text(),
                old(self).pos() + first_mismatch(
                    old(self).text(),
                    old(self).pos(),
                    string@,
                    ignore_case,
                    0,
                ),
            ),
    {
        let expected = crate::text::chars_of(string);
        let ghost s = self.text();
        let ghost start = self.pos();
        let mut i: usize = 0;
        while i < expected.len()
            invariant
                self.wf(),
                self.text() == s,
                s == old(self).text(),
                start == old(self).pos(),
                0 <= start,
                expected@ == string@,
                i <= expected.len(),
                self.pos() == start + i,
                forall|j: int|
                    0 <= j < i ==> char_ok(s, start + j, #[trigger] expected@[j], ignore_case),
            decreases expected.len() - i,
        {
            match self.assert_char(expected[i], ignore_case) {
                Ok(()) => {},
                Err(e) => {
                    let mut msg = String::from_str("failed assert expected \"");
                    msg.append(string);
                    msg.append("\"\n");
                    msg.append(e.0.as_str());
                    proof {
                        assert(!(0 <= start + i && start + i < s.len() && chars_match(
                            s[start + i],
                            string@[i as int],
                            ignore_case,
                        )));
                        lemma_first_mismatch(s, start, string@, ignore_case, 0, i as int);
                        lemma_literal_at_mismatch(s, start, string@, ignore_case, 0);
                        assert(msg@ =~= literal_message(s, start, string@, ignore_case));
                    }
                    return Err(FuzJsonParseError(msg));
                },
            }
            i = i + 1;
        }
        proof {
            lemma_first_mismatch(s, start, string@, ignore_case, 0, string@.len() as int);
            lemma_literal_at_mismatch(s, start, string@, ignore_case, 0);
        }
        Ok(())
    }

    /// Moves past the longest run of number characters (digits, `-` and `.`)
    /// under the cursor, and returns it.
    pub fn consume_number(&mut self) -> (r: String)
        requires
            old(self).wf(),
            old(self).pos() <= old(self).text().len(),
        ensures
            final(self).wf(),
            final(self).text() == old(self).text(),
            final(self).pos() == number_end(old(self).text(), old(self).pos()),
            r@ == old(self).text().subrange(old(self).pos(), final(self).pos()),
    {
        let ghost s = self.text();
        let ghost start = self.pos();
        let mut taken = String::new();
        while self.pos < self.chars.len() && is_number_part(self.chars[self.pos])
            invariant
                self.wf(),
                self.text() == s,
                s == old(self).text(),
                start == old(self).pos(),
                0 <= start <= self.pos() <= s.len(),
                number_end(s, start) == number_end(s, self.pos()),
                taken@ == s.subrange(start, self.pos()),
            decreases self.chars.len() - self.pos,
        {
            push_char(&mut taken, self.chars[self.pos]);
            self.pos = self.pos + 1;
            assert(taken@ =~= s.subrange(start, self.pos()));
        }
        taken
    }

    /// Moves the cursor past any whitespace (space, tab, newline).
    pub fn consume_whitespace(&mut self)
        requires
            old(self).wf(),
        ensures
            final(self).wf(),
            final(self).text() == old(self).text(),
            final(self).pos() == skip_ws(old(self).text(), old(self).pos()),
    {
        let ghost s = self.text();
        while self.is_whitespace()
            invariant
                self.wf(),
                self.text() == s,
                s == old(self).text(),
                skip_ws(s, old(self).pos()) == skip_ws(s, self.pos()),
            decreases self.chars.len() - self.pos,
        {
            self.advance();
        }
    }

    /// Whether the character under the cursor is whitespace.
    pub fn is_whitespace(&self) -> (r: bool)
        requires
            self.wf(),
        ensures
            r == (self.pos() < self.text().len() && is_ws(self.text()[self.pos()])),
    {
        match self.peek() {
            Some(c) => c == ' ' || c == '\t' || c == '\n',
            None => false,
        }
    }
}

} // verus!
