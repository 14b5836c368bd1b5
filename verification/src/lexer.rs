//! The lexer: a cursor over the input bytes that classifies one token per
//! call, together with the specification functions that define exactly which
//! token is produced at each position.

use vstd::prelude::*;
use vstd::string::StrSliceExecFns;
use vstd::string::StringSliceAdditionalSpecFns;
use crate::token::{keyword_token, Token, TokenModel};

verus! {

/// The byte at a position, with 0 as the sentinel for "past the end".
pub open spec fn char_at(input: Seq<u8>, pos: int) -> u8 {
    if 0 <= pos < input.len() {
        input[pos]
    } else {
        0
    }
}

/// Space, tab, newline and carriage return separate tokens.
pub open spec fn is_whitespace_byte(c: u8) -> bool {
    c == 32 || c == 9 || c == 10 || c == 13
}

/// Identifier bytes: ASCII letters and the underscore.
pub open spec fn is_letter_byte(c: u8) -> bool {
    (97 <= c && c <= 122) || (65 <= c && c <= 90) || c == 95
}

/// Decimal digit bytes.
pub open spec fn is_digit_byte(c: u8) -> bool {
    48 <= c && c <= 57
}

/// The end of the maximal whitespace run starting at `pos`: the first
/// position at or after `pos` holding a non-whitespace byte, or the length.
pub open spec fn whitespace_end(input: Seq<u8>, pos: int) -> int
    decreases input.len() - pos,
{
    if 0 <= pos < input.len() && is_whitespace_byte(input[pos]) {
        whitespace_end(input, pos + 1)
    } else {
        pos
    }
}

/// The end of the maximal identifier run starting at `pos`.
pub open spec fn identifier_end(input: Seq<u8>, pos: int) -> int
    decreases input.len() - pos,
{
    if 0 <= pos < input.len() && is_letter_byte(input[pos]) {
        identifier_end(input, pos + 1)
    } else {
        pos
    }
}

/// The end of the maximal digit run starting at `pos`.
pub open spec fn number_end(input: Seq<u8>, pos: int) -> int
    decreases input.len() - pos,
{
    if 0 <= pos < input.len() && is_digit_byte(input[pos]) {
        number_end(input, pos + 1)
    } else {
        pos
    }
}

/// The value denoted by a sequence of decimal digit bytes.
pub open spec fn digits_value(s: Seq<u8>) -> int
    decreases s.len(),
{
    if s.len() == 0 {
        0
    } else {
        digits_value(s.drop_last()) * 10 + (s.last() - 48)
    }
}

/// The token found at `pos` (after skipping whitespace), together with the
/// cursor position after consuming it. End-Of-Input consumes nothing.
pub open spec fn spec_next_token(input: Seq<u8>, pos: int) -> (TokenModel, int) {
    let start = whitespace_end(input, pos);
    let c = char_at(input, start);
    if c == 0 {
        (TokenModel::Eof, start)
    } else if c == 61 {  // '='
        if char_at(input, start + 1) == 61 {
            (TokenModel::Equal, start + 2)
        } else {
            (TokenModel::Assign, start + 1)
        }
    } else if c == 33 {  // '!'
        if char_at(input, start + 1) == 61 {
            (TokenModel::NotEqual, start + 2)
        } else {
            (TokenModel::Bang, start + 1)
        }
    } else if is_letter_byte(c) {
        let end = identifier_end(input, start);
        (keyword_token(input.subrange(start, end)), end)
    } else if is_digit_byte(c) {
        let end = number_end(input, start);
        (TokenModel::Integer(digits_value(input.subrange(start, end))), end)
    } else if c == 43 {  // '+'
        (TokenModel::Plus, start + 1)
    } else if c == 45 {  // '-'
        (TokenModel::Minus, start + 1)
    } else if c == 42 {  // '*'
        (TokenModel::Asterisk, start + 1)
    } else if c == 47 {  // '/'
        (TokenModel::Slash, start + 1)
    } else if c == 60 {  // '<'
        (TokenModel::LessThan, start + 1)
    } else if c == 62 {  // '>'
        (TokenModel::GreaterThan, start + 1)
    } else if c == 44 {  // ','
        (TokenModel::Comma, start + 1)
    } else if c == 59 {  // ';'
        (TokenModel::Semicolon, start + 1)
    } else if c == 40 {  // '('
        (TokenModel::LeftParen, start + 1)
    } else if c == 41 {  // ')'
        (TokenModel::RightParen, start + 1)
    } else if c == 123 {  // '{'
        (TokenModel::LeftBrace, start + 1)
    } else if c == 125 {  // '}'
        (TokenModel::RightBrace, start + 1)
    } else {
        (TokenModel::Illegal, start + 1)
    }
}

/// The digit run, if any, that the next call would scan denotes a value
/// within the signed 64-bit range.
pub open spec fn number_fits(input: Seq<u8>, pos: int) -> bool {
    let start = whitespace_end(input, pos);
    is_digit_byte(char_at(input, start)) ==> digits_value(
        input.subrange(start, number_end(input, start)),
    ) <= i64::MAX
}

/// Every digit run in the input denotes a value within the signed 64-bit
/// range, so a full scan never meets an overflowing integer literal.
pub open spec fn int_literals_fit(input: Seq<u8>) -> bool {
    forall|p: int|
        0 <= p < input.len() && is_digit_byte(input[p]) ==> digits_value(
            #[trigger] input.subrange(p, number_end(input, p)),
        ) <= i64::MAX
}

/// Bounds and content of a maximal whitespace run.
pub proof fn lemma_whitespace_end(input: Seq<u8>, pos: int)
    requires
        0 <= pos <= input.len(),
    ensures
        pos <= whitespace_end(input, pos) <= input.len(),
        forall|i: int|
            pos <= i < whitespace_end(input, pos) ==> is_whitespace_byte(#[trigger] input[i]),
        !is_whitespace_byte(char_at(input, whitespace_end(input, pos))),
    decreases input.len() - pos,
{
    if pos < input.len() && is_whitespace_byte(input[pos]) {
        lemma_whitespace_end(input, pos + 1);
    }
}

/// Bounds and content of a maximal identifier run.
pub proof fn lemma_identifier_end(input: Seq<u8>, pos: int)
    requires
        0 <= pos <= input.len(),
    ensures
        pos <= identifier_end(input, pos) <= input.len(),
        forall|i: int|
            pos <= i < identifier_end(input, pos) ==> is_letter_byte(#[trigger] input[i]),
        !is_letter_byte(char_at(input, identifier_end(input, pos))),
    decreases input.len() - pos,
{
    if pos < input.len() && is_letter_byte(input[pos]) {
        lemma_identifier_end(input, pos + 1);
    }
}

/// Bounds and content of a maximal digit run.
pub proof fn lemma_number_end(input: Seq<u8>, pos: int)
    requires
        0 <= pos <= input.len(),
    ensures
        pos <= number_end(input, pos) <= input.len(),
        forall|i: int|
            pos <= i < number_end(input, pos) ==> is_digit_byte(#[trigger] input[i]),
        !is_digit_byte(char_at(input, number_end(input, pos))),
    decreases input.len() - pos,
{
    if pos < input.len() && is_digit_byte(input[pos]) {
        lemma_number_end(input, pos + 1);
    }
}

/// Progress: scanning a token never moves the cursor backwards or past the
/// end, and it strictly advances the cursor unless End-Of-Input was produced.
/// Together with the totality of `spec_next_token` this rules out an
/// infinite loop on any byte value.
pub proof fn lemma_next_token_progress(input: Seq<u8>, pos: int)
    requires
        0 <= pos <= input.len(),
    ensures
        pos <= spec_next_token(input, pos).1 <= input.len(),
        !(spec_next_token(input, pos).0 is Eof) ==> pos < spec_next_token(input, pos).1,
    decreases input.len() - pos,
{
    lemma_whitespace_end(input, pos);
    let start = whitespace_end(input, pos);
    let c = char_at(input, start);
    if c != 0 {
        assert(start < input.len());
        if is_letter_byte(c) {
            lemma_identifier_end(input, start + 1);
        } else if is_digit_byte(c) {
            lemma_number_end(input, start + 1);
        }
    }
}

/// Once End-Of-Input is produced, every further scan from the resulting
/// cursor produces End-Of-Input again at the same cursor: the terminal state
/// is stable.
pub proof fn lemma_eof_stable(input: Seq<u8>, pos: int)
    requires
        0 <= pos <= input.len(),
        spec_next_token(input, pos).0 is Eof,
    ensures
        spec_next_token(input, spec_next_token(input, pos).1) == (
            TokenModel::Eof,
            spec_next_token(input, pos).1,
        ),
{
    let start = whitespace_end(input, pos);
    lemma_whitespace_end(input, pos);
    assert(whitespace_end(input, start) == start);
}

/// Two-character operator disambiguation: `==` yields one Equal token and
/// `!=` one NotEqual token, each consuming two bytes, while `=` or `!`
/// followed by anything else yields Assign or Bang consuming one byte.
pub proof fn lemma_two_char_operators(input: Seq<u8>, pos: int)
    requires
        0 <= pos <= input.len(),
    ensures
        char_at(input, whitespace_end(input, pos)) == 61 ==> spec_next_token(input, pos) == (
            if char_at(input, whitespace_end(input, pos) + 1) == 61 {
                (TokenModel::Equal, whitespace_end(input, pos) + 2)
            } else {
                (TokenModel::Assign, whitespace_end(input, pos) + 1)
            }
        ),
        char_at(input, whitespace_end(input, pos)) == 33 ==> spec_next_token(input, pos) == (
            if char_at(input, whitespace_end(input, pos) + 1) == 61 {
                (TokenModel::NotEqual, whitespace_end(input, pos) + 2)
            } else {
                (TokenModel::Bang, whitespace_end(input, pos) + 1)
            }
        ),
{
}

/// The token sequence of the input from a cursor position: one token per
/// scan, ending with the first End-Of-Input.
pub open spec fn tokens_from(input: Seq<u8>, pos: int) -> Seq<TokenModel>
    decreases input.len() - pos,
        when 0 <= pos <= input.len()
        via tokens_from_decreases
{
    if spec_next_token(input, pos).0 is Eof {
        seq![TokenModel::Eof]
    } else {
        seq![spec_next_token(input, pos).0] + tokens_from(input, spec_next_token(input, pos).1)
    }
}

#[via_fn]
proof fn tokens_from_decreases(input: Seq<u8>, pos: int) {
    lemma_next_token_progress(input, pos);
}

/// The full token sequence of an input text: what a complete drain of a
/// freshly constructed lexer produces, End-Of-Input included.
pub open spec fn spec_tokens(input: Seq<u8>) -> Seq<TokenModel> {
    tokens_from(input, 0)
}

/// A sequence of digit bytes denotes a non-negative value.
pub proof fn lemma_digits_value_nonneg(s: Seq<u8>)
    requires
        forall|i: int| 0 <= i < s.len() ==> is_digit_byte(#[trigger] s[i]),
    ensures
        digits_value(s) >= 0,
    decreases s.len(),
{
    if s.len() > 0 {
        lemma_digits_value_nonneg(s.drop_last());
    }
}

/// The value of a prefix of a digit run never exceeds the value of the run.
pub proof fn lemma_digits_value_prefix(s: Seq<u8>, i: int)
    requires
        0 <= i <= s.len(),
        forall|k: int| 0 <= k < s.len() ==> is_digit_byte(#[trigger] s[k]),
    ensures
        0 <= digits_value(s.subrange(0, i)) <= digits_value(s),
    decreases s.len() - i,
{
    if i == s.len() {
        assert(s.subrange(0, i) =~= s);
        lemma_digits_value_nonneg(s);
    } else {
        lemma_digits_value_prefix(s, i + 1);
        assert(s.subrange(0, i + 1).drop_last() =~= s.subrange(0, i));
        assert(s.subrange(0, i + 1).last() == s[i]);
        lemma_digits_value_nonneg(s.subrange(0, i));
    }
}

/// The scanner over one input text.
///
/// `position` is the byte offset of the character under examination,
/// `read_position` the offset of the next byte to read, and `ch` the byte
/// under examination, with 0 once the input is exhausted.
pub struct Lexer {
    pub input: Vec<u8>,
    pub position: usize,
    pub read_position: usize,
    pub ch: u8,
}

impl Lexer {
    /// The cursor invariant: the read cursor is one past the examined
    /// position, which never leaves the input, and `ch` mirrors the byte
    /// there (0 at the end).
    pub open spec fn wf(self) -> bool {
        &&& self.input@.len() < usize::MAX
        &&& self.position <= self.input@.len()
        &&& self.read_position == self.position + 1
        &&& self.ch == char_at(self.input@, self.position as int)
    }

    /// Builds a lexer over the input text and scans the first character, so
    /// that the first `next_token` call (even on empty input) sees a valid
    /// current byte.
    pub fn new(input: &str) -> (lexer: Lexer)
        requires
            input.spec_bytes().len() < usize::MAX,
        ensures
            lexer.wf(),
            lexer.input@ == input.spec_bytes(),
            lexer.position == 0,
    {
        let mut lexer = Lexer {
            input: input.as_bytes_vec(),
            position: 0,
            read_position: 0,
            ch: 0,
        };
        lexer.read_char();
        lexer
    }

    /// Advances the cursor by one byte: the examined position moves to the
    /// read cursor, and `ch` becomes the byte there, or 0 past the end.
    pub fn read_char(&mut self)
        requires
            old(self).read_position < usize::MAX,
        ensures
            final(self).input@ == old(self).input@,
            final(self).position == old(self).read_position,
            final(self).read_position == old(self).read_position + 1,
            final(self).ch == char_at(old(self).input@, old(self).read_position as int),
    {
        if self.read_position >= self.input.len() {
            self.ch = 0;
        } else {
            self.ch = self.input[self.read_position];
        }
        self.position = self.read_position;
        self.read_position = self.read_position + 1;
    }

    /// Returns the byte at the read cursor without moving it, with the
    /// sentinel 0 when that would run past the end of the input.
    pub fn peek_char(&self) -> (c: u8)
        ensures
            c == char_at(self.input@, self.read_position as int),
    {
        if self.read_position >= self.input.len() {
            0
        } else {
            self.input[self.read_position]
        }
    }

    /// Produces the next token: skips whitespace, classifies the current
    /// byte, consumes exactly the token's bytes, and returns it. After the
    /// input is exhausted every further call returns Eof without advancing,
    /// so End-Of-Input is a stable terminal state.
    pub fn next_token(&mut self) -> (tok: Token)
        requires
            old(self).wf(),
            number_fits(old(self).input@, old(self).position as int),
        ensures
            final(self).wf(),
            final(self).input@ == old(self).input@,
            tok@ == spec_next_token(old(self).input@, old(self).position as int).0,
            final(self).position as int == spec_next_token(
                old(self).input@,
                old(self).position as int,
            ).1,
            !(tok@ is Eof) ==> old(self).position < final(self).position,
    {
        proof {
            lemma_next_token_progress(old(self).input@, old(self).position as int);
        }
        self.skip_whitespace();
        let tok: Token;
        let c = self.ch;
        if c == 61 {  // '='
            if self.peek_char() == 61 {
                self.read_char();
                tok = Token::Equal;
            } else {
                tok = Token::Assign;
            }
        } else if c == 33 {  // '!'
            if self.peek_char() == 61 {
                self.read_char();
                tok = Token::NotEqual;
            } else {
                tok = Token::Bang;
            }
        } else if (97 <= c && c <= 122) || (65 <= c && c <= 90) || c == 95 {
            return self.read_identifier();
        } else if 48 <= c && c <= 57 {
            return self.read_number();
        } else if c == 0 {
            return Token::Eof;
        } else if c == 43 {  // '+'
            tok = Token::Plus;
        } else if c == 45 {  // '-'
            tok = Token::Minus;
        } else if c == 42 {  // '*'
            tok = Token::Asterisk;
        } else if c == 47 {  // '/'
            tok = Token::Slash;
        } else if c == 60 {  // '<'
            tok = Token::LessThan;
        } else if c == 62 {  // '>'
            tok = Token::GreaterThan;
        } else if c == 44 {  // ','
            tok = Token::Comma;
        } else if c == 59 {  // ';'
            tok = Token::Semicolon;
        } else if c == 40 {  // '('
            tok = Token::LeftParen;
        } else if c == 41 {  // ')'
            tok = Token::RightParen;
        } else if c == 123 {  // '{'
            tok = Token::LeftBrace;
        } else if c == 125 {  // '}'
            tok = Token::RightBrace;
        } else {
            tok = Token::Illegal;
        }
        self.read_char();
        tok
    }

    /// Scans the maximal identifier run at the cursor and returns the
    /// matching keyword token, or Identifier carrying the text. The cursor is
    /// left on the first byte past the run; no extra advance follows.
    pub fn read_identifier(&mut self) -> (tok: Token)
        requires
            old(self).wf(),
        ensures
            final(self).wf(),
            final(self).input@ == old(self).input@,
            final(self).position == identifier_end(old(self).input@, old(self).position as int),
            tok@ == keyword_token(
                old(self).input@.subrange(
                    old(self).position as int,
                    identifier_end(old(self).input@, old(self).position as int),
                ),
            ),
    {
        let ghost start = self.position as int;
        let mut literal: Vec<u8> = Vec::new();
        while (97 <= self.ch && self.ch <= 122) || (65 <= self.ch && self.ch <= 90)
            || self.ch == 95
            invariant
                self.wf(),
                self.input@ == old(self).input@,
                start == old(self).position as int,
                start <= self.position as int,
                literal@ == self.input@.subrange(start, self.position as int),
                identifier_end(self.input@, self.position as int) == identifier_end(
                    old(self).input@,
                    start,
                ),
            decreases self.input@.len() - self.position,
        {
            proof {
                assert(self.ch != 0);
                assert(self.position < self.input@.len());
            }
            literal.push(self.ch);
            proof {
                assert(literal@ =~= self.input@.subrange(start, self.position + 1));
            }
            self.read_char();
        }
        lookup_keyword(literal)
    }

    /// Scans the maximal digit run at the cursor and returns its value as an
    /// Integer token. The run must denote a value within the signed 64-bit
    /// range; a run that does not is outside this design (the scan would be a
    /// fatal failure) and is excluded by precondition. The cursor is left on
    /// the first byte past the run; no extra advance follows.
    pub fn read_number(&mut self) -> (tok: Token)
        requires
            old(self).wf(),
            is_digit_byte(char_at(old(self).input@, old(self).position as int)),
            digits_value(
                old(self).input@.subrange(
                    old(self).position as int,
                    number_end(old(self).input@, old(self).position as int),
                ),
            ) <= i64::MAX,
        ensures
            final(self).wf(),
            final(self).input@ == old(self).input@,
            final(self).position == number_end(old(self).input@, old(self).position as int),
            tok@ == TokenModel::Integer(
                digits_value(
                    old(self).input@.subrange(
                        old(self).position as int,
                        number_end(old(self).input@, old(self).position as int),
                    ),
                ),
            ),
    {
        let ghost start = self.position as int;
        let ghost run_end = number_end(self.input@, start);
        proof {
            lemma_number_end(self.input@, start);
        }
        let mut value: i64 = 0;
        while 48 <= self.ch && self.ch <= 57
            invariant
                self.wf(),
                self.input@ == old(self).input@,
                start == old(self).position as int,
                start <= self.position as int <= run_end,
                run_end == number_end(self.input@, self.position as int),
                forall|k: int|
                    start <= k < self.position as int ==> is_digit_byte(#[trigger] self.input@[k]),
                value == digits_value(self.input@.subrange(start, self.position as int)),
                0 <= value,
                digits_value(self.input@.subrange(start, run_end)) <= i64::MAX,
            decreases self.input@.len() - self.position,
        {
            proof {
                let p = self.position as int;
                assert(self.ch != 0);
                assert(p < self.input@.len());
                lemma_number_end(self.input@, p);
                lemma_number_end(self.input@, p + 1);
                assert(p < run_end);
                let run = self.input@.subrange(start, run_end);
                assert(forall|k: int| 0 <= k < run.len() ==> is_digit_byte(#[trigger] run[k]));
                lemma_digits_value_prefix(run, p + 1 - start);
                assert(run.subrange(0, p + 1 - start) =~= self.input@.subrange(start, p + 1));
                assert(self.input@.subrange(start, p + 1).drop_last() =~= self.input@.subrange(
                    start,
                    p,
                ));
                assert(self.input@.subrange(start, p + 1).last() == self.input@[p]);
                assert(0 <= value * 10 + (self.ch - 48) <= i64::MAX);
            }
            value = value * 10 + ((self.ch - 48) as i64);
            self.read_char();
        }
        proof {
            assert(number_end(self.input@, self.position as int) == self.position as int);
        }
        Token::Integer(value)
    }

    /// Consumes the maximal run of whitespace at the cursor.
    pub fn skip_whitespace(&mut self)
        requires
            old(self).wf(),
        ensures
            final(self).wf(),
            final(self).input@ == old(self).input@,
            final(self).position == whitespace_end(old(self).input@, old(self).position as int),
    {
        while self.ch == 32 || self.ch == 9 || self.ch == 10 || self.ch == 13
            invariant
                self.wf(),
                self.input@ == old(self).input@,
                whitespace_end(self.input@, self.position as int) == whitespace_end(
                    old(self).input@,
                    old(self).position as int,
                ),
            decreases self.input@.len() - self.position,
        {
            self.read_char();
        }
    }
}

/// Drains a freshly constructed lexer over the input text and returns every
/// token up to and including End-Of-Input. The result is exactly the token
/// sequence of the input, so repeated drains of one input are identical.
pub fn tokenize(input: &str) -> (tokens: Vec<Token>)
    requires
        input.spec_bytes().len() < usize::MAX,
        int_literals_fit(input.spec_bytes()),
    ensures
        tokens@.map_values(|t: Token| t@) == spec_tokens(input.spec_bytes()),
{
    let mut lexer = Lexer::new(input);
    let mut tokens: Vec<Token> = Vec::new();
    loop
        invariant_except_break
            tokens@.map_values(|t: Token| t@) + tokens_from(lexer.input@, lexer.position as int)
                == spec_tokens(input.spec_bytes()),
        invariant
            lexer.wf(),
            lexer.input@ == input.spec_bytes(),
            int_literals_fit(lexer.input@),
        ensures
            tokens@.map_values(|t: Token| t@) == spec_tokens(input.spec_bytes()),
        decreases lexer.input@.len() - lexer.position,
    {
        let ghost bytes = lexer.input@;
        let ghost pos = lexer.position as int;
        proof {
            lemma_whitespace_end(bytes, pos);
            let start = whitespace_end(bytes, pos);
            if is_digit_byte(char_at(bytes, start)) {
                assert(start < bytes.len() && is_digit_byte(bytes[start]));
                assert(digits_value(bytes.subrange(start, number_end(bytes, start)))
                    <= i64::MAX);
            }
            lemma_next_token_progress(bytes, pos);
        }
        let ghost previous = tokens@;
        let tok = lexer.next_token();
        let done = matches!(tok, Token::Eof);
        proof {
            assert(done <==> tok@ is Eof);
        }
        tokens.push(tok);
        proof {
            assert(tokens@.map_values(|t: Token| t@) =~= previous.map_values(|t: Token| t@).push(
                tok@,
            ));
            if !done {
                assert(seq![tok@] + tokens_from(bytes, lexer.position as int) =~= tokens_from(
                    bytes,
                    pos,
                ));
            }
        }
        if done {
            proof {
                assert(tokens_from(bytes, pos) =~= seq![tok@]);
                assert(tokens@.map_values(|t: Token| t@) =~= spec_tokens(input.spec_bytes()));
            }
            break;
        }
    }
    tokens
}

/// The fixed keyword table: maps an identifier spelling to its reserved-word
/// token, or wraps it as Identifier when no entry matches.
fn lookup_keyword(literal: Vec<u8>) -> (tok: Token)
    ensures
        tok@ == keyword_token(literal@),
{
    let n = literal.len();
    if n == 2 && literal[0] == 102 && literal[1] == 110 {
        proof {
            assert(literal@ =~= seq![102u8, 110u8]);
        }
        Token::Function
    } else if n == 3 && literal[0] == 108 && literal[1] == 101 && literal[2] == 116 {
        proof {
            assert(literal@ =~= seq![108u8, 101u8, 116u8]);
        }
        Token::Let
    } else if n == 4 && literal[0] == 116 && literal[1] == 114 && literal[2] == 117
        && literal[3] == 101 {
        proof {
            assert(literal@ =~= seq![116u8, 114u8, 117u8, 101u8]);
        }
        Token::True
    } else if n == 5 && literal[0] == 102 && literal[1] == 97 && literal[2] == 108
        && literal[3] == 115 && literal[4] == 101 {
        proof {
            assert(literal@ =~= seq![102u8, 97u8, 108u8, 115u8, 101u8]);
        }
        Token::False
    } else if n == 2 && literal[0] == 105 && literal[1] == 102 {
        proof {
            assert(literal@ =~= seq![105u8, 102u8]);
        }
        Token::If
    } else if n == 4 && literal[0] == 101 && literal[1] == 108 && literal[2] == 115
        && literal[3] == 101 {
        proof {
            assert(literal@ =~= seq![101u8, 108u8, 115u8, 101u8]);
        }
        Token::Else
    } else if n == 6 && literal[0] == 114 && literal[1] == 101 && literal[2] == 116
        && literal[3] == 117 && literal[4] == 114 && literal[5] == 110 {
        proof {
            assert(literal@ =~= seq![114u8, 101u8, 116u8, 117u8, 114u8, 110u8]);
        }
        Token::Return
    } else {
        Token::Identifier(literal)
    }
}

} // verus!
