//! The token type produced by the lexer, its mathematical model, and the
//! keyword table that decides between reserved words and identifiers.

use vstd::prelude::*;

verus! {

/// The mathematical model of a token: identifier text is a byte sequence,
/// an integer literal is an unbounded integer.
pub ghost enum TokenModel {
    Illegal,
    Eof,
    Identifier(Seq<u8>),
    Integer(int),
    Assign,
    Plus,
    Minus,
    Bang,
    Asterisk,
    Slash,
    LessThan,
    GreaterThan,
    Equal,
    NotEqual,
    Comma,
    Semicolon,
    LeftParen,
    RightParen,
    LeftBrace,
    RightBrace,
    Function,
    Let,
    True,
    False,
    If,
    Else,
    Return,
}

/// One lexical unit of the source text.
///
/// Identifier and Integer carry owned copies of their literal text; every
/// other variant is payload-free. A token never refers back to the input.
#[derive(Debug, Clone)]
pub enum Token {
    Illegal,
    Eof,
    Identifier(Vec<u8>),
    Integer(i64),
    Assign,
    Plus,
    Minus,
    Bang,
    Asterisk,
    Slash,
    LessThan,
    GreaterThan,
    Equal,
    NotEqual,
    Comma,
    Semicolon,
    LeftParen,
    RightParen,
    LeftBrace,
    RightBrace,
    Function,
    Let,
    True,
    False,
    If,
    Else,
    Return,
}

impl View for Token {
    type V = TokenModel;

    open spec fn view(&self) -> TokenModel {
        match self {
            Token::Illegal => TokenModel::Illegal,
            Token::Eof => TokenModel::Eof,
            Token::Identifier(text) => TokenModel::Identifier(text@),
            Token::Integer(value) => TokenModel::Integer(*value as int),
            Token::Assign => TokenModel::Assign,
            Token::Plus => TokenModel::Plus,
            Token::Minus => TokenModel::Minus,
            Token::Bang => TokenModel::Bang,
            Token::Asterisk => TokenModel::Asterisk,
            Token::Slash => TokenModel::Slash,
            Token::LessThan => TokenModel::LessThan,
            Token::GreaterThan => TokenModel::GreaterThan,
            Token::Equal => TokenModel::Equal,
            Token::NotEqual => TokenModel::NotEqual,
            Token::Comma => TokenModel::Comma,
            Token::Semicolon => TokenModel::Semicolon,
            Token::LeftParen => TokenModel::LeftParen,
            Token::RightParen => TokenModel::RightParen,
            Token::LeftBrace => TokenModel::LeftBrace,
            Token::RightBrace => TokenModel::RightBrace,
            Token::Function => TokenModel::Function,
            Token::Let => TokenModel::Let,
            Token::True => TokenModel::True,
            Token::False => TokenModel::False,
            Token::If => TokenModel::If,
            Token::Else => TokenModel::Else,
            Token::Return => TokenModel::Return,
        }
    }
}

/// Byte-wise comparison of two identifier texts.
fn bytes_equal(a: &Vec<u8>, b: &Vec<u8>) -> (r: bool)
    ensures
        r == (a@ == b@),
{
    if a.len() != b.len() {
        return false;
    }
    let mut i: usize = 0;
    while i < a.len()
        invariant
            i <= a.len(),
            a@.len() == b@.len(),
            forall|j: int| 0 <= j < i ==> a@[j] == b@[j],
        decreases a.len() - i,
    {
        if a[i] != b[i] {
            return false;
        }
        i = i + 1;
    }
    proof {
        assert(a@ =~= b@);
    }
    true
}

impl PartialEq for Token {
    /// Two tokens are equal when they are the same variant and carry equal
    /// payloads.
    fn eq(&self, other: &Token) -> bool {
        match (self, other) {
            (Token::Illegal, Token::Illegal) => true,
            (Token::Eof, Token::Eof) => true,
            (Token::Identifier(a), Token::Identifier(b)) => bytes_equal(a, b),
            (Token::Integer(a), Token::Integer(b)) => *a == *b,
            (Token::Assign, Token::Assign) => true,
            (Token::Plus, Token::Plus) => true,
            (Token::Minus, Token::Minus) => true,
            (Token::Bang, Token::Bang) => true,
            (Token::Asterisk, Token::Asterisk) => true,
            (Token::Slash, Token::Slash) => true,
            (Token::LessThan, Token::LessThan) => true,
            (Token::GreaterThan, Token::GreaterThan) => true,
            (Token::Equal, Token::Equal) => true,
            (Token::NotEqual, Token::NotEqual) => true,
            (Token::Comma, Token::Comma) => true,
            (Token::Semicolon, Token::Semicolon) => true,
            (Token::LeftParen, Token::LeftParen) => true,
            (Token::RightParen, Token::RightParen) => true,
            (Token::LeftBrace, Token::LeftBrace) => true,
            (Token::RightBrace, Token::RightBrace) => true,
            (Token::Function, Token::Function) => true,
            (Token::Let, Token::Let) => true,
            (Token::True, Token::True) => true,
            (Token::False, Token::False) => true,
            (Token::If, Token::If) => true,
            (Token::Else, Token::Else) => true,
            (Token::Return, Token::Return) => true,
            _ => false,
        }
    }
}

impl vstd::std_specs::cmp::PartialEqSpecImpl for Token {
    open spec fn obeys_eq_spec() -> bool {
        true
    }

    open spec fn eq_spec(&self, other: &Token) -> bool {
        self@ == other@
    }
}

/// The spelling of each reserved word, as bytes.
pub open spec fn reserved_words() -> Seq<Seq<u8>> {
    seq![
        seq![102u8, 110u8],
        seq![108u8, 101u8, 116u8],
        seq![116u8, 114u8, 117u8, 101u8],
        seq![102u8, 97u8, 108u8, 115u8, 101u8],
        seq![105u8, 102u8],
        seq![101u8, 108u8, 115u8, 101u8],
        seq![114u8, 101u8, 116u8, 117u8, 114u8, 110u8],
    ]
}

/// Whether an identifier spelling is reserved.
pub open spec fn is_reserved_word(s: Seq<u8>) -> bool {
    reserved_words().contains(s)
}

/// The token for a maximal identifier run: the keyword token when the text
/// matches a reserved word, and Identifier carrying the text otherwise.
pub open spec fn keyword_token(s: Seq<u8>) -> TokenModel {
    if s == seq![102u8, 110u8] {
        TokenModel::Function
    } else if s == seq![108u8, 101u8, 116u8] {
        TokenModel::Let
    } else if s == seq![116u8, 114u8, 117u8, 101u8] {
        TokenModel::True
    } else if s == seq![102u8, 97u8, 108u8, 115u8, 101u8] {
        TokenModel::False
    } else if s == seq![105u8, 102u8] {
        TokenModel::If
    } else if s == seq![101u8, 108u8, 115u8, 101u8] {
        TokenModel::Else
    } else if s == seq![114u8, 101u8, 116u8, 117u8, 114u8, 110u8] {
        TokenModel::Return
    } else {
        TokenModel::Identifier(s)
    }
}

/// Reserved words take precedence over identifiers: text matching a reserved
/// word never yields an Identifier token, and any other text yields an
/// Identifier carrying exactly that text.
pub proof fn lemma_keyword_precedence(s: Seq<u8>)
    ensures
        is_reserved_word(s) ==> !(keyword_token(s) is Identifier),
        !is_reserved_word(s) ==> keyword_token(s) == TokenModel::Identifier(s),
{
    if is_reserved_word(s) {
        let i = choose|i: int| 0 <= i < reserved_words().len() && reserved_words()[i] == s;
        assert(reserved_words()[i] == s);
    } else {
        assert(forall|i: int|
            0 <= i < reserved_words().len() ==> reserved_words()[i] != s) by {
            if exists|i: int| 0 <= i < reserved_words().len() && reserved_words()[i] == s {
                assert(is_reserved_word(s));
            }
        }
        assert(reserved_words()[0] != s);
        assert(reserved_words()[1] != s);
        assert(reserved_words()[2] != s);
        assert(reserved_words()[3] != s);
        assert(reserved_words()[4] != s);
        assert(reserved_words()[5] != s);
        assert(reserved_words()[6] != s);
    }
}

} // verus!
