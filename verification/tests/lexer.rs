use monkey::lexer::{tokenize, Lexer};
use monkey::token::Token;

/// Drains a fresh lexer over `input`, returning every token up to and
/// including End-Of-Input.
fn drain(input: &str) -> Vec<Token> {
    let mut lexer = Lexer::new(input);
    let mut tokens = Vec::new();
    loop {
        let token = lexer.next_token();
        let done = matches!(token, Token::Eof);
        tokens.push(token);
        if done {
            return tokens;
        }
    }
}

fn ident(text: &str) -> Token {
    Token::Identifier(text.as_bytes().to_vec())
}

#[test]
fn test_next_token() {
	let input = r#"
	let five = 5;
	let ten = 10;

	let add = fn(x, y) {
	  x + y;
	};

	let result = add(five, ten);
	!-/*5;
	5 < 10 > 5;

	if (5 < 10) {
		return true;
	} else {
		return false;
	}

	10 == 10;
	10 != 9;
	"#;

    let tests = [
        // --- line 1
        Token::Let,
        ident("five"),
        Token::Assign,
        Token::Integer(5),
        Token::Semicolon,
        // --- line 2
        Token::Let,
        ident("ten"),
        Token::Assign,
        Token::Integer(10),
        Token::Semicolon,
        // --- line 3
        Token::Let,
        ident("add"),
        Token::Assign,
        Token::Function,
        Token::LeftParen,
        ident("x"),
        Token::Comma,
        ident("y"),
        Token::RightParen,
        Token::LeftBrace,
        // --- line 4
        ident("x"),
        Token::Plus,
        ident("y"),
        Token::Semicolon,
        // --- line 5
        Token::RightBrace,
        Token::Semicolon,
        // --- line 6
        Token::Let,
        ident("result"),
        Token::Assign,
        ident("add"),
        Token::LeftParen,
        ident("five"),
        Token::Comma,
        ident("ten"),
        Token::RightParen,
        Token::Semicolon,
        // line 7
        Token::Bang,
        Token::Minus,
        Token::Slash,
        Token::Asterisk,
        Token::Integer(5),
        Token::Semicolon,
        // line 8
        Token::Integer(5),
        Token::LessThan,
        Token::Integer(10),
        Token::GreaterThan,
        Token::Integer(5),
        Token::Semicolon,
        Token::If,
        Token::LeftParen,
        Token::Integer(5),
        Token::LessThan,
        Token::Integer(10),
        Token::RightParen,
        Token::LeftBrace,
        Token::Return,
        Token::True,
        Token::Semicolon,
        Token::RightBrace,
        Token::Else,
        Token::LeftBrace,
        Token::Return,
        Token::False,
        Token::Semicolon,
        Token::RightBrace,
        Token::Integer(10),
        Token::Equal,
        Token::Integer(10),
        Token::Semicolon,
        Token::Integer(10),
        Token::NotEqual,
        Token::Integer(9),
        Token::Semicolon,
        Token::Eof,
    ];

    let mut l = Lexer::new(input);

    for ct in tests {
        let token = l.next_token();

        assert_eq!(token, ct);
    }
}

#[test]
fn test_scenario_punctuation() {
    let expected = vec![
        Token::Assign,
        Token::Plus,
        Token::LeftParen,
        Token::RightParen,
        Token::LeftBrace,
        Token::RightBrace,
        Token::Comma,
        Token::Semicolon,
        Token::Eof,
    ];
    assert_eq!(drain("=+(){},;"), expected);
}

#[test]
fn test_scenario_let_statement() {
    let expected = vec![
        Token::Let,
        ident("five"),
        Token::Assign,
        Token::Integer(5),
        Token::Semicolon,
        Token::Eof,
    ];
    assert_eq!(drain("let five = 5;"), expected);
}

#[test]
fn test_scenario_if_else() {
    let expected = vec![
        Token::If,
        Token::LeftParen,
        Token::Integer(5),
        Token::LessThan,
        Token::Integer(10),
        Token::RightParen,
        Token::LeftBrace,
        Token::Return,
        Token::True,
        Token::Semicolon,
        Token::RightBrace,
        Token::Else,
        Token::LeftBrace,
        Token::Return,
        Token::False,
        Token::Semicolon,
        Token::RightBrace,
        Token::Eof,
    ];
    assert_eq!(drain("if (5 < 10) { return true; } else { return false; }"), expected);
}

#[test]
fn test_scenario_equality() {
    let expected = vec![
        Token::Integer(10),
        Token::Equal,
        Token::Integer(10),
        Token::Semicolon,
        Token::Integer(10),
        Token::NotEqual,
        Token::Integer(9),
        Token::Semicolon,
        Token::Eof,
    ];
    assert_eq!(drain("10 == 10; 10 != 9;"), expected);
}

#[test]
fn test_keyword_precedence() {
    assert_eq!(drain("let"), vec![Token::Let, Token::Eof]);
    assert_eq!(drain("letx"), vec![ident("letx"), Token::Eof]);
    assert_eq!(drain("fn"), vec![Token::Function, Token::Eof]);
    assert_eq!(drain("fnx"), vec![ident("fnx"), Token::Eof]);
    assert_eq!(drain("tru"), vec![ident("tru"), Token::Eof]);
    assert_eq!(drain("truee"), vec![ident("truee"), Token::Eof]);
}

#[test]
fn test_all_keywords() {
    let expected = vec![
        Token::Function,
        Token::Let,
        Token::True,
        Token::False,
        Token::If,
        Token::Else,
        Token::Return,
        Token::Eof,
    ];
    assert_eq!(drain("fn let true false if else return"), expected);
}

#[test]
fn test_two_char_operators() {
    assert_eq!(drain("=="), vec![Token::Equal, Token::Eof]);
    assert_eq!(drain("=x"), vec![Token::Assign, ident("x"), Token::Eof]);
    assert_eq!(drain("!="), vec![Token::NotEqual, Token::Eof]);
    assert_eq!(drain("!x"), vec![Token::Bang, ident("x"), Token::Eof]);
    assert_eq!(drain("==="), vec![Token::Equal, Token::Assign, Token::Eof]);
}

#[test]
fn test_determinism() {
    let input = "let add = fn(x, y) { x + y; };";
    let first = drain(input);
    let second = drain(input);
    assert_eq!(first, second);
    assert_eq!(first, tokenize(input));
}

#[test]
fn test_eof_is_stable() {
    let mut lexer = Lexer::new("+");
    assert_eq!(lexer.next_token(), Token::Plus);
    assert_eq!(lexer.next_token(), Token::Eof);
    assert_eq!(lexer.next_token(), Token::Eof);
    assert_eq!(lexer.next_token(), Token::Eof);
}

#[test]
fn test_empty_input() {
    assert_eq!(drain(""), vec![Token::Eof]);
    assert_eq!(drain(" \t\n\r"), vec![Token::Eof]);
}

#[test]
fn test_whitespace_invariance() {
    let bare = drain("let x=5;");
    assert_eq!(bare, drain("let x = 5 ;"));
    assert_eq!(bare, drain("  let\tx\n=\r5 ;  "));
    assert_eq!(bare, drain("let \t\t x  =\n\n5;\r\n"));
}

#[test]
fn test_illegal_bytes() {
    assert_eq!(drain("@"), vec![Token::Illegal, Token::Eof]);
    assert_eq!(
        drain("a @ b"),
        vec![ident("a"), Token::Illegal, ident("b"), Token::Eof]
    );
    assert_eq!(drain("#$"), vec![Token::Illegal, Token::Illegal, Token::Eof]);
}

#[test]
fn test_integer_values() {
    assert_eq!(
        drain("0 007 42"),
        vec![Token::Integer(0), Token::Integer(7), Token::Integer(42), Token::Eof]
    );
    assert_eq!(
        drain("9223372036854775807"),
        vec![Token::Integer(9223372036854775807), Token::Eof]
    );
}

#[test]
fn test_identifiers_with_underscore() {
    assert_eq!(
        drain("_foo bar_baz x1"),
        vec![
            ident("_foo"),
            ident("bar_baz"),
            ident("x"),
            Token::Integer(1),
            Token::Eof,
        ]
    );
}

#[test]
fn test_single_char_operators() {
    let expected = vec![
        Token::Plus,
        Token::Minus,
        Token::Asterisk,
        Token::Slash,
        Token::LessThan,
        Token::GreaterThan,
        Token::Comma,
        Token::Semicolon,
        Token::Eof,
    ];
    assert_eq!(drain("+-*/<>,;"), expected);
}

#[test]
fn test_nul_byte_ends_scan() {
    assert_eq!(drain("\u{0}+"), vec![Token::Eof]);
}

#[test]
fn test_tokenize_matches_drain() {
    let input = "if (a != b) { return 1; }";
    assert_eq!(tokenize(input), drain(input));
}

#[test]
fn test_cursor_operations() {
    let mut lexer = Lexer::new("ab");
    assert_eq!(lexer.position, 0);
    assert_eq!(lexer.read_position, 1);
    assert_eq!(lexer.ch, b'a');
    assert_eq!(lexer.peek_char(), b'b');
    lexer.read_char();
    assert_eq!(lexer.position, 1);
    assert_eq!(lexer.ch, b'b');
    assert_eq!(lexer.peek_char(), 0);

    let mut spaced = Lexer::new("  \t x");
    spaced.skip_whitespace();
    assert_eq!(spaced.ch, b'x');
    assert_eq!(spaced.position, 4);
}
