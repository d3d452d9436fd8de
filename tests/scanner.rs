use yerba::scanner::{LexicalError, Scanner};
use yerba::token::{decimal_text, Token, TokenType};

fn scan(source: &str) -> Result<Vec<Token>, LexicalError> {
    Scanner::new(source.to_string()).scan_tokens()
}

fn kinds(source: &str) -> Vec<TokenType> {
    scan(source).unwrap().iter().map(|t| t.kind).collect()
}

#[test]
fn punctuation_comes_out_in_order() {
    let got = kinds("( ) { } , . - + ; * /");
    assert_eq!(
        got,
        vec![
            TokenType::LeftParen,
            TokenType::RightParen,
            TokenType::LeftBrace,
            TokenType::RightBrace,
            TokenType::Comma,
            TokenType::Dot,
            TokenType::Minus,
            TokenType::Plus,
            TokenType::Semicolon,
            TokenType::Star,
            TokenType::Slash,
            TokenType::Eof,
        ]
    );
}

#[test]
fn adjacent_punctuation_and_tabs() {
    let got = kinds("(\t)*\r\n-");
    assert_eq!(
        got,
        vec![
            TokenType::LeftParen,
            TokenType::RightParen,
            TokenType::Star,
            TokenType::Minus,
            TokenType::Eof,
        ]
    );
}

#[test]
fn empty_source_gives_only_end_of_input() {
    let tokens = scan("").unwrap();
    assert_eq!(tokens.len(), 1);
    assert_eq!(tokens[0].kind, TokenType::Eof);
    assert_eq!(tokens[0].line, 1);
    assert_eq!(tokens[0].lexeme, "");
}

#[test]
fn comment_line_gives_end_of_input_on_line_two() {
    let tokens = scan("// comment\n").unwrap();
    assert_eq!(tokens.len(), 1);
    assert_eq!(tokens[0].kind, TokenType::Eof);
    assert_eq!(tokens[0].line, 2);
}

#[test]
fn comment_without_newline_ends_the_input() {
    let tokens = scan("+ // tail").unwrap();
    assert_eq!(tokens.len(), 2);
    assert_eq!(tokens[0].kind, TokenType::Plus);
    assert_eq!(tokens[1].line, 1);
}

#[test]
fn bang_with_and_without_equals() {
    assert_eq!(kinds("!="), vec![TokenType::BangEqual, TokenType::Eof]);
    assert_eq!(kinds("!"), vec![TokenType::Bang, TokenType::Eof]);
    assert_eq!(kinds("! ="), vec![TokenType::Bang, TokenType::Equal, TokenType::Eof]);
}

#[test]
fn two_character_operators() {
    assert_eq!(
        kinds("== = <= < >= > !=="),
        vec![
            TokenType::EqualEqual,
            TokenType::Equal,
            TokenType::LessEqual,
            TokenType::Less,
            TokenType::GreaterEqual,
            TokenType::Greater,
            TokenType::BangEqual,
            TokenType::Equal,
            TokenType::Eof,
        ]
    );
    let tokens = scan(">=").unwrap();
    assert_eq!(tokens[0].lexeme, ">=");
}

#[test]
fn operator_at_end_of_input_is_bare() {
    assert_eq!(kinds("="), vec![TokenType::Equal, TokenType::Eof]);
    assert_eq!(kinds("<\n="), vec![TokenType::Less, TokenType::Equal, TokenType::Eof]);
}

#[test]
fn string_literal_text() {
    let tokens = scan("\"abc\"").unwrap();
    assert_eq!(tokens.len(), 2);
    assert_eq!(tokens[0].kind, TokenType::String);
    assert_eq!(tokens[0].literal, "abc");
    assert_eq!(tokens[0].lexeme, "\"abc\"");
}

#[test]
fn unterminated_string_fails() {
    assert_eq!(scan("\"abc").unwrap_err(), LexicalError::UnterminatedString { line: 1 });
    assert_eq!(scan("\n\"a\nb").unwrap_err(), LexicalError::UnterminatedString { line: 2 });
}

#[test]
fn string_keeps_newlines_and_escapes_raw() {
    let tokens = scan("\"a\nb\\n\" x").unwrap();
    assert_eq!(tokens[0].kind, TokenType::String);
    assert_eq!(tokens[0].literal, "a\nb\\n");
    assert_eq!(tokens[0].line, 1);
    assert_eq!(tokens[1].kind, TokenType::Identifier);
    assert_eq!(tokens[1].line, 2);
    assert_eq!(tokens[2].line, 2);
}

#[test]
fn empty_string_literal() {
    let tokens = scan("\"\"").unwrap();
    assert_eq!(tokens[0].kind, TokenType::String);
    assert_eq!(tokens[0].literal, "");
}

#[test]
fn number_with_fraction() {
    let tokens = scan("123.45").unwrap();
    assert_eq!(tokens.len(), 2);
    assert_eq!(tokens[0].kind, TokenType::Number);
    assert_eq!(tokens[0].literal, "123.45");
    let value: f64 = tokens[0].literal.parse().unwrap();
    assert_eq!(value, 123.45);
}

#[test]
fn number_with_trailing_dot() {
    let tokens = scan("123.").unwrap();
    assert_eq!(tokens.len(), 3);
    assert_eq!(tokens[0].kind, TokenType::Number);
    let value: f64 = tokens[0].literal.parse().unwrap();
    assert_eq!(value, 123.0);
    assert_eq!(tokens[1].kind, TokenType::Dot);
    assert_eq!(tokens[2].kind, TokenType::Eof);
}

#[test]
fn number_takes_one_fraction_only() {
    let tokens = scan("1.2.3").unwrap();
    assert_eq!(tokens[0].literal, "1.2");
    assert_eq!(tokens[1].kind, TokenType::Dot);
    assert_eq!(tokens[2].literal, "3");
    assert_eq!(tokens.len(), 4);
}

#[test]
fn keyword_is_matched_whole() {
    assert_eq!(kinds("for"), vec![TokenType::For, TokenType::Eof]);
    let tokens = scan("forest").unwrap();
    assert_eq!(tokens.len(), 2);
    assert_eq!(tokens[0].kind, TokenType::Identifier);
    assert_eq!(tokens[0].literal, "forest");
}

#[test]
fn every_keyword() {
    assert_eq!(
        kinds("and class else false fun for if nil or print return super this true var while"),
        vec![
            TokenType::And,
            TokenType::Class,
            TokenType::Else,
            TokenType::False,
            TokenType::Fun,
            TokenType::For,
            TokenType::If,
            TokenType::Nil,
            TokenType::Or,
            TokenType::Print,
            TokenType::Return,
            TokenType::Super,
            TokenType::This,
            TokenType::True,
            TokenType::Var,
            TokenType::While,
            TokenType::Eof,
        ]
    );
}

#[test]
fn keywords_are_case_sensitive_and_identifiers_take_digits() {
    let tokens = scan("For _x1 x_2y").unwrap();
    assert_eq!(tokens[0].kind, TokenType::Identifier);
    assert_eq!(tokens[1].literal, "_x1");
    assert_eq!(tokens[2].literal, "x_2y");
    assert_eq!(tokens[3].kind, TokenType::Eof);
}

#[test]
fn unexpected_character_fails() {
    assert_eq!(scan("@").unwrap_err(), LexicalError::UnexpectedCharacter { found: '@', line: 1 });
    assert_eq!(
        scan("( \n\n # )").unwrap_err(),
        LexicalError::UnexpectedCharacter { found: '#', line: 3 }
    );
}

#[test]
fn lines_count_preceding_newlines() {
    let tokens = scan("a\nb\n\n( // c\n)").unwrap();
    let lines: Vec<usize> = tokens.iter().map(|t| t.line).collect();
    assert_eq!(lines, vec![1, 2, 4, 5, 5]);
}

#[test]
fn lexemes_are_source_text() {
    let tokens = scan("var x = 10;").unwrap();
    let lexemes: Vec<&str> = tokens.iter().map(|t| t.lexeme.as_str()).collect();
    assert_eq!(lexemes, vec!["var", "x", "=", "10", ";", ""]);
    assert_eq!(tokens[0].literal, "");
}

#[test]
fn token_text_shows_kind_and_line() {
    let tokens = scan("(\n\"hi\" 4.5 name and").unwrap();
    assert_eq!(tokens[0].to_text(), "( 1");
    assert_eq!(tokens[1].to_text(), "\"hi\" 2");
    assert_eq!(tokens[2].to_text(), "4.5 2");
    assert_eq!(tokens[3].to_text(), "name 2");
    assert_eq!(tokens[4].to_text(), "and 2");
    assert_eq!(tokens[5].to_text(), "EOF 2");
}

#[test]
fn symbols_of_kinds() {
    assert_eq!(TokenType::LeftBrace.symbol(), "{");
    assert_eq!(TokenType::GreaterEqual.symbol(), ">=");
    assert_eq!(TokenType::While.symbol(), "while");
    assert_eq!(TokenType::Eof.symbol(), "EOF");
}

#[test]
fn decimal_text_of_numbers() {
    assert_eq!(decimal_text(0), "0");
    assert_eq!(decimal_text(7), "7");
    assert_eq!(decimal_text(10), "10");
    assert_eq!(decimal_text(12345), "12345");
    assert_eq!(decimal_text(usize::MAX), usize::MAX.to_string());
}

#[test]
fn token_new_keeps_fields() {
    let t = Token::new(TokenType::Number, "42".to_string(), "42".to_string(), 3);
    assert_eq!(t.kind, TokenType::Number);
    assert_eq!(t.lexeme, "42");
    assert_eq!(t.literal, "42");
    assert_eq!(t.line, 3);
}
