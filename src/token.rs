//! Tokens: the kinds of lexeme the language knows, and the record that the
//! scanner produces for each lexeme.
use vstd::prelude::*;
use vstd::string::{StrSliceExecFns, StringExecFns};

verus! {

/// The lexical category of a token.
#[derive(Clone, Copy, Debug, PartialEq, Eq, Structural)]
pub enum TokenType {
    // Single-character tokens
    LeftParen,
    RightParen,
    LeftBrace,
    RightBrace,
    Comma,
    Dot,
    Minus,
    Plus,
    Semicolon,
    Slash,
    Star,
    // One or two character tokens
    Bang,
    BangEqual,
    Equal,
    EqualEqual,
    Greater,
    GreaterEqual,
    Less,
    LessEqual,
    // Literals; their text is the token's literal
    Identifier,
    String,
    Number,
    // Keywords
    And,
    Class,
    Else,
    False,
    Fun,
    For,
    If,
    Nil,
    Or,
    Print,
    Return,
    Super,
    This,
    True,
    Var,
    While,
    // End of input
    Eof,
}

/// The fixed text that names a kind: the symbol of an operator, the word of a
/// keyword, and a category name for the literal kinds and the end of input.
pub open spec fn symbol_of(kind: TokenType) -> Seq<char> {
    match kind {
        TokenType::LeftParen => "("@,
        TokenType::RightParen => ")"@,
        TokenType::LeftBrace => "{"@,
        TokenType::RightBrace => "}"@,
        TokenType::Comma => ","@,
        TokenType::Dot => "."@,
        TokenType::Minus => "-"@,
        TokenType::Plus => "+"@,
        TokenType::Semicolon => ";"@,
        TokenType::Slash => "/"@,
        TokenType::Star => "*"@,
        TokenType::Bang => "!"@,
        TokenType::BangEqual => "!="@,
        TokenType::Equal => "="@,
        TokenType::EqualEqual => "=="@,
        TokenType::Greater => ">"@,
        TokenType::GreaterEqual => ">="@,
        TokenType::Less => "<"@,
        TokenType::LessEqual => "<="@,
        TokenType::Identifier => "identifier"@,
        TokenType::String => "string"@,
        TokenType::Number => "number"@,
        TokenType::And => "and"@,
        TokenType::Class => "class"@,
        TokenType::Else => "else"@,
        TokenType::False => "false"@,
        TokenType::Fun => "fun"@,
        TokenType::For => "for"@,
        TokenType::If => "if"@,
        TokenType::Nil => "nil"@,
        TokenType::Or => "or"@,
        TokenType::Print => "print"@,
        TokenType::Return => "return"@,
        TokenType::Super => "super"@,
        TokenType::This => "this"@,
        TokenType::True => "true"@,
        TokenType::Var => "var"@,
        TokenType::While => "while"@,
        TokenType::Eof => "EOF"@,
    }
}

impl TokenType {
    /// The fixed text that names this kind (see [`symbol_of`]).
    pub fn symbol(&self) -> (r: &'static str)
        ensures
            r@ == symbol_of(*self),
    {
        match self {
            TokenType::LeftParen => "(",
            TokenType::RightParen => ")",
            TokenType::LeftBrace => "{",
            TokenType::RightBrace => "}",
            TokenType::Comma => ",",
            TokenType::Dot => ".",
            TokenType::Minus => "-",
            TokenType::Plus => "+",
            TokenType::Semicolon => ";",
            TokenType::Slash => "/",
            TokenType::Star => "*",
            TokenType::Bang => "!",
            TokenType::BangEqual => "!=",
            TokenType::Equal => "=",
            TokenType::EqualEqual => "==",
            TokenType::Greater => ">",
            TokenType::GreaterEqual => ">=",
            TokenType::Less => "<",
            TokenType::LessEqual => "<=",
            TokenType::Identifier => "identifier",
            TokenType::String => "string",
            TokenType::Number => "number",
            TokenType::And => "and",
            TokenType::Class => "class",
            TokenType::Else => "else",
            TokenType::False => "false",
            TokenType::Fun => "fun",
            TokenType::For => "for",
            TokenType::If => "if",
            TokenType::Nil => "nil",
            TokenType::Or => "or",
            TokenType::Print => "print",
            TokenType::Return => "return",
            TokenType::Super => "super",
            TokenType::This => "this",
            TokenType::True => "true",
            TokenType::Var => "var",
            TokenType::While => "while",
            TokenType::Eof => "EOF",
        }
    }
}

/// One scanned lexeme: its kind, its exact source text, its literal text
/// (the text between the quotes of a string, the text of a number or an
/// identifier, empty otherwise) and the 1-based line it began on.
#[derive(Clone, Debug)]
pub struct Token {
    pub kind: TokenType,
    pub lexeme: String,
    pub literal: String,
    pub line: usize,
}

/// The decimal digits of `n`, most significant first, without leading zeros.
pub open spec fn decimal(n: nat) -> Seq<char>
    decreases n,
{
    if n < 10 {
        "0123456789"@.subrange(n as int, n + 1int)
    } else {
        decimal(n / 10) + "0123456789"@.subrange((n % 10) as int, (n % 10) + 1int)
    }
}

/// The text that shows a token: what its kind stands for, a space and its
/// line number. A string shows its literal in quotes, a number or an
/// identifier its literal, every other kind its symbol.
pub open spec fn token_text(t: Token) -> Seq<char> {
    let shown = match t.kind {
        TokenType::Identifier | TokenType::Number => t.literal@,
        TokenType::String => "\""@ + t.literal@ + "\""@,
        _ => symbol_of(t.kind),
    };
    shown + " "@ + decimal(t.line as nat)
}

/// The decimal text of `n`.
pub fn decimal_text(n: usize) -> (r: String)
    ensures
        r@ == decimal(n as nat),
    decreases n,
{
    let digits = "0123456789";
    proof {
        reveal_strlit("0123456789");
    }
    if n < 10 {
        String::from_str(digits.substring_char(n, n + 1))
    } else {
        let d = n % 10;
        decimal_text(n / 10).concat(digits.substring_char(d, d + 1))
    }
}

impl Token {
    pub fn new(kind: TokenType, lexeme: String, literal: String, line: usize) -> (r: Self)
        ensures
            r.kind == kind,
            r.lexeme@ == lexeme@,
            r.literal@ == literal@,
            r.line == line,
    {
        Token { kind, lexeme, literal, line }
    }

    /// The text that shows this token (see [`token_text`]).
    pub fn to_text(&self) -> (r: String)
        ensures
            r@ == token_text(*self),
    {
        let shown = match self.kind {
            TokenType::Identifier | TokenType::Number => self.literal.clone(),
            TokenType::String => String::from_str("\"").concat(self.literal.as_str()).concat("\""),
            _ => String::from_str(self.kind.symbol()),
        };
        shown.concat(" ").concat(decimal_text(self.line).as_str())
    }
}

} // verus!
