//! The scanner: a cursor over a source text that produces its tokens.
use vstd::prelude::*;
use vstd::string::{StrSliceExecFns, StringExecFns};
use crate::lexicon::{
    char_at, digits_end, find_from, is_alpha, is_digit, keyword_of, lemma_find_from,
    lemma_newlines_split, lemma_step_bounds, literal_of, newlines, scan_from, step, word_end,
    Lexeme, Step,
};
use crate::token::{Token, TokenType};

verus! {

/// Why a scan stopped.
#[derive(Clone, Copy, Debug, PartialEq, Eq, Structural)]
pub enum LexicalError {
    /// A character that matches no lexical rule, and the line it stands on.
    UnexpectedCharacter { found: char, line: usize },
    /// A string literal, begun on `line`, whose closing quote never comes.
    UnterminatedString { line: usize },
}

/// Whether a token is what the lexer says of lexeme `m` of source `s`.
pub open spec fn token_matches(t: Token, s: Seq<char>, m: Lexeme) -> bool {
    &&& t.kind == m.kind
    &&& t.lexeme@ == s.subrange(m.start, m.end)
    &&& t.literal@ == literal_of(s, m)
    &&& t.line as int == m.line
}

/// Whether `ts` are, one for one, the tokens of the lexemes `ms` of `s`.
pub open spec fn tokens_match(ts: Seq<Token>, s: Seq<char>, ms: Seq<Lexeme>) -> bool {
    &&& ts.len() == ms.len()
    &&& forall|k: int| 0 <= k < ts.len() ==> token_matches(#[trigger] ts[k], s, ms[k])
}

/// The lexemes `done` followed by the outcome `r` of scanning the rest.
pub open spec fn after(done: Seq<Lexeme>, r: Result<Seq<Lexeme>, LexicalError>) -> Result<
    Seq<Lexeme>,
    LexicalError,
> {
    match r {
        Ok(rest) => Ok(done + rest),
        Err(e) => Err(e),
    }
}

fn is_digit_char(c: char) -> (r: bool)
    ensures
        r == is_digit(c),
{
    '0' <= c && c <= '9'
}

fn is_alpha_char(c: char) -> (r: bool)
    ensures
        r == is_alpha(c),
{
    ('a' <= c && c <= 'z') || ('A' <= c && c <= 'Z') || c == '_'
}

/// A scanner over one source text. It holds the text, the tokens produced so
/// far, the start of the lexeme being scanned, the scan position and the
/// current line.
#[derive(Clone, Debug)]
pub struct Scanner {
    source: String,
    chars: Vec<char>,
    tokens: Vec<Token>,
    start: usize,
    current: usize,
    line: usize,
}

impl Scanner {
    /// The source text.
    pub closed spec fn text(&self) -> Seq<char> {
        self.source@
    }

    /// The scan position: the number of characters consumed.
    pub closed spec fn cursor(&self) -> int {
        self.current as int
    }

    /// The line the scan stands on.
    pub closed spec fn line_no(&self) -> int {
        self.line as int
    }

    /// The tokens produced so far.
    pub closed spec fn emitted(&self) -> Seq<Token> {
        self.tokens@
    }

    /// The scanner's invariant: the position lies within the text, lines
    /// count from 1, and the line counter cannot overflow whatever remains.
    pub closed spec fn wf(&self) -> bool {
        &&& self.chars@ == self.source@
        &&& self.chars@.len() < usize::MAX
        &&& self.start <= self.current <= self.chars@.len()
        &&& 1 <= self.line
        &&& self.line + (self.chars@.len() - self.current) <= usize::MAX
    }

    /// Everything but the position and the line is as in `other`.
    spec fn same_but_cursor(&self, other: &Scanner) -> bool {
        &&& self.source == other.source
        &&& self.chars == other.chars
        &&& self.tokens == other.tokens
        &&& self.start == other.start
    }

    /// This scanner is `before` after one step of the lexer from the start of
    /// the lexeme, which began on `line`, with outcome `r`.
    spec fn finished_step(&self, before: &Scanner, line: usize, r: Result<(), LexicalError>) -> bool {
        let s = before.chars@;
        let i = before.start as int;
        match step(s, i) {
            Step::Skip { end } => {
                &&& r is Ok
                &&& self.wf()
                &&& self.source == before.source
                &&& self.chars == before.chars
                &&& self.tokens == before.tokens
                &&& self.current == end
                &&& self.line == line + newlines(s, i, end)
            },
            Step::Emit { kind, end } => {
                &&& r is Ok
                &&& self.wf()
                &&& self.source == before.source
                &&& self.chars == before.chars
                &&& self.current == end
                &&& self.line == line + newlines(s, i, end)
                &&& self.tokens@.len() == before.tokens@.len() + 1
                &&& self.tokens@.drop_last() == before.tokens@
                &&& token_matches(
                    self.tokens@.last(),
                    s,
                    Lexeme { kind, start: i, end, line: line as int },
                )
            },
            Step::Unexpected => {
                &&& r == Err::<(), LexicalError>(
                    LexicalError::UnexpectedCharacter { found: s[i], line },
                )
                &&& self.wf()
                &&& self.source == before.source
            },
            Step::Unterminated => {
                &&& r == Err::<(), LexicalError>(LexicalError::UnterminatedString { line })
                &&& self.wf()
                &&& self.source == before.source
            },
        }
    }

    /// A scanner at the start of `source`, on line 1, with no tokens yet.
    pub fn new(source: String) -> (r: Self)
        requires
            source@.len() < usize::MAX,
        ensures
            r.wf(),
            r.text() == source@,
            r.cursor() == 0,
            r.line_no() == 1,
            r.emitted() == Seq::<Token>::empty(),
    {
        let n = source.as_str().unicode_len();
        let mut chars: Vec<char> = Vec::new();
        let mut i: usize = 0;
        while i < n
            invariant
                n == source@.len(),
                i <= n,
                chars@ == source@.subrange(0, i as int),
            decreases n - i,
        {
            chars.push(source.as_str().get_char(i));
            i = i + 1;
            assert(chars@ =~= source@.subrange(0, i as int));
        }
        assert(chars@ =~= source@);
        Scanner { source, chars, tokens: Vec::new(), start: 0, current: 0, line: 1 }
    }

    fn is_at_end(&self) -> (r: bool)
        requires
            self.wf(),
        ensures
            r == (self.current >= self.chars@.len()),
    {
        self.current >= self.chars.len()
    }

    /// Consumes one character, counting it if it ends a line.
    fn advance(&mut self) -> (c: char)
        requires
            old(self).wf(),
            old(self).current < old(self).chars@.len(),
        ensures
            final(self).wf(),
            final(self).same_but_cursor(old(self)),
            c == old(self).chars@[old(self).current as int],
            final(self).current == old(self).current + 1,
            final(self).line == old(self).line + newlines(
                old(self).chars@,
                old(self).current as int,
                final(self).current as int,
            ),
    {
        let c = self.chars[self.current];
        proof {
            reveal_with_fuel(newlines, 2);
        }
        self.current = self.current + 1;
        if c == '\n' {
            self.line = self.line + 1;
        }
        c
    }

    fn peek_is(&self, expected: char) -> (r: bool)
        requires
            self.wf(),
        ensures
            r == char_at(self.chars@, self.current as int, expected),
    {
        self.current < self.chars.len() && self.chars[self.current] == expected
    }

    fn peek_next_is_digit(&self) -> (r: bool)
        requires
            self.wf(),
        ensures
            r == (self.current + 1 < self.chars@.len() && is_digit(
                self.chars@[self.current + 1],
            )),
    {
        self.current + 1 < self.chars.len() && is_digit_char(self.chars[self.current + 1])
    }

    /// Consumes the maximal run of digits at the position.
    fn advance_digits(&mut self)
        requires
            old(self).wf(),
        ensures
            final(self).wf(),
            final(self).same_but_cursor(old(self)),
            final(self).current == digits_end(old(self).chars@, old(self).current as int),
            old(self).current <= final(self).current,
            final(self).line == old(self).line + newlines(
                old(self).chars@,
                old(self).current as int,
                final(self).current as int,
            ),
    {
        while self.current < self.chars.len() && is_digit_char(self.chars[self.current])
            invariant
                self.wf(),
                self.same_but_cursor(old(self)),
                old(self).current <= self.current,
                digits_end(self.chars@, self.current as int) == digits_end(
                    old(self).chars@,
                    old(self).current as int,
                ),
                self.line == old(self).line + newlines(
                    old(self).chars@,
                    old(self).current as int,
                    self.current as int,
                ),
            decreases self.chars@.len() - self.current,
        {
            let ghost before = self.current as int;
            self.advance();
            proof {
                lemma_newlines_split(self.chars@, old(self).current as int, before, self.current as int);
            }
        }
    }

    /// Consumes the maximal run of letters, digits and underscores.
    fn advance_word(&mut self)
        requires
            old(self).wf(),
        ensures
            final(self).wf(),
            final(self).same_but_cursor(old(self)),
            final(self).current == word_end(old(self).chars@, old(self).current as int),
            old(self).current <= final(self).current,
            final(self).line == old(self).line + newlines(
                old(self).chars@,
                old(self).current as int,
                final(self).current as int,
            ),
    {
        while self.current < self.chars.len() && (is_alpha_char(self.chars[self.current])
            || is_digit_char(self.chars[self.current]))
            invariant
                self.wf(),
                self.same_but_cursor(old(self)),
                old(self).current <= self.current,
                word_end(self.chars@, self.current as int) == word_end(
                    old(self).chars@,
                    old(self).current as int,
                ),
                self.line == old(self).line + newlines(
                    old(self).chars@,
                    old(self).current as int,
                    self.current as int,
                ),
            decreases self.chars@.len() - self.current,
        {
            let ghost before = self.current as int;
            self.advance();
            proof {
                lemma_newlines_split(self.chars@, old(self).current as int, before, self.current as int);
            }
        }
    }

    /// Consumes characters up to the next `stop`, or to the end of the text.
    fn advance_until(&mut self, stop: char)
        requires
            old(self).wf(),
        ensures
            final(self).wf(),
            final(self).same_but_cursor(old(self)),
            final(self).current == find_from(old(self).chars@, old(self).current as int, stop),
            old(self).current <= final(self).current,
            final(self).line == old(self).line + newlines(
                old(self).chars@,
                old(self).current as int,
                final(self).current as int,
            ),
    {
        while self.current < self.chars.len() && self.chars[self.current] != stop
            invariant
                self.wf(),
                self.same_but_cursor(old(self)),
                old(self).current <= self.current,
                find_from(self.chars@, self.current as int, stop) == find_from(
                    old(self).chars@,
                    old(self).current as int,
                    stop,
                ),
                self.line == old(self).line + newlines(
                    old(self).chars@,
                    old(self).current as int,
                    self.current as int,
                ),
            decreases self.chars@.len() - self.current,
        {
            let ghost before = self.current as int;
            self.advance();
            proof {
                lemma_newlines_split(self.chars@, old(self).current as int, before, self.current as int);
            }
        }
    }

    /// Whether the current lexeme is exactly the word `w`.
    fn lexeme_is(&self, w: &str) -> (r: bool)
        requires
            self.wf(),
        ensures
            r == (self.chars@.subrange(self.start as int, self.current as int) == w@),
    {
        let n = w.unicode_len();
        if self.current - self.start != n {
            return false;
        }
        let mut i: usize = 0;
        while i < n
            invariant
                self.wf(),
                n == w@.len(),
                self.start + n == self.current,
                i <= n,
                forall|k: int| 0 <= k < i ==> self.chars@[self.start + k] == w@[k],
            decreases n - i,
        {
            if self.chars[self.start + i] != w.get_char(i) {
                assert(self.chars@.subrange(self.start as int, self.current as int)[i as int]
                    != w@[i as int]);
                return false;
            }
            i = i + 1;
        }
        assert(self.chars@.subrange(self.start as int, self.current as int) =~= w@);
        true
    }

    /// The kind of the current lexeme, a word: its keyword, or `Identifier`.
    fn keyword_kind(&self) -> (r: TokenType)
        requires
            self.wf(),
        ensures
            r == keyword_of(self.chars@.subrange(self.start as int, self.current as int)),
    {
        if self.lexeme_is("and") {
            TokenType::And
        } else if self.lexeme_is("class") {
            TokenType::Class
        } else if self.lexeme_is("else") {
            TokenType::Else
        } else if self.lexeme_is("false") {
            TokenType::False
        } else if self.lexeme_is("fun") {
            TokenType::Fun
        } else if self.lexeme_is("for") {
            TokenType::For
        } else if self.lexeme_is("if") {
            TokenType::If
        } else if self.lexeme_is("nil") {
            TokenType::Nil
        } else if self.lexeme_is("or") {
            TokenType::Or
        } else if self.lexeme_is("print") {
            TokenType::Print
        } else if self.lexeme_is("return") {
            TokenType::Return
        } else if self.lexeme_is("super") {
            TokenType::Super
        } else if self.lexeme_is("this") {
            TokenType::This
        } else if self.lexeme_is("true") {
            TokenType::True
        } else if self.lexeme_is("var") {
            TokenType::Var
        } else if self.lexeme_is("while") {
            TokenType::While
        } else {
            TokenType::Identifier
        }
    }

    /// Appends a token of kind `kind` for the current lexeme, which began on
    /// `line`.
    fn add_token(&mut self, kind: TokenType, line: usize)
        requires
            old(self).wf(),
            old(self).start < old(self).current,
            kind == TokenType::String ==> old(self).start + 2 <= old(self).current,
        ensures
            final(self).wf(),
            final(self).source == old(self).source,
            final(self).chars == old(self).chars,
            final(self).start == old(self).start,
            final(self).current == old(self).current,
            final(self).line == old(self).line,
            final(self).tokens@.len() == old(self).tokens@.len() + 1,
            final(self).tokens@.drop_last() == old(self).tokens@,
            token_matches(
                final(self).tokens@.last(),
                old(self).chars@,
                Lexeme {
                    kind,
                    start: old(self).start as int,
                    end: old(self).current as int,
                    line: line as int,
                },
            ),
    {
        let text = self.source.as_str();
        let lexeme = String::from_str(text.substring_char(self.start, self.current));
        let literal = match kind {
            TokenType::String => String::from_str(
                text.substring_char(self.start + 1, self.current - 1),
            ),
            TokenType::Identifier | TokenType::Number => String::from_str(
                text.substring_char(self.start, self.current),
            ),
            _ => String::new(),
        };
        self.tokens.push(Token::new(kind, lexeme, literal, line));
        assert(self.tokens@.drop_last() =~= old(self).tokens@);
    }

    /// Scans one token, or skips one piece of whitespace or one comment,
    /// from the start of the current lexeme.
    fn scan_token(&mut self) -> (r: Result<(), LexicalError>)
        requires
            old(self).wf(),
            old(self).start == old(self).current,
            old(self).current < old(self).chars@.len(),
        ensures
            final(self).finished_step(old(self), old(self).line, r),
    {
        let ghost s = self.chars@;
        let ghost i = self.start as int;
        proof {
            reveal_with_fuel(newlines, 2);
        }
        let line = self.line;
        let c = self.advance();
        match c {
            '(' => self.add_token(TokenType::LeftParen, line),
            ')' => self.add_token(TokenType::RightParen, line),
            '{' => self.add_token(TokenType::LeftBrace, line),
            '}' => self.add_token(TokenType::RightBrace, line),
            ',' => self.add_token(TokenType::Comma, line),
            '.' => self.add_token(TokenType::Dot, line),
            '-' => self.add_token(TokenType::Minus, line),
            '+' => self.add_token(TokenType::Plus, line),
            ';' => self.add_token(TokenType::Semicolon, line),
            '*' => self.add_token(TokenType::Star, line),
            '!' | '=' | '<' | '>' => {
                let equals = self.match_next('=');
                proof {
                    lemma_newlines_split(s, i, i + 1, self.current as int);
                }
                let kind = match (c, equals) {
                    ('!', true) => TokenType::BangEqual,
                    ('!', false) => TokenType::Bang,
                    ('=', true) => TokenType::EqualEqual,
                    ('=', false) => TokenType::Equal,
                    ('<', true) => TokenType::LessEqual,
                    ('<', false) => TokenType::Less,
                    (_, true) => TokenType::GreaterEqual,
                    (_, false) => TokenType::Greater,
                };
                self.add_token(kind, line);
            },
            '/' => {
                if self.match_next('/') {
                    self.advance_until('\n');
                    proof {
                        lemma_newlines_split(s, i, i + 1, i + 2);
                        lemma_newlines_split(s, i, i + 2, self.current as int);
                    }
                } else {
                    self.add_token(TokenType::Slash, line);
                }
            },
            ' ' | '\r' | '\t' | '\n' => {},
            '"' => {
                return self.string(line);
            },
            _ => {
                if is_digit_char(c) {
                    return self.number(line);
                } else if is_alpha_char(c) {
                    return self.identifier(line);
                } else {
                    return Err(LexicalError::UnexpectedCharacter { found: c, line });
                }
            },
        }
        Ok(())
    }

    /// Scans the rest of the text, appending its tokens and then the
    /// end-of-input token, and hands back every token produced; or stops at
    /// the first lexical error.
    ///
    /// On a scanner fresh from [`Scanner::new`] the tokens are those of
    /// `scan(text)`, with the text and line of each lexeme.
    pub fn scan_tokens(&mut self) -> (r: Result<Vec<Token>, LexicalError>)
        requires
            old(self).wf(),
        ensures
            final(self).wf(),
            final(self).text() == old(self).text(),
            match r {
                Ok(v) => {
                    &&& scan_from(old(self).text(), old(self).cursor(), old(self).line_no()) is Ok
                    &&& v@.len() >= old(self).emitted().len()
                    &&& v@.subrange(0, old(self).emitted().len() as int) == old(self).emitted()
                    &&& tokens_match(
                        v@.subrange(old(self).emitted().len() as int, v@.len() as int),
                        old(self).text(),
                        scan_from(old(self).text(), old(self).cursor(), old(self).line_no())->Ok_0,
                    )
                },
                Err(e) => scan_from(old(self).text(), old(self).cursor(), old(self).line_no())
                    == Err::<Seq<Lexeme>, LexicalError>(e),
            },
    {
        let ghost s = self.chars@;
        let ghost n0 = self.tokens@.len() as int;
        let ghost whole = scan_from(s, self.current as int, self.line as int);
        let ghost done: Seq<Lexeme> = Seq::empty();
        while !self.is_at_end()
            invariant
                self.wf(),
                self.chars@ == s,
                self.source@ == old(self).source@,
                n0 == old(self).tokens@.len(),
                whole == scan_from(old(self).text(), old(self).cursor(), old(self).line_no()),
                self.tokens@.len() == n0 + done.len(),
                self.tokens@.subrange(0, n0) == old(self).tokens@,
                tokens_match(self.tokens@.subrange(n0, self.tokens@.len() as int), s, done),
                after(done, scan_from(s, self.current as int, self.line as int)) == whole,
            decreases s.len() - self.current,
        {
            self.start = self.current;
            let ghost before = *self;
            proof {
                lemma_step_bounds(s, self.current as int);
            }
            match self.scan_token() {
                Ok(()) => {},
                Err(e) => {
                    return Err(e);
                },
            }
            proof {
                let i = before.current as int;
                match step(s, i) {
                    Step::Emit { kind, end } => {
                        let m = Lexeme { kind, start: i, end, line: before.line as int };
                        let rest = scan_from(s, end, self.line as int);
                        if rest is Ok {
                            assert(done + (seq![m] + rest->Ok_0) =~= done.push(m) + rest->Ok_0);
                        }
                        let ts = self.tokens@.subrange(n0, self.tokens@.len() as int);
                        assert(ts.drop_last() =~= before.tokens@.subrange(n0, before.tokens@.len() as int));
                        assert(self.tokens@.subrange(0, n0) =~= before.tokens@.subrange(0, n0));
                        assert(ts.last() == self.tokens@.last());
                        done = done.push(m);
                        assert forall|k: int| 0 <= k < ts.len() implies token_matches(#[trigger] ts[k], s, done[k]) by {
                            if k < ts.len() - 1 {
                                assert(ts[k] == ts.drop_last()[k]);
                            }
                        }
                    },
                    _ => {},
                }
            }
        }
        let ghost last_line = self.line as int;
        let ghost prev = self.tokens@;
        let eof = Token::new(TokenType::Eof, String::new(), String::new(), self.line);
        assert(s.subrange(s.len() as int, s.len() as int) =~= eof.lexeme@);
        self.tokens.push(eof);
        proof {
            let m = Lexeme { kind: TokenType::Eof, start: s.len() as int, end: s.len() as int, line: last_line };
            assert(done + seq![m] =~= done.push(m));
            let ts = self.tokens@.subrange(n0, self.tokens@.len() as int);
            assert(self.tokens@.subrange(0, n0) =~= old(self).tokens@);
            done = done.push(m);
            assert forall|k: int| 0 <= k < ts.len() implies token_matches(#[trigger] ts[k], s, done[k]) by {
                if k < ts.len() - 1 {
                    assert(ts[k] == prev[n0 + k]);
                    assert(prev[n0 + k] == prev.subrange(n0, prev.len() as int)[k]);
                }
            }
        }
        let mut out: Vec<Token> = Vec::new();
        std::mem::swap(&mut out, &mut self.tokens);
        Ok(out)
    }

    /// Scans the rest of a string literal whose opening quote, on `line`, has
    /// just been consumed.
    fn string(&mut self, line: usize) -> (r: Result<(), LexicalError>)
        requires
            old(self).wf(),
            old(self).start + 1 == old(self).current,
            old(self).chars@[old(self).start as int] == '"',
            old(self).line == line + newlines(
                old(self).chars@,
                old(self).start as int,
                old(self).current as int,
            ),
        ensures
            final(self).finished_step(old(self), line, r),
    {
        let ghost s = self.chars@;
        let ghost i = self.start as int;
        self.advance_until('"');
        proof {
            lemma_newlines_split(s, i, i + 1, self.current as int);
            lemma_find_from(s, i + 1, '"');
        }
        if self.is_at_end() {
            Err(LexicalError::UnterminatedString { line })
        } else {
            let ghost q = self.current as int;
            self.advance();
            proof {
                lemma_newlines_split(s, i, q, self.current as int);
            }
            self.add_token(TokenType::String, line);
            Ok(())
        }
    }

    /// Scans the rest of a number literal whose first digit, on `line`, has
    /// just been consumed.
    fn number(&mut self, line: usize) -> (r: Result<(), LexicalError>)
        requires
            old(self).wf(),
            old(self).start + 1 == old(self).current,
            is_digit(old(self).chars@[old(self).start as int]),
            old(self).line == line + newlines(
                old(self).chars@,
                old(self).start as int,
                old(self).current as int,
            ),
        ensures
            final(self).finished_step(old(self), line, r),
    {
        let ghost s = self.chars@;
        let ghost i = self.start as int;
        self.advance_digits();
        proof {
            lemma_newlines_split(s, i, i + 1, self.current as int);
        }
        if self.peek_is('.') && self.peek_next_is_digit() {
            let ghost e = self.current as int;
            self.advance();
            self.advance_digits();
            proof {
                lemma_newlines_split(s, i, e, e + 1);
                lemma_newlines_split(s, i, e + 1, self.current as int);
            }
        }
        self.add_token(TokenType::Number, line);
        Ok(())
    }

    /// Scans the rest of a word whose first character, on `line`, has just
    /// been consumed.
    fn identifier(&mut self, line: usize) -> (r: Result<(), LexicalError>)
        requires
            old(self).wf(),
            old(self).start + 1 == old(self).current,
            is_alpha(old(self).chars@[old(self).start as int]),
            old(self).line == line + newlines(
                old(self).chars@,
                old(self).start as int,
                old(self).current as int,
            ),
        ensures
            final(self).finished_step(old(self), line, r),
    {
        let ghost s = self.chars@;
        let ghost i = self.start as int;
        self.advance_word();
        proof {
            lemma_newlines_split(s, i, i + 1, self.current as int);
        }
        let kind = self.keyword_kind();
        self.add_token(kind, line);
        Ok(())
    }

    /// Consumes the next character if it is `expected`.
    fn match_next(&mut self, expected: char) -> (r: bool)
        requires
            old(self).wf(),
        ensures
            final(self).wf(),
            final(self).same_but_cursor(old(self)),
            r == char_at(old(self).chars@, old(self).current as int, expected),
            final(self).current == old(self).current + if r { 1int } else { 0int },
            final(self).line == old(self).line + newlines(
                old(self).chars@,
                old(self).current as int,
                final(self).current as int,
            ),
    {
        if self.peek_is(expected) {
            self.advance();
            true
        } else {
            false
        }
    }
}

} // verus!
