//! The lexer as mathematics: what the scanner must produce for a source text,
//! stated over sequences of characters, and the laws that hold of it.
use vstd::prelude::*;
use crate::scanner::LexicalError;
use crate::token::TokenType;

verus! {

/// One lexeme as the lexer sees it: its kind, the half-open range
/// `[start, end)` of source positions it covers, and the line it began on.
/// The end-of-input token covers the empty range at the end of the source.
pub struct Lexeme {
    pub kind: TokenType,
    pub start: int,
    pub end: int,
    pub line: int,
}

/// What the lexer does at one position of the source.
pub enum Step {
    /// Insignificant input (whitespace or a comment) up to `end`.
    Skip { end: int },
    /// A token of kind `kind` up to `end`.
    Emit { kind: TokenType, end: int },
    /// The character matches no lexical rule.
    Unexpected,
    /// A string literal whose closing quote never comes.
    Unterminated,
}

pub open spec fn is_digit(c: char) -> bool {
    '0' <= c && c <= '9'
}

pub open spec fn is_alpha(c: char) -> bool {
    ('a' <= c && c <= 'z') || ('A' <= c && c <= 'Z') || c == '_'
}

pub open spec fn is_alnum(c: char) -> bool {
    is_alpha(c) || is_digit(c)
}

pub open spec fn is_space(c: char) -> bool {
    c == ' ' || c == '\r' || c == '\t' || c == '\n'
}

/// Whether position `i` of `s` holds `c`.
pub open spec fn char_at(s: Seq<char>, i: int, c: char) -> bool {
    0 <= i < s.len() && s[i] == c
}

/// The kind of a character that is a token on its own, whatever follows it.
pub open spec fn single_kind(c: char) -> Option<TokenType> {
    if c == '(' {
        Some(TokenType::LeftParen)
    } else if c == ')' {
        Some(TokenType::RightParen)
    } else if c == '{' {
        Some(TokenType::LeftBrace)
    } else if c == '}' {
        Some(TokenType::RightBrace)
    } else if c == ',' {
        Some(TokenType::Comma)
    } else if c == '.' {
        Some(TokenType::Dot)
    } else if c == '-' {
        Some(TokenType::Minus)
    } else if c == '+' {
        Some(TokenType::Plus)
    } else if c == ';' {
        Some(TokenType::Semicolon)
    } else if c == '*' {
        Some(TokenType::Star)
    } else {
        None
    }
}

/// The bare and the with-equals kind of a character that may start a
/// two-character operator.
pub open spec fn pair_kinds(c: char) -> Option<(TokenType, TokenType)> {
    if c == '!' {
        Some((TokenType::Bang, TokenType::BangEqual))
    } else if c == '=' {
        Some((TokenType::Equal, TokenType::EqualEqual))
    } else if c == '<' {
        Some((TokenType::Less, TokenType::LessEqual))
    } else if c == '>' {
        Some((TokenType::Greater, TokenType::GreaterEqual))
    } else {
        None
    }
}

/// The kind of a word: its keyword if it is one, else `Identifier`.
pub open spec fn keyword_of(w: Seq<char>) -> TokenType {
    if w == "and"@ {
        TokenType::And
    } else if w == "class"@ {
        TokenType::Class
    } else if w == "else"@ {
        TokenType::Else
    } else if w == "false"@ {
        TokenType::False
    } else if w == "fun"@ {
        TokenType::Fun
    } else if w == "for"@ {
        TokenType::For
    } else if w == "if"@ {
        TokenType::If
    } else if w == "nil"@ {
        TokenType::Nil
    } else if w == "or"@ {
        TokenType::Or
    } else if w == "print"@ {
        TokenType::Print
    } else if w == "return"@ {
        TokenType::Return
    } else if w == "super"@ {
        TokenType::Super
    } else if w == "this"@ {
        TokenType::This
    } else if w == "true"@ {
        TokenType::True
    } else if w == "var"@ {
        TokenType::Var
    } else if w == "while"@ {
        TokenType::While
    } else {
        TokenType::Identifier
    }
}

/// The end of the maximal run of digits that starts at `i`.
pub open spec fn digits_end(s: Seq<char>, i: int) -> int
    decreases s.len() - i,
{
    if 0 <= i < s.len() && is_digit(s[i]) {
        digits_end(s, i + 1)
    } else {
        i
    }
}

/// The end of the maximal run of letters, digits and underscores from `i`.
pub open spec fn word_end(s: Seq<char>, i: int) -> int
    decreases s.len() - i,
{
    if 0 <= i < s.len() && is_alnum(s[i]) {
        word_end(s, i + 1)
    } else {
        i
    }
}

/// The first position at or after `i` that holds `c`, or the length of `s`.
pub open spec fn find_from(s: Seq<char>, i: int, c: char) -> int
    decreases s.len() - i,
{
    if 0 <= i < s.len() && s[i] != c {
        find_from(s, i + 1, c)
    } else {
        i
    }
}

/// The end of a number literal that starts at `i`: digits, then a dot and
/// digits if a digit follows the dot.
pub open spec fn number_end(s: Seq<char>, i: int) -> int {
    let e = digits_end(s, i);
    if char_at(s, e, '.') && e + 1 < s.len() && is_digit(s[e + 1]) {
        digits_end(s, e + 1)
    } else {
        e
    }
}

/// What the lexer does at position `i`, which holds a character.
pub open spec fn step(s: Seq<char>, i: int) -> Step {
    let c = s[i];
    if let Some(kind) = single_kind(c) {
        Step::Emit { kind, end: i + 1 }
    } else if let Some((bare, equals)) = pair_kinds(c) {
        if char_at(s, i + 1, '=') {
            Step::Emit { kind: equals, end: i + 2 }
        } else {
            Step::Emit { kind: bare, end: i + 1 }
        }
    } else if c == '/' {
        if char_at(s, i + 1, '/') {
            Step::Skip { end: find_from(s, i + 2, '\n') }
        } else {
            Step::Emit { kind: TokenType::Slash, end: i + 1 }
        }
    } else if is_space(c) {
        Step::Skip { end: i + 1 }
    } else if c == '"' {
        let q = find_from(s, i + 1, '"');
        if q < s.len() {
            Step::Emit { kind: TokenType::String, end: q + 1 }
        } else {
            Step::Unterminated
        }
    } else if is_digit(c) {
        Step::Emit { kind: TokenType::Number, end: number_end(s, i) }
    } else if is_alpha(c) {
        Step::Emit { kind: keyword_of(s.subrange(i, word_end(s, i))), end: word_end(s, i) }
    } else {
        Step::Unexpected
    }
}

proof fn lemma_digits_end(s: Seq<char>, i: int)
    requires
        0 <= i <= s.len(),
    ensures
        i <= digits_end(s, i) <= s.len(),
        forall|k: int| i <= k < digits_end(s, i) ==> is_digit(#[trigger] s[k]),
    decreases s.len() - i,
{
    if i < s.len() && is_digit(s[i]) {
        lemma_digits_end(s, i + 1);
    }
}

proof fn lemma_word_end(s: Seq<char>, i: int)
    requires
        0 <= i <= s.len(),
    ensures
        i <= word_end(s, i) <= s.len(),
        forall|k: int| i <= k < word_end(s, i) ==> is_alnum(#[trigger] s[k]),
    decreases s.len() - i,
{
    if i < s.len() && is_alnum(s[i]) {
        lemma_word_end(s, i + 1);
    }
}

pub proof fn lemma_find_from(s: Seq<char>, i: int, c: char)
    requires
        0 <= i <= s.len(),
    ensures
        i <= find_from(s, i, c) <= s.len(),
        forall|k: int| i <= k < find_from(s, i, c) ==> #[trigger] s[k] != c,
        find_from(s, i, c) < s.len() ==> s[find_from(s, i, c)] == c,
    decreases s.len() - i,
{
    if i < s.len() && s[i] != c {
        lemma_find_from(s, i + 1, c);
    }
}

/// Each step that goes on moves forward and stays within the source.
pub proof fn lemma_step_bounds(s: Seq<char>, i: int)
    requires
        0 <= i < s.len(),
    ensures
        match step(s, i) {
            Step::Skip { end } => i < end <= s.len(),
            Step::Emit { end, .. } => i < end <= s.len(),
            _ => true,
        },
{
    lemma_digits_end(s, i + 1);
    lemma_word_end(s, i + 1);
    if char_at(s, i + 1, '/') {
        lemma_find_from(s, i + 2, '\n');
    }
    lemma_find_from(s, i + 1, '"');
    let e = digits_end(s, i);
    if char_at(s, e, '.') && e + 1 < s.len() {
        lemma_digits_end(s, e + 1);
    }
}

/// The number of newline characters among positions `[a, b)` of `s`.
pub open spec fn newlines(s: Seq<char>, a: int, b: int) -> int
    decreases b - a,
{
    if b <= a {
        0
    } else {
        newlines(s, a, b - 1) + (if s[b - 1] == '\n' { 1int } else { 0int })
    }
}

/// Newlines over `[a, c)` are those over `[a, b)` and over `[b, c)`.
pub proof fn lemma_newlines_split(s: Seq<char>, a: int, b: int, c: int)
    requires
        a <= b <= c,
    ensures
        newlines(s, a, c) == newlines(s, a, b) + newlines(s, b, c),
    decreases c - b,
{
    if b < c {
        lemma_newlines_split(s, a, b, c - 1);
    }
}

/// The lexemes of `s` from position `i` on, when the scan stands on line
/// `line` there; or the error that stops the scan.
pub open spec fn scan_from(s: Seq<char>, i: int, line: int) -> Result<Seq<Lexeme>, LexicalError>
    decreases s.len() - i,
    via scan_from_decreases
{
    if i < 0 || i >= s.len() {
        Ok(seq![Lexeme { kind: TokenType::Eof, start: s.len() as int, end: s.len() as int, line }])
    } else {
        match step(s, i) {
            Step::Skip { end } => scan_from(s, end, line + newlines(s, i, end)),
            Step::Emit { kind, end } => match scan_from(s, end, line + newlines(s, i, end)) {
                Ok(rest) => Ok(seq![Lexeme { kind, start: i, end, line }] + rest),
                Err(e) => Err(e),
            },
            Step::Unexpected => Err(LexicalError::UnexpectedCharacter { found: s[i], line: line as usize }),
            Step::Unterminated => Err(LexicalError::UnterminatedString { line: line as usize }),
        }
    }
}

#[via_fn]
proof fn scan_from_decreases(s: Seq<char>, i: int, line: int) {
    if 0 <= i < s.len() {
        lemma_step_bounds(s, i);
    }
}

/// The lexemes of a whole source text, or the error that stops its scan.
pub open spec fn scan(s: Seq<char>) -> Result<Seq<Lexeme>, LexicalError> {
    scan_from(s, 0, 1)
}

/// The literal text of a lexeme: the text between the quotes of a string,
/// the lexeme itself for a number or an identifier, and nothing otherwise.
pub open spec fn literal_of(s: Seq<char>, m: Lexeme) -> Seq<char> {
    match m.kind {
        TokenType::String => s.subrange(m.start + 1, m.end - 1),
        TokenType::Identifier | TokenType::Number => s.subrange(m.start, m.end),
        _ => Seq::empty(),
    }
}

/// The line of each lexeme that a scan from `i` on line `line` yields, where
/// `line` counts the newlines before `i`, counts the newlines before it.
proof fn lemma_lines_from(s: Seq<char>, i: int, line: int)
    requires
        0 <= i <= s.len(),
        line == 1 + newlines(s, 0, i),
    ensures
        scan_from(s, i, line) is Ok ==> forall|k: int|
            0 <= k < scan_from(s, i, line)->Ok_0.len() ==> (#[trigger] scan_from(
                s,
                i,
                line,
            )->Ok_0[k]).line == 1 + newlines(s, 0, scan_from(s, i, line)->Ok_0[k].start),
    decreases s.len() - i,
{
    if i < s.len() {
        lemma_step_bounds(s, i);
        match step(s, i) {
            Step::Skip { end } => {
                lemma_newlines_split(s, 0, i, end);
                lemma_lines_from(s, end, line + newlines(s, i, end));
            },
            Step::Emit { kind, end } => {
                lemma_newlines_split(s, 0, i, end);
                lemma_lines_from(s, end, line + newlines(s, i, end));
                let r = scan_from(s, end, line + newlines(s, i, end));
                if r is Ok {
                    let m = scan_from(s, i, line)->Ok_0;
                    assert forall|k: int| 0 <= k < m.len() implies (#[trigger] m[k]).line == 1
                        + newlines(s, 0, m[k].start) by {
                        if k > 0 {
                            assert(m[k] == r->Ok_0[k - 1]);
                        }
                    }
                }
            },
            _ => {},
        }
    }
}

/// Every token, the end-of-input token included, stands on the line that the
/// newlines before its first character give: their number plus one.
pub proof fn lemma_line_is_newlines_before(s: Seq<char>)
    ensures
        scan(s) is Ok ==> forall|k: int|
            0 <= k < scan(s)->Ok_0.len() ==> (#[trigger] scan(s)->Ok_0[k]).line == 1 + newlines(
                s,
                0,
                scan(s)->Ok_0[k].start,
            ),
{
    lemma_lines_from(s, 0, 1);
}

/// Whether `c` is one of the characters that are a token on their own when
/// no other character is next to them.
pub open spec fn is_punctuation(c: char) -> bool {
    single_kind(c) is Some || c == '/'
}

/// The token kind of a punctuation character.
pub open spec fn punctuation_kind(c: char) -> TokenType {
    if c == '/' {
        TokenType::Slash
    } else {
        single_kind(c)->0
    }
}

/// The kinds of a sequence of lexemes, in order.
pub open spec fn kinds(m: Seq<Lexeme>) -> Seq<TokenType> {
    m.map_values(|l: Lexeme| l.kind)
}

/// The punctuation kinds of the characters of `s` that are not whitespace,
/// in order.
pub open spec fn punctuation_kinds(s: Seq<char>) -> Seq<TokenType> {
    s.filter(|c: char| !is_space(c)).map_values(|c: char| punctuation_kind(c))
}

/// A text of punctuation and whitespace in which no `/` comes right after
/// another (which would open a comment).
pub open spec fn punctuation_text(s: Seq<char>) -> bool {
    &&& forall|i: int| 0 <= i < s.len() ==> is_punctuation(#[trigger] s[i]) || is_space(s[i])
    &&& forall|i: int| 0 <= i < s.len() - 1 ==> !(#[trigger] s[i] == '/' && s[i + 1] == '/')
}

proof fn lemma_punctuation_from(s: Seq<char>, i: int, line: int)
    requires
        punctuation_text(s),
        0 <= i <= s.len(),
    ensures
        scan_from(s, i, line) is Ok,
        scan_from(s, i, line)->Ok_0.len() >= 1,
        kinds(scan_from(s, i, line)->Ok_0.drop_last()) == punctuation_kinds(
            s.subrange(i, s.len() as int),
        ),
    decreases s.len() - i,
{
    let t = s.subrange(i, s.len() as int);
    if i == s.len() {
        assert(t =~= Seq::<char>::empty());
        assert(t.filter(|c: char| !is_space(c)) =~= Seq::<char>::empty()) by {
            reveal(Seq::filter);
        }
        assert(kinds(scan_from(s, i, line)->Ok_0.drop_last()) =~= punctuation_kinds(t));
    } else {
        let c = s[i];
        let u = s.subrange(i + 1, s.len() as int);
        assert(t =~= seq![c] + u);
        u.lemma_filter_prepend(c, |c: char| !is_space(c));
        let next = line + newlines(s, i, i + 1);
        lemma_punctuation_from(s, i + 1, next);
        let rest = scan_from(s, i + 1, next)->Ok_0;
        if is_space(c) {
            assert(seq![c].filter(|c: char| !is_space(c)) =~= Seq::<char>::empty()) by {
                reveal(Seq::filter);
            }
            assert(t.filter(|c: char| !is_space(c)) =~= u.filter(|c: char| !is_space(c)));
        } else {
            let m = Lexeme { kind: punctuation_kind(c), start: i, end: i + 1, line };
            assert(step(s, i) == Step::Emit { kind: punctuation_kind(c), end: i + 1 });
            assert((seq![m] + rest).drop_last() =~= seq![m] + rest.drop_last());
            assert(t.filter(|c: char| !is_space(c)) =~= seq![c] + u.filter(
                |c: char| !is_space(c),
            ));
            assert(kinds(seq![m] + rest.drop_last()) =~= seq![m.kind] + kinds(rest.drop_last()));
            assert(punctuation_kinds(t) =~= seq![punctuation_kind(c)] + punctuation_kinds(u));
        }
    }
}

/// A text of punctuation separated by whitespace scans without error into
/// one token per punctuation character, in the order of the text, followed
/// by the end-of-input token.
pub proof fn lemma_punctuation_tokens(s: Seq<char>)
    requires
        punctuation_text(s),
    ensures
        scan(s) is Ok,
        scan(s)->Ok_0.len() == punctuation_kinds(s).len() + 1,
        kinds(scan(s)->Ok_0.drop_last()) == punctuation_kinds(s),
{
    lemma_punctuation_from(s, 0, 1);
    assert(s.subrange(0, s.len() as int) =~= s);
    let m = scan(s)->Ok_0;
    assert(kinds(m.drop_last()).len() == m.drop_last().len());
}

proof fn lemma_newlines_nonneg(s: Seq<char>, a: int, b: int)
    ensures
        0 <= newlines(s, a, b),
    decreases b - a,
{
    if a < b {
        lemma_newlines_nonneg(s, a, b - 1);
    }
}

/// The lexemes in order of the text, without overlap, on non-decreasing
/// lines, with the end-of-input token last and nowhere else.
pub open spec fn well_ordered(s: Seq<char>, m: Seq<Lexeme>) -> bool {
    &&& m.len() >= 1
    &&& m.last().kind == TokenType::Eof
    &&& m.last().start == s.len()
    &&& forall|k: int| 0 <= k < m.len() - 1 ==> (#[trigger] m[k]).kind != TokenType::Eof
    &&& forall|k: int| 0 <= k < m.len() - 1 ==> (#[trigger] m[k]).start < m[k].end
    &&& forall|j: int, k: int|
        0 <= j < k < m.len() ==> (#[trigger] m[j]).end <= (#[trigger] m[k]).start && m[j].line
            <= m[k].line
}

/// No step yields an end-of-input token.
proof fn lemma_step_not_eof(s: Seq<char>, i: int)
    requires
        0 <= i < s.len(),
    ensures
        step(s, i) is Emit ==> step(s, i)->kind != TokenType::Eof,
{
}

proof fn lemma_ordered_from(s: Seq<char>, i: int, line: int)
    requires
        0 <= i <= s.len(),
    ensures
        scan_from(s, i, line) is Ok ==> {
            let m = scan_from(s, i, line)->Ok_0;
            &&& well_ordered(s, m)
            &&& forall|k: int| 0 <= k < m.len() ==> i <= (#[trigger] m[k]).start && line <= m[k].line
        },
    decreases s.len() - i,
{
    if i < s.len() {
        lemma_step_bounds(s, i);
        lemma_step_not_eof(s, i);
        match step(s, i) {
            Step::Skip { end } => {
                lemma_newlines_nonneg(s, i, end);
                lemma_ordered_from(s, end, line + newlines(s, i, end));
            },
            Step::Emit { kind, end } => {
                lemma_newlines_nonneg(s, i, end);
                let next = line + newlines(s, i, end);
                lemma_ordered_from(s, end, next);
                let r = scan_from(s, end, next);
                if r is Ok {
                    let rest = r->Ok_0;
                    let first = Lexeme { kind, start: i, end, line };
                    let m = seq![first] + rest;
                    assert(scan_from(s, i, line)->Ok_0 == m);
                    assert(m.last() == rest.last());
                    assert forall|k: int| 0 <= k < m.len() - 1 implies (#[trigger] m[k]).kind
                        != TokenType::Eof && m[k].start < m[k].end by {
                        if k > 0 {
                            assert(m[k] == rest[k - 1]);
                        }
                    }
                    assert forall|j: int, k: int| 0 <= j < k < m.len() implies (#[trigger] m[j]).end
                        <= (#[trigger] m[k]).start && m[j].line <= m[k].line by {
                        assert(m[k] == rest[k - 1]);
                        if j > 0 {
                            assert(m[j] == rest[j - 1]);
                        }
                    }
                    assert forall|k: int| 0 <= k < m.len() implies i <= (#[trigger] m[k]).start
                        && line <= m[k].line by {
                        if k > 0 {
                            assert(m[k] == rest[k - 1]);
                        }
                    }
                }
            },
            _ => {},
        }
    }
}

/// A scan yields its tokens in the order of the text, without overlap, on
/// lines that never decrease, and ends with the end-of-input token, which
/// comes nowhere else.
pub proof fn lemma_scan_well_ordered(s: Seq<char>)
    ensures
        scan(s) is Ok ==> well_ordered(s, scan(s)->Ok_0),
{
    lemma_ordered_from(s, 0, 1);
}

/// Whether positions `[a, b)` of `s` are insignificant input: a run of
/// whitespace characters and `//` comments, each comment running up to (not
/// over) the next newline or the end of the text.
pub open spec fn insignificant(s: Seq<char>, a: int, b: int) -> bool
    decreases b - a,
    via insignificant_decreases
{
    if a >= b {
        a == b
    } else if is_space(s[a]) {
        insignificant(s, a + 1, b)
    } else if char_at(s, a, '/') && char_at(s, a + 1, '/') {
        find_from(s, a + 2, '\n') <= b && insignificant(s, find_from(s, a + 2, '\n'), b)
    } else {
        false
    }
}

#[via_fn]
proof fn insignificant_decreases(s: Seq<char>, a: int, b: int) {
    if a < b && !is_space(s[a]) && char_at(s, a, '/') && char_at(s, a + 1, '/') {
        lemma_find_from(s, a + 2, '\n');
    }
}

/// Whether only insignificant input stands between lexemes `k` and `k + 1`.
pub open spec fn gap_insignificant(s: Seq<char>, m: Seq<Lexeme>, k: int) -> bool {
    insignificant(s, m[k].end, m[k + 1].start)
}

proof fn lemma_gaps_from(s: Seq<char>, i: int, line: int)
    requires
        0 <= i <= s.len(),
    ensures
        scan_from(s, i, line) is Ok ==> {
            let m = scan_from(s, i, line)->Ok_0;
            &&& insignificant(s, i, m[0].start)
            &&& forall|k: int| 0 <= k < m.len() - 1 ==> #[trigger] gap_insignificant(s, m, k)
        },
    decreases s.len() - i,
{
    if i < s.len() {
        lemma_step_bounds(s, i);
        match step(s, i) {
            Step::Skip { end } => {
                lemma_gaps_from(s, end, line + newlines(s, i, end));
                if char_at(s, i, '/') && char_at(s, i + 1, '/') {
                    lemma_find_from(s, i + 2, '\n');
                }
            },
            Step::Emit { kind, end } => {
                let next = line + newlines(s, i, end);
                lemma_gaps_from(s, end, next);
                let r = scan_from(s, end, next);
                if r is Ok {
                    let rest = r->Ok_0;
                    let m = seq![Lexeme { kind, start: i, end, line }] + rest;
                    assert(scan_from(s, i, line)->Ok_0 == m);
                    assert forall|k: int| 0 <= k < m.len() - 1 implies #[trigger] gap_insignificant(
                        s,
                        m,
                        k,
                    ) by {
                        if k > 0 {
                            assert(gap_insignificant(s, rest, k - 1));
                        }
                        assert(m[k + 1] == rest[k]);
                        if k > 0 {
                            assert(m[k] == rest[k - 1]);
                        }
                    }
                }
            },
            _ => {},
        }
    }
}

/// Only whitespace and comments stand before the first token and between
/// two tokens of a scan; with the tokens' own text, which is the text of
/// their ranges, they make up the whole source.
pub proof fn lemma_scan_covers_source(s: Seq<char>)
    ensures
        scan(s) is Ok ==> {
            let m = scan(s)->Ok_0;
            &&& insignificant(s, 0, m[0].start)
            &&& forall|k: int| 0 <= k < m.len() - 1 ==> #[trigger] gap_insignificant(s, m, k)
        },
{
    lemma_gaps_from(s, 0, 1);
}

} // verus!
