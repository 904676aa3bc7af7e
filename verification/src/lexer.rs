//! The character-level lexer of the tree-walking front end: it turns a
//! program text into a list of tokens that ends with `EndFile`.
use vstd::prelude::*;
use vstd::slice::slice_subrange;

use crate::parser::{lemma_lexed_tokens_are_parser_input, well_formed_tokens};
use crate::token::{chars_of as chars_of_str, keyword_of_chars, keyword_type, Literal, SpecLiteral, SpecToken, Token, TokenType};

verus! {

/// Name for what `char::is_alphabetic` answers (the Unicode `Alphabetic`
/// property).
pub uninterp spec fn unicode_alphabetic(c: char) -> bool;

/// Name for what `char::is_alphanumeric` answers (`Alphabetic` or
/// `Numeric`).
pub uninterp spec fn unicode_alphanumeric(c: char) -> bool;

/// An ASCII letter.
pub open spec fn is_ascii_letter(c: char) -> bool {
    ('a' <= c && c <= 'z') || ('A' <= c && c <= 'Z')
}

/// Calls `char::is_alphabetic`; its answer is named `unicode_alphabetic`.
/// On ASCII input the Unicode `Alphabetic` property holds of the letters
/// alone.
#[verifier::external_body]
fn char_is_alphabetic(c: char) -> (r: bool)
    ensures
        r == unicode_alphabetic(c),
        c <= '\x7f' ==> (r <==> is_ascii_letter(c)),
{
    c.is_alphabetic()
}

/// Calls `char::is_alphanumeric`; its answer is named `unicode_alphanumeric`.
/// On ASCII input it holds of the letters and the decimal digits alone.
#[verifier::external_body]
fn char_is_alphanumeric(c: char) -> (r: bool)
    ensures
        r == unicode_alphanumeric(c),
        c <= '\x7f' ==> (r <==> (is_ascii_letter(c) || is_digit(c))),
{
    c.is_alphanumeric()
}

/// Collects characters into a `String` (std's `FromIterator<char>`), which
/// keeps them in order.
#[verifier::external_body]
fn string_from_chars(cs: &[char]) -> (s: String)
    ensures
        s@ == cs@,
{
    cs.iter().collect()
}

/// An ASCII decimal digit.
pub open spec fn is_digit(c: char) -> bool {
    '0' <= c && c <= '9'
}

/// What `char::is_alphabetic` answers: on ASCII the letters, above it the
/// Unicode `Alphabetic` property.
pub open spec fn alphabetic(c: char) -> bool {
    if c <= '\x7f' {
        is_ascii_letter(c)
    } else {
        unicode_alphabetic(c)
    }
}

/// What `char::is_alphanumeric` answers: on ASCII the letters and digits,
/// above it the Unicode `Alphabetic` or `Numeric` property.
pub open spec fn alphanumeric(c: char) -> bool {
    if c <= '\x7f' {
        is_ascii_letter(c) || is_digit(c)
    } else {
        unicode_alphanumeric(c)
    }
}

/// The character at a position, or `'\0'` past the end.
pub open spec fn char_at(s: Seq<char>, i: int) -> char {
    if 0 <= i < s.len() {
        s[i]
    } else {
        '\0'
    }
}

/// The first position at or after `i` that holds no digit.
pub open spec fn digits_end(s: Seq<char>, i: int) -> int
    decreases s.len() - i,
{
    if 0 <= i < s.len() && is_digit(s[i]) {
        digits_end(s, i + 1)
    } else {
        i
    }
}

/// The first position at or after `i` that holds no alphanumeric character.
pub open spec fn word_end(s: Seq<char>, i: int) -> int
    decreases s.len() - i,
{
    if 0 <= i < s.len() && alphanumeric(s[i]) {
        word_end(s, i + 1)
    } else {
        i
    }
}

/// The first position at or after `i` that holds a newline, or the end.
pub open spec fn line_end(s: Seq<char>, i: int) -> int
    decreases s.len() - i,
{
    if 0 <= i < s.len() && s[i] != '\n' {
        line_end(s, i + 1)
    } else {
        i
    }
}

/// The body of a string literal that starts at `i` on line `line`: where
/// the closing quote (or the end of input) is found and on which line.
/// Each newline inside the literal counts one line.
pub open spec fn string_body(s: Seq<char>, i: int, line: nat) -> (int, nat)
    decreases s.len() - i,
{
    if i < 0 || i >= s.len() || s[i] == '"' {
        (i, line)
    } else if s[i] == '\n' {
        string_body(s, i + 1, line + 1)
    } else {
        string_body(s, i + 1, line)
    }
}

/// A token of the model, made from the text between two positions.
pub open spec fn mk(ty: TokenType, s: Seq<char>, start: int, end: int, line: nat) -> SpecToken {
    SpecToken { token_type: ty, lexeme: s.subrange(start, end), line, literal: None }
}

/// One step of the lexer at position `pos` (with `pos` inside the input),
/// on line `line`: the position and line after it, and the token it emits,
/// if any.
pub open spec fn scan_one(s: Seq<char>, pos: int, line: nat) -> (int, nat, Option<SpecToken>) {
    let c = s[pos];
    let p = pos + 1;
    let two = p < s.len() && s[p] == '=';
    if c == '(' {
        (p, line, Some(mk(TokenType::LeftParen, s, pos, p, line)))
    } else if c == ')' {
        (p, line, Some(mk(TokenType::RightParen, s, pos, p, line)))
    } else if c == '{' {
        (p, line, Some(mk(TokenType::LeftBrace, s, pos, p, line)))
    } else if c == '}' {
        (p, line, Some(mk(TokenType::RightBrace, s, pos, p, line)))
    } else if c == '+' {
        (p, line, Some(mk(TokenType::Plus, s, pos, p, line)))
    } else if c == '-' {
        (p, line, Some(mk(TokenType::Minus, s, pos, p, line)))
    } else if c == '*' {
        (p, line, Some(mk(TokenType::Star, s, pos, p, line)))
    } else if c == ';' {
        (p, line, Some(mk(TokenType::Semicolon, s, pos, p, line)))
    } else if c == '.' {
        (p, line, Some(mk(TokenType::Dot, s, pos, p, line)))
    } else if c == ',' {
        (p, line, Some(mk(TokenType::Comma, s, pos, p, line)))
    } else if c == '!' {
        if two {
            (p + 1, line, Some(mk(TokenType::BangEqual, s, pos, p + 1, line)))
        } else {
            (p, line, Some(mk(TokenType::Bang, s, pos, p, line)))
        }
    } else if c == '=' {
        if two {
            (p + 1, line, Some(mk(TokenType::EqualEqual, s, pos, p + 1, line)))
        } else {
            (p, line, Some(mk(TokenType::Equal, s, pos, p, line)))
        }
    } else if c == '>' {
        if two {
            (p + 1, line, Some(mk(TokenType::GreaterEqual, s, pos, p + 1, line)))
        } else {
            (p, line, Some(mk(TokenType::Greater, s, pos, p, line)))
        }
    } else if c == '<' {
        if two {
            (p + 1, line, Some(mk(TokenType::LessEqual, s, pos, p + 1, line)))
        } else {
            (p, line, Some(mk(TokenType::Less, s, pos, p, line)))
        }
    } else if c == '/' {
        if p < s.len() && s[p] == '/' {
            (line_end(s, p + 1), line, None)
        } else {
            (p, line, Some(mk(TokenType::Slash, s, pos, p, line)))
        }
    } else if c == ' ' || c == '\r' || c == '\t' {
        (p, line, None)
    } else if c == '\n' {
        (p, line + 1, None)
    } else if c == '"' {
        let (q, l) = string_body(s, p, line);
        if q >= s.len() {
            (q, l, None)
        } else {
            (
                q + 1,
                l,
                Some(
                    SpecToken {
                        token_type: TokenType::Str,
                        lexeme: s.subrange(pos, q + 1),
                        line: l,
                        literal: Some(SpecLiteral::Str(s.subrange(pos + 1, q))),
                    },
                ),
            )
        }
    } else if is_digit(c) {
        let q = digits_end(s, p);
        let e = if char_at(s, q) == '.' && is_digit(char_at(s, q + 1)) {
            digits_end(s, q + 1)
        } else {
            q
        };
        (
            e,
            line,
            Some(
                SpecToken {
                    token_type: TokenType::Num,
                    lexeme: s.subrange(pos, e),
                    line,
                    literal: Some(SpecLiteral::Number(s.subrange(pos, e))),
                },
            ),
        )
    } else if alphabetic(c) {
        let q = word_end(s, p);
        (q, line, Some(mk(keyword_type(s.subrange(pos, q)), s, pos, q, line)))
    } else {
        (p, line, None)
    }
}


proof fn lemma_digits_end(s: Seq<char>, i: int)
    requires
        0 <= i <= s.len(),
    ensures
        i <= digits_end(s, i) <= s.len(),
        forall|k: int| i <= k < digits_end(s, i) ==> is_digit(#[trigger] s[k]),
        digits_end(s, i) < s.len() ==> !is_digit(s[digits_end(s, i)]),
    decreases s.len() - i,
{
    if i < s.len() && is_digit(s[i]) {
        lemma_digits_end(s, i + 1);
    }
}

proof fn lemma_word_end(s: Seq<char>, i: int)
    requires
        0 <= i <= s.len(),
    ensures
        i <= word_end(s, i) <= s.len(),
    decreases s.len() - i,
{
    if i < s.len() && alphanumeric(s[i]) {
        lemma_word_end(s, i + 1);
    }
}

proof fn lemma_line_end(s: Seq<char>, i: int)
    requires
        0 <= i <= s.len(),
    ensures
        i <= line_end(s, i) <= s.len(),
    decreases s.len() - i,
{
    if i < s.len() && s[i] != '\n' {
        lemma_line_end(s, i + 1);
    }
}

proof fn lemma_string_body(s: Seq<char>, i: int, line: nat)
    requires
        0 <= i <= s.len(),
    ensures
        ({
            let (q, l) = string_body(s, i, line);
            i <= q <= s.len() && line <= l && l - line <= q - i
        }),
    decreases s.len() - i,
{
    if i < s.len() && s[i] != '"' {
        if s[i] == '\n' {
            lemma_string_body(s, i + 1, line + 1);
        } else {
            lemma_string_body(s, i + 1, line);
        }
    }
}

/// A step of the lexer moves forward, stays within the input, and counts at
/// most one line per character it passes.
pub proof fn lemma_scan_one(s: Seq<char>, pos: int, line: nat)
    requires
        0 <= pos < s.len(),
    ensures
        ({
            let (np, nl, _) = scan_one(s, pos, line);
            pos < np <= s.len() && line <= nl && nl - line <= np - pos
        }),
{
    lemma_digits_end(s, pos + 1);
    if pos + 1 <= s.len() {
        lemma_word_end(s, pos + 1);
        lemma_string_body(s, pos + 1, line);
    }
    if pos + 2 <= s.len() {
        lemma_line_end(s, pos + 2);
    }
    let q = digits_end(s, pos + 1);
    if char_at(s, q) == '.' && is_digit(char_at(s, q + 1)) {
        lemma_digits_end(s, q + 1);
    }
}

/// Operators and punctuation: `!`, `=`, `<` and `>` followed by `=` make
/// one two-character token (`!=`, `==`, `<=`, `>=`), and alone the
/// one-character operator; each of `( ) { } ; , . - + *` makes its own
/// one-character token; the token's text is the characters it covers, on
/// the current line.
pub proof fn lemma_scan_operators(s: Seq<char>, pos: int, line: nat)
    requires
        0 <= pos < s.len(),
    ensures
        ({
            let (np, nl, t) = scan_one(s, pos, line);
            let c = s[pos];
            &&& nl == line || c == '\n' || c == '"'
            &&& c == '!' && char_at(s, pos + 1) == '=' ==> np == pos + 2 && t == Some(mk(TokenType::BangEqual, s, pos, pos + 2, line)) && t->0.lexeme == seq!['!', '=']
            &&& c == '!' && char_at(s, pos + 1) != '=' ==> np == pos + 1 && t == Some(mk(TokenType::Bang, s, pos, pos + 1, line)) && t->0.lexeme == seq!['!']
            &&& c == '=' && char_at(s, pos + 1) == '=' ==> np == pos + 2 && t == Some(mk(TokenType::EqualEqual, s, pos, pos + 2, line)) && t->0.lexeme == seq!['=', '=']
            &&& c == '=' && char_at(s, pos + 1) != '=' ==> np == pos + 1 && t == Some(mk(TokenType::Equal, s, pos, pos + 1, line)) && t->0.lexeme == seq!['=']
            &&& c == '<' && char_at(s, pos + 1) == '=' ==> np == pos + 2 && t == Some(mk(TokenType::LessEqual, s, pos, pos + 2, line)) && t->0.lexeme == seq!['<', '=']
            &&& c == '<' && char_at(s, pos + 1) != '=' ==> np == pos + 1 && t == Some(mk(TokenType::Less, s, pos, pos + 1, line)) && t->0.lexeme == seq!['<']
            &&& c == '>' && char_at(s, pos + 1) == '=' ==> np == pos + 2 && t == Some(mk(TokenType::GreaterEqual, s, pos, pos + 2, line)) && t->0.lexeme == seq!['>', '=']
            &&& c == '>' && char_at(s, pos + 1) != '=' ==> np == pos + 1 && t == Some(mk(TokenType::Greater, s, pos, pos + 1, line)) && t->0.lexeme == seq!['>']
            &&& c == '(' ==> np == pos + 1 && t == Some(mk(TokenType::LeftParen, s, pos, pos + 1, line)) && t->0.lexeme == seq!['(']
            &&& c == ')' ==> np == pos + 1 && t == Some(mk(TokenType::RightParen, s, pos, pos + 1, line)) && t->0.lexeme == seq![')']
            &&& c == '{' ==> np == pos + 1 && t == Some(mk(TokenType::LeftBrace, s, pos, pos + 1, line)) && t->0.lexeme == seq!['{']
            &&& c == '}' ==> np == pos + 1 && t == Some(mk(TokenType::RightBrace, s, pos, pos + 1, line)) && t->0.lexeme == seq!['}']
            &&& c == ';' ==> np == pos + 1 && t == Some(mk(TokenType::Semicolon, s, pos, pos + 1, line)) && t->0.lexeme == seq![';']
            &&& c == ',' ==> np == pos + 1 && t == Some(mk(TokenType::Comma, s, pos, pos + 1, line)) && t->0.lexeme == seq![',']
            &&& c == '.' ==> np == pos + 1 && t == Some(mk(TokenType::Dot, s, pos, pos + 1, line)) && t->0.lexeme == seq!['.']
            &&& c == '-' ==> np == pos + 1 && t == Some(mk(TokenType::Minus, s, pos, pos + 1, line)) && t->0.lexeme == seq!['-']
            &&& c == '+' ==> np == pos + 1 && t == Some(mk(TokenType::Plus, s, pos, pos + 1, line)) && t->0.lexeme == seq!['+']
            &&& c == '*' ==> np == pos + 1 && t == Some(mk(TokenType::Star, s, pos, pos + 1, line)) && t->0.lexeme == seq!['*']
        }),
{
    assert(s.subrange(pos, pos + 1) =~= seq![s[pos]]);
    if pos + 1 < s.len() {
        assert(s.subrange(pos, pos + 2) =~= seq![s[pos], s[pos + 1]]);
    }
}

/// A word: a step of the lexer at a letter takes the letter and every
/// letter and digit after it, and stops at the first character that is
/// neither (or at the end); the token's text is exactly those characters,
/// its kind the reserved word they spell or `Identifier`, on the same line.
pub proof fn lemma_scan_word(s: Seq<char>, pos: int, line: nat)
    requires
        0 <= pos < s.len(),
        alphabetic(s[pos]),
    ensures
        ({
            let (np, nl, t) = scan_one(s, pos, line);
            &&& pos < np <= s.len()
            &&& forall|k: int| pos < k < np ==> alphanumeric(#[trigger] s[k])
            &&& (np == s.len() || !alphanumeric(s[np]))
            &&& nl == line
            &&& t == Some(SpecToken {
                token_type: keyword_type(s.subrange(pos, np)),
                lexeme: s.subrange(pos, np),
                line,
                literal: None,
            })
        }),
{
    lemma_word_end_run(s, pos + 1);
}

proof fn lemma_word_end_run(s: Seq<char>, i: int)
    requires
        0 <= i <= s.len(),
    ensures
        i <= word_end(s, i) <= s.len(),
        forall|k: int| i <= k < word_end(s, i) ==> alphanumeric(#[trigger] s[k]),
        word_end(s, i) == s.len() || !alphanumeric(s[word_end(s, i)]),
    decreases s.len() - i,
{
    if i < s.len() && alphanumeric(s[i]) {
        lemma_word_end_run(s, i + 1);
    }
}

/// The tokens that the lexer produces from position `pos` on line `line`,
/// ending with `EndFile`.
pub open spec fn lex_from(s: Seq<char>, pos: int, line: nat) -> Seq<SpecToken>
    decreases s.len() - pos,
{
    if pos < 0 || pos >= s.len() {
        seq![SpecToken { token_type: TokenType::EndFile, lexeme: seq![], line, literal: None }]
    } else {
        proof {
            lemma_scan_one(s, pos, line);
        }
        let (np, nl, t) = scan_one(s, pos, line);
        let rest = lex_from(s, np, nl);
        match t {
            Some(tok) => seq![tok] + rest,
            None => rest,
        }
    }
}

/// The tokens of a whole program, counting lines from zero.
pub open spec fn lex(s: Seq<char>) -> Seq<SpecToken> {
    lex_from(s, 0, 0)
}


/// What the lexer reports while scanning a program.
#[derive(Debug, PartialEq, Eq, Clone, Copy, Structural)]
pub enum LexError {
    /// A string literal with no closing quote before the end of input.
    UnterminatedString,
    /// A character that starts no token.
    UnexpectedCharacter(char),
}

/// A character that makes a token (or is skipped) by itself, whatever
/// follows it.
pub open spec fn is_punctuation_or_blank(c: char) -> bool {
    ||| c == '(' || c == ')' || c == '{' || c == '}'
    ||| c == '+' || c == '-' || c == '*' || c == ';' || c == '.' || c == ','
    ||| c == '!' || c == '=' || c == '>' || c == '<' || c == '/'
    ||| c == ' ' || c == '\r' || c == '\t' || c == '\n'
}

/// What the step of the lexer at `pos` (inside the input) reports, if
/// anything.
pub open spec fn lex_error_at(s: Seq<char>, pos: int, line: nat) -> Option<LexError> {
    let c = s[pos];
    if c == '"' {
        if string_body(s, pos + 1, line).0 >= s.len() {
            Some(LexError::UnterminatedString)
        } else {
            None
        }
    } else if is_punctuation_or_blank(c) || is_digit(c) || alphabetic(c) {
        None
    } else {
        Some(LexError::UnexpectedCharacter(c))
    }
}

/// What the lexer reports from position `pos` on line `line` to the end,
/// in order.
pub open spec fn lex_errors_from(s: Seq<char>, pos: int, line: nat) -> Seq<LexError>
    decreases s.len() - pos,
{
    if pos < 0 || pos >= s.len() {
        seq![]
    } else {
        proof {
            lemma_scan_one(s, pos, line);
        }
        let (np, nl, _) = scan_one(s, pos, line);
        let rest = lex_errors_from(s, np, nl);
        match lex_error_at(s, pos, line) {
            Some(e) => seq![e] + rest,
            None => rest,
        }
    }
}

/// What the lexer reports on a whole program, in order.
pub open spec fn lex_errors(s: Seq<char>) -> Seq<LexError> {
    lex_errors_from(s, 0, 0)
}

/// The tokens from `lex_from` are on lines from `line` on, in order.
proof fn lemma_lex_from_lines(s: Seq<char>, pos: int, line: nat)
    ensures
        ({
            let ts = lex_from(s, pos, line);
            forall|i: int, j: int| 0 <= i <= j < ts.len() ==> line <= #[trigger] ts[i].line <= #[trigger] ts[j].line
        }),
    decreases s.len() - pos,
{
    if 0 <= pos < s.len() {
        lemma_scan_one(s, pos, line);
        if pos + 1 <= s.len() {
            lemma_string_body(s, pos + 1, line);
        }
        let (np, nl, t) = scan_one(s, pos, line);
        lemma_lex_from_lines(s, np, nl);
        let rest = lex_from(s, np, nl);
        if let Some(tok) = t {
            assert(line <= tok.line <= nl);
            let all = seq![tok] + rest;
            assert forall|i: int, j: int| 0 <= i <= j < all.len() implies line <= #[trigger] all[i].line
                <= #[trigger] all[j].line by {
                if i > 0 {
                    assert(all[i] == rest[i - 1]);
                }
                if j > 0 {
                    assert(all[j] == rest[j - 1]);
                }
            }
        }
    }
}

/// The lines of the tokens of a program never go down: each token is on the
/// line of the one before it or a later one.
pub proof fn lemma_lex_lines_ordered(s: Seq<char>)
    ensures
        forall|i: int, j: int| 0 <= i <= j < lex(s).len() ==> #[trigger] lex(s)[i].line <= #[trigger] lex(s)[j].line,
{
    lemma_lex_from_lines(s, 0, 0);
}

/// The models of a list of tokens.
pub open spec fn token_views(ts: Seq<Token>) -> Seq<SpecToken> {
    ts.map_values(|t: Token| t@)
}

/// Scans a program text into tokens.
pub struct Lexer {
    input: Vec<char>,
    tokens: Vec<Token>,
    start: usize,
    current: usize,
    line: usize,
}

impl Lexer {
    /// The program text, as characters.
    pub closed spec fn source(&self) -> Seq<char> {
        self.input@
    }

    /// The lexer has not scanned anything yet.
    pub closed spec fn is_fresh(&self) -> bool {
        &&& self.tokens@.len() == 0
        &&& self.start == 0
        &&& self.current == 0
        &&& self.line == 0
    }

    pub closed spec fn wf(&self) -> bool {
        &&& self.start <= self.current <= self.input@.len()
        &&& self.line <= self.current
        &&& self.input@.len() <= usize::MAX
    }

    pub fn new(input: &str) -> (l: Self)
        ensures
            l.source() == input@,
            l.is_fresh(),
            l.wf(),
    {
        let input = chars_of_str(input);
        let _n = input.len();
        Lexer { input, tokens: Vec::new(), start: 0, current: 0, line: 0 }
    }

    fn is_at_end(&self) -> (r: bool)
        ensures
            r == (self.current >= self.input@.len()),
    {
        self.current >= self.input.len()
    }

    fn advance(&mut self) -> (c: char)
        requires
            old(self).current < old(self).input@.len(),
        ensures
            final(self).current == old(self).current + 1,
            c == old(self).input@[old(self).current as int],
            final(self).input == old(self).input,
            final(self).tokens == old(self).tokens,
            final(self).start == old(self).start,
            final(self).line == old(self).line,
    {
        let _n = self.input.len();
        self.current = self.current + 1;
        self.input[self.current - 1]
    }

    fn match_advance(&mut self, expected: char) -> (r: bool)
        requires
            old(self).current <= old(self).input@.len(),
        ensures
            r == (old(self).current < old(self).input@.len() && old(self).input@[old(self).current as int] == expected),
            final(self).current == if r { old(self).current + 1 } else { old(self).current as int },
            final(self).input == old(self).input,
            final(self).tokens == old(self).tokens,
            final(self).start == old(self).start,
            final(self).line == old(self).line,
    {
        if self.is_at_end() {
            return false;
        }
        if self.input[self.current] != expected {
            return false;
        }
        let _n = self.input.len();
        self.current = self.current + 1;
        true
    }

    fn peek(&self) -> (c: char)
        ensures
            c == char_at(self.input@, self.current as int),
    {
        if self.is_at_end() {
            return '\0';
        }
        self.input[self.current]
    }

    fn peek_next(&self) -> (c: char)
        requires
            self.current <= self.input@.len(),
        ensures
            c == char_at(self.input@, self.current + 1),
    {
        if self.input.len() - self.current <= 1 {
            return '\0';
        }
        self.input[self.current + 1]
    }

    fn text(&self) -> (s: String)
        requires
            self.start <= self.current <= self.input@.len(),
        ensures
            s@ == self.input@.subrange(self.start as int, self.current as int),
    {
        string_from_chars(slice_subrange(self.input.as_slice(), self.start, self.current))
    }

    fn add_token(&mut self, token_type: TokenType)
        requires
            old(self).start <= old(self).current <= old(self).input@.len(),
        ensures
            token_views(final(self).tokens@) == token_views(old(self).tokens@).push(
                mk(token_type, old(self).input@, old(self).start as int, old(self).current as int, old(self).line as nat),
            ),
            final(self).input == old(self).input,
            final(self).start == old(self).start,
            final(self).current == old(self).current,
            final(self).line == old(self).line,
    {
        let lexeme = self.text();
        let t = Token::new(token_type, lexeme, self.line, None);
        self.tokens.push(t);
        assert(token_views(self.tokens@) =~= token_views(old(self).tokens@).push(
            mk(token_type, old(self).input@, old(self).start as int, old(self).current as int, old(self).line as nat)));
    }

    fn add_token_literal(&mut self, token_type: TokenType, lit: Literal)
        requires
            old(self).start <= old(self).current <= old(self).input@.len(),
        ensures
            token_views(final(self).tokens@) == token_views(old(self).tokens@).push(
                SpecToken {
                    token_type,
                    lexeme: old(self).input@.subrange(old(self).start as int, old(self).current as int),
                    line: old(self).line as nat,
                    literal: Some(lit@),
                },
            ),
            final(self).input == old(self).input,
            final(self).start == old(self).start,
            final(self).current == old(self).current,
            final(self).line == old(self).line,
    {
        let lexeme = self.text();
        let t = Token::new(token_type, lexeme, self.line, Some(lit));
        self.tokens.push(t);
        assert(token_views(self.tokens@) =~= token_views(old(self).tokens@).push(
            SpecToken {
                token_type,
                lexeme: old(self).input@.subrange(old(self).start as int, old(self).current as int),
                line: old(self).line as nat,
                literal: Some(lit@),
            }));
    }
}


/// An ASCII decimal digit (what `char::is_ascii_digit` answers).
pub fn is_ascii_digit(c: char) -> (r: bool)
    ensures
        r == is_digit(c),
{
    '0' <= c && c <= '9'
}

/// What one step does to the list of tokens.
pub open spec fn emitted(before: Seq<SpecToken>, t: Option<SpecToken>) -> Seq<SpecToken> {
    match t {
        Some(tok) => before.push(tok),
        None => before,
    }
}

impl Lexer {
    fn string(&mut self) -> (closed: bool)
        requires
            old(self).wf(),
            old(self).start + 1 == old(self).current,
            old(self).current <= old(self).input@.len(),
            old(self).input@[old(self).start as int] == '"',
        ensures
            final(self).wf(),
            final(self).input == old(self).input,
            final(self).start == old(self).start,
            closed == (string_body(old(self).input@, old(self).current as int, old(self).line as nat).0 < old(self).input@.len()),
            ({
                let (q, l) = string_body(old(self).input@, old(self).current as int, old(self).line as nat);
                let s = old(self).input@;
                &&& final(self).line == l
                &&& q >= s.len() ==> final(self).current == q && token_views(final(self).tokens@) == token_views(old(self).tokens@)
                &&& q < s.len() ==> final(self).current == q + 1 && token_views(final(self).tokens@) == token_views(old(self).tokens@).push(
                    SpecToken {
                        token_type: TokenType::Str,
                        lexeme: s.subrange(old(self).start as int, q + 1),
                        line: l,
                        literal: Some(SpecLiteral::Str(s.subrange(old(self).start + 1, q))),
                    })
            }),
    {
        let ghost s = self.input@;
        let ghost res = string_body(s, self.current as int, self.line as nat);
        proof {
            lemma_string_body(s, self.current as int, self.line as nat);
        }
        while self.peek() != '"' && !self.is_at_end()
            invariant
                self.wf(),
                self.input == old(self).input,
                self.input@ == s,
                self.start == old(self).start,
                self.tokens == old(self).tokens,
                string_body(s, self.current as int, self.line as nat) == res,
                res == string_body(s, old(self).current as int, old(self).line as nat),
                s == old(self).input@,
            decreases s.len() - self.current,
        {
            proof {
                lemma_string_body(s, self.current as int, self.line as nat);
            }
            if self.peek() == '\n' {
                self.line = self.line + 1;
            }
            self.advance();
        }
        proof {
            lemma_string_body(s, self.current as int, self.line as nat);
        }
        if self.is_at_end() {
            return false;
        }
        self.advance();
        let body = string_from_chars(slice_subrange(self.input.as_slice(), self.start + 1, self.current - 1));
        self.add_token_literal(TokenType::Str, Literal::String(body));
        true
    }

    fn number(&mut self)
        requires
            old(self).wf(),
            old(self).start + 1 == old(self).current,
            is_digit(old(self).input@[old(self).start as int]),
        ensures
            final(self).wf(),
            final(self).input == old(self).input,
            final(self).start == old(self).start,
            final(self).line == old(self).line,
            ({
                let (np, nl, t) = scan_one(old(self).input@, old(self).start as int, old(self).line as nat);
                final(self).current == np && token_views(final(self).tokens@) == emitted(token_views(old(self).tokens@), t)
            }),
    {
        let ghost s = self.input@;
        proof {
            lemma_digits_end(s, self.current as int);
        }
        while is_ascii_digit(self.peek())
            invariant
                self.wf(),
                self.input == old(self).input,
                self.input@ == s,
                self.start == old(self).start,
                self.line == old(self).line,
                self.tokens == old(self).tokens,
                old(self).current <= self.current <= digits_end(s, old(self).current as int),
                digits_end(s, self.current as int) == digits_end(s, old(self).current as int),
            decreases s.len() - self.current,
        {
            self.advance();
            proof {
                lemma_digits_end(s, self.current as int);
            }
        }
        let ghost q = self.current as int;
        if self.peek() == '.' && is_ascii_digit(self.peek_next()) {
            self.advance();
            proof {
                lemma_digits_end(s, self.current as int);
            }
            while is_ascii_digit(self.peek())
                invariant
                    self.wf(),
                    self.input == old(self).input,
                self.input@ == s,
                    self.start == old(self).start,
                    self.line == old(self).line,
                    self.tokens == old(self).tokens,
                    q + 1 <= self.current <= digits_end(s, q + 1),
                    digits_end(s, self.current as int) == digits_end(s, q + 1),
                decreases s.len() - self.current,
            {
                self.advance();
                proof {
                    lemma_digits_end(s, self.current as int);
                }
            }
        }
        let digits = self.text();
        self.add_token_literal(TokenType::Num, Literal::Number(digits));
    }

    fn identifier(&mut self)
        requires
            old(self).wf(),
            old(self).start + 1 == old(self).current,
        ensures
            final(self).wf(),
            final(self).input == old(self).input,
            final(self).start == old(self).start,
            final(self).line == old(self).line,
            final(self).current == word_end(old(self).input@, old(self).current as int),
            token_views(final(self).tokens@) == token_views(old(self).tokens@).push(
                mk(keyword_type(old(self).input@.subrange(old(self).start as int, final(self).current as int)),
                    old(self).input@, old(self).start as int, final(self).current as int, old(self).line as nat)),
    {
        let ghost s = self.input@;
        proof {
            lemma_word_end(s, self.current as int);
        }
        while !self.is_at_end() && char_is_alphanumeric(self.peek())
            invariant
                self.wf(),
                self.input == old(self).input,
                self.input@ == s,
                self.start == old(self).start,
                self.line == old(self).line,
                self.tokens == old(self).tokens,
                old(self).current <= self.current <= word_end(s, old(self).current as int),
                word_end(s, self.current as int) == word_end(s, old(self).current as int),
            decreases s.len() - self.current,
        {
            self.advance();
            proof {
                lemma_word_end(s, self.current as int);
            }
        }
        let ty = keyword_of_chars(slice_subrange(self.input.as_slice(), self.start, self.current));
        self.add_token(ty);
    }
}


impl Lexer {
    fn add_simple(&mut self, token_type: TokenType)
        requires
            old(self).wf(),
        ensures
            final(self).wf(),
            final(self).input == old(self).input,
            final(self).start == old(self).start,
            final(self).current == old(self).current,
            final(self).line == old(self).line,
            token_views(final(self).tokens@) == token_views(old(self).tokens@).push(
                mk(token_type, old(self).input@, old(self).start as int, old(self).current as int, old(self).line as nat),
            ),
    {
        self.add_token(token_type);
    }

    fn scan_token(&mut self) -> (err: Option<LexError>)
        requires
            old(self).wf(),
            old(self).start == old(self).current,
            old(self).current < old(self).input@.len(),
        ensures
            final(self).wf(),
            final(self).input == old(self).input,
            err == lex_error_at(old(self).input@, old(self).current as int, old(self).line as nat),
            ({
                let (np, nl, t) = scan_one(old(self).input@, old(self).current as int, old(self).line as nat);
                final(self).current == np && final(self).line == nl
                    && token_views(final(self).tokens@) == emitted(token_views(old(self).tokens@), t)
            }),
    {
        let ghost s = self.input@;
        proof {
            lemma_scan_one(s, self.current as int, self.line as nat);
        }
        let c: char = self.advance();
        if c == '(' {
            self.add_simple(TokenType::LeftParen);
        } else if c == ')' {
            self.add_simple(TokenType::RightParen);
        } else if c == '{' {
            self.add_simple(TokenType::LeftBrace);
        } else if c == '}' {
            self.add_simple(TokenType::RightBrace);
        } else if c == '+' {
            self.add_simple(TokenType::Plus);
        } else if c == '-' {
            self.add_simple(TokenType::Minus);
        } else if c == '*' {
            self.add_simple(TokenType::Star);
        } else if c == ';' {
            self.add_simple(TokenType::Semicolon);
        } else if c == '.' {
            self.add_simple(TokenType::Dot);
        } else if c == ',' {
            self.add_simple(TokenType::Comma);
        } else if c == '!' {
            if self.match_advance('=') {
                self.add_simple(TokenType::BangEqual);
            } else {
                self.add_simple(TokenType::Bang);
            }
        } else if c == '=' {
            if self.match_advance('=') {
                self.add_simple(TokenType::EqualEqual);
            } else {
                self.add_simple(TokenType::Equal);
            }
        } else if c == '>' {
            if self.match_advance('=') {
                self.add_simple(TokenType::GreaterEqual);
            } else {
                self.add_simple(TokenType::Greater);
            }
        } else if c == '<' {
            if self.match_advance('=') {
                self.add_simple(TokenType::LessEqual);
            } else {
                self.add_simple(TokenType::Less);
            }
        } else if c == '/' {
            if self.match_advance('/') {
                proof {
                    lemma_line_end(s, self.current as int);
                }
                while self.peek() != '\n' && !self.is_at_end()
                    invariant
                        self.wf(),
                        self.input == old(self).input,
                        self.input@ == s,
                        self.tokens == old(self).tokens,
                        self.line == old(self).line,
                        old(self).current + 2 <= self.current <= line_end(s, old(self).current + 2),
                        line_end(s, self.current as int) == line_end(s, old(self).current + 2),
                    decreases s.len() - self.current,
                {
                    self.advance();
                    proof {
                        lemma_line_end(s, self.current as int);
                    }
                }
            } else {
                self.add_simple(TokenType::Slash);
            }
        } else if c == ' ' || c == '\r' || c == '\t' {
        } else if c == '\n' {
            self.line = self.line + 1;
        } else if c == '"' {
            if !self.string() {
                return Some(LexError::UnterminatedString);
            }
        } else if is_ascii_digit(c) {
            self.number();
        } else if char_is_alphabetic(c) {
            self.identifier();
        } else {
            return Some(LexError::UnexpectedCharacter(c));
        }
        None
    }

    /// Scans the whole program and returns its tokens, the last of which is
    /// `EndFile`.
    pub fn scan_tokens(self) -> (tokens: Vec<Token>)
        requires
            self.is_fresh(),
            self.wf(),
        ensures
            token_views(tokens@) == lex(self.source()),
            well_formed_tokens(tokens@),
    {
        let (tokens, _errors) = self.scan_tokens_with_errors();
        tokens
    }

    /// Scans the whole program: its tokens, the last of which is `EndFile`,
    /// and what was reported on the way (an unterminated string, a character
    /// that starts no token), in order.
    pub fn scan_tokens_with_errors(self) -> (r: (Vec<Token>, Vec<LexError>))
        requires
            self.is_fresh(),
            self.wf(),
        ensures
            token_views(r.0@) == lex(self.source()),
            well_formed_tokens(r.0@),
            r.1@ == lex_errors(self.source()),
    {
        let mut lx = self;
        let r = lx.scan_all();
        proof {
            lemma_lexed_tokens_are_parser_input(lx.input@, r.0@);
        }
        r
    }

    fn scan_all(&mut self) -> (r: (Vec<Token>, Vec<LexError>))
        requires
            old(self).is_fresh(),
            old(self).wf(),
        ensures
            final(self).input == old(self).input,
            token_views(r.0@) == lex(old(self).source()),
            r.1@ == lex_errors(old(self).source()),
    {
        let ghost s = self.input@;
        let ghost all = lex(s);
        let ghost all_errors = lex_errors(s);
        let mut errors: Vec<LexError> = Vec::new();
        while !self.is_at_end()
            invariant
                self.wf(),
                self.input@ == s,
                self.input == old(self).input,
                all == lex(old(self).source()),
                all_errors == lex_errors(old(self).source()),
                s == old(self).source(),
                all == token_views(self.tokens@) + lex_from(s, self.current as int, self.line as nat),
                all_errors == errors@ + lex_errors_from(s, self.current as int, self.line as nat),
            decreases s.len() - self.current,
        {
            self.start = self.current;
            proof {
                lemma_scan_one(s, self.current as int, self.line as nat);
            }
            let ghost before = token_views(self.tokens@);
            let ghost errs_before = errors@;
            let ghost cur = self.current as int;
            let ghost ln = self.line as nat;
            let err = self.scan_token();
            match err {
                Some(e) => {
                    errors.push(e);
                },
                None => {},
            }
            proof {
                let (np, nl, t) = scan_one(s, cur, ln);
                let rest = lex_from(s, np, nl);
                match t {
                    Some(tok) => {
                        assert(before.push(tok) + rest =~= before + (seq![tok] + rest));
                    },
                    None => {},
                }
                let erest = lex_errors_from(s, np, nl);
                match err {
                    Some(e) => {
                        assert(errs_before.push(e) + erest =~= errs_before + (seq![e] + erest));
                    },
                    None => {},
                }
            }
        }
        let eof = Token { token_type: TokenType::EndFile, lexeme: String::new(), line: self.line, literal: None };
        let ghost before = token_views(self.tokens@);
        self.tokens.push(eof);
        proof {
            assert(token_views(self.tokens@) =~= before.push(eof@));
            assert(eof@.lexeme =~= Seq::<char>::empty());
            assert(before.push(eof@) =~= before + lex_from(s, self.current as int, self.line as nat));
            assert(errors@ =~= errors@ + lex_errors_from(s, self.current as int, self.line as nat));
        }
        let mut out: Vec<Token> = Vec::new();
        std::mem::swap(&mut out, &mut self.tokens);
        (out, errors)
    }
}

} // verus!
