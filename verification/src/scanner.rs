//! The byte-level scanner of the bytecode front end: it hands out one token
//! at a time, each a slice of the source (or an error message).
use vstd::prelude::*;
use vstd::slice::slice_subrange;

use crate::token::keyword_type;
use vstd::utf8::is_ascii_chars;
use vstd::string::StringSliceAdditionalSpecFns;

verus! {

/// The kinds of token of the bytecode front end.
#[derive(Debug, PartialEq, Eq, Clone, Copy, Structural)]
pub enum TokenType {
    LeftParen,
    RightParen,
    LeftBrace,
    RightBrace,
    Plus,
    Minus,
    Star,
    Slash,
    Comma,
    Dot,
    Semicolon,
    Bang,
    BangEqual,
    Equal,
    EqualEqual,
    Greater,
    GreaterEqual,
    Less,
    LessEqual,
    Identifier,
    Str,
    Num,
    And,
    Class,
    Else,
    False,
    True,
    Fun,
    For,
    If,
    Nil,
    Print,
    Or,
    Return,
    Super,
    This,
    Var,
    While,
    EndFile,
    Error,
}

/// The scanner's kind for a kind of the tree-walking front end (they name
/// the same reserved words).
pub open spec fn from_word_kind(t: crate::token::TokenType) -> TokenType {
    match t {
        crate::token::TokenType::And => TokenType::And,
        crate::token::TokenType::Class => TokenType::Class,
        crate::token::TokenType::Else => TokenType::Else,
        crate::token::TokenType::False => TokenType::False,
        crate::token::TokenType::Fun => TokenType::Fun,
        crate::token::TokenType::For => TokenType::For,
        crate::token::TokenType::If => TokenType::If,
        crate::token::TokenType::Nil => TokenType::Nil,
        crate::token::TokenType::Or => TokenType::Or,
        crate::token::TokenType::Print => TokenType::Print,
        crate::token::TokenType::Return => TokenType::Return,
        crate::token::TokenType::Super => TokenType::Super,
        crate::token::TokenType::This => TokenType::This,
        crate::token::TokenType::True => TokenType::True,
        crate::token::TokenType::Var => TokenType::Var,
        crate::token::TokenType::While => TokenType::While,
        _ => TokenType::Identifier,
    }
}

/// Bytes read as characters (the scanner only reads ASCII words).
pub open spec fn ascii_chars(b: Seq<u8>) -> Seq<char> {
    b.map_values(|x: u8| x as char)
}

/// The reserved word (or `Identifier`) that a scanned word spells.
pub open spec fn word_kind(word: Seq<u8>) -> TokenType {
    from_word_kind(keyword_type(ascii_chars(word)))
}

/// The byte at a position, or 0 past the end.
pub open spec fn byte_at(s: Seq<u8>, i: int) -> u8 {
    if 0 <= i < s.len() {
        s[i]
    } else {
        0
    }
}

pub open spec fn is_digit_byte(b: u8) -> bool {
    48 <= b <= 57
}

/// An ASCII letter or an underscore.
pub open spec fn is_alpha_byte(b: u8) -> bool {
    (65 <= b <= 90) || (97 <= b <= 122) || b == 95
}

/// A token of the model: the bytes it shows, its kind and its line.
pub struct SpecScanToken {
    pub text: Seq<u8>,
    pub ty: TokenType,
    pub line: nat,
}

/// The text of the error token for a string literal with no closing quote.
pub open spec fn unterminated_message() -> Seq<u8> {
    seq![85u8, 110, 116, 101, 114, 109, 105, 110, 97, 116, 101, 100, 32, 115, 116, 114, 105, 110, 103, 46]
}

/// The text of the error token for a byte that starts no token.
pub open spec fn unexpected_message() -> Seq<u8> {
    seq![85u8, 110, 101, 120, 112, 101, 99, 116, 101, 100, 32, 99, 104, 97, 114, 97, 99, 116, 101, 114, 46]
}

/// The first position at or after `i` that holds a newline, or the end.
pub open spec fn newline_at_or_after(s: Seq<u8>, i: int) -> int
    decreases s.len() - i,
{
    if 0 <= i < s.len() && s[i] != 10 {
        newline_at_or_after(s, i + 1)
    } else {
        i
    }
}

/// Where whitespace and comments that start at `i` end, and the line reached.
pub open spec fn skip_ws(s: Seq<u8>, i: int, line: nat) -> (int, nat)
    decreases s.len() - i,
{
    if i < 0 || i >= s.len() {
        (i, line)
    } else if s[i] == 32 || s[i] == 13 || s[i] == 9 {
        skip_ws(s, i + 1, line)
    } else if s[i] == 10 {
        skip_ws(s, i + 1, line + 1)
    } else if s[i] == 47 && byte_at(s, i + 1) == 47 {
        proof {
            lemma_newline_after(s, i);
        }
        skip_ws(s, newline_at_or_after(s, i), line)
    } else {
        (i, line)
    }
}

/// The first position at or after `i` that holds no digit.
pub open spec fn digit_run_end(s: Seq<u8>, i: int) -> int
    decreases s.len() - i,
{
    if 0 <= i < s.len() && is_digit_byte(s[i]) {
        digit_run_end(s, i + 1)
    } else {
        i
    }
}

/// The first position at or after `i` that holds neither a letter, an
/// underscore nor a digit.
pub open spec fn ident_run_end(s: Seq<u8>, i: int) -> int
    decreases s.len() - i,
{
    if 0 <= i < s.len() && (is_alpha_byte(s[i]) || is_digit_byte(s[i])) {
        ident_run_end(s, i + 1)
    } else {
        i
    }
}

/// Where the body of a string literal that starts at `i` ends (the closing
/// quote, or the end of input), and the line reached.
pub open spec fn string_run(s: Seq<u8>, i: int, line: nat) -> (int, nat)
    decreases s.len() - i,
{
    if i < 0 || i >= s.len() || s[i] == 34 {
        (i, line)
    } else if s[i] == 10 {
        string_run(s, i + 1, line + 1)
    } else {
        string_run(s, i + 1, line)
    }
}

/// The token kind of a byte that stands alone, if it does.
pub open spec fn single_kind(c: u8) -> Option<TokenType> {
    if c == 40 {
        Some(TokenType::LeftParen)
    } else if c == 41 {
        Some(TokenType::RightParen)
    } else if c == 123 {
        Some(TokenType::LeftBrace)
    } else if c == 125 {
        Some(TokenType::RightBrace)
    } else if c == 59 {
        Some(TokenType::Semicolon)
    } else if c == 44 {
        Some(TokenType::Comma)
    } else if c == 46 {
        Some(TokenType::Dot)
    } else if c == 45 {
        Some(TokenType::Minus)
    } else if c == 43 {
        Some(TokenType::Plus)
    } else if c == 47 {
        Some(TokenType::Slash)
    } else if c == 42 {
        Some(TokenType::Star)
    } else {
        None
    }
}

/// The kinds of the operators that may be followed by `=`: without and
/// with it.
pub open spec fn pair_kind(c: u8) -> Option<(TokenType, TokenType)> {
    if c == 33 {
        Some((TokenType::Bang, TokenType::BangEqual))
    } else if c == 61 {
        Some((TokenType::Equal, TokenType::EqualEqual))
    } else if c == 62 {
        Some((TokenType::Greater, TokenType::GreaterEqual))
    } else if c == 60 {
        Some((TokenType::Less, TokenType::LessEqual))
    } else {
        None
    }
}

/// One call of `scan_token` from position `cur` on line `line`: the position
/// and line after it, and the token it returns.
pub open spec fn scan(s: Seq<u8>, cur: int, line: nat) -> (int, nat, SpecScanToken) {
    let (st, l) = skip_ws(s, cur, line);
    if st < 0 || st >= s.len() {
        (st, l, SpecScanToken { text: s.subrange(st, st), ty: TokenType::EndFile, line: l })
    } else {
        let c = s[st];
        let p = st + 1;
        if is_alpha_byte(c) {
            let q = ident_run_end(s, p);
            (q, l, SpecScanToken { text: s.subrange(st, q), ty: word_kind(s.subrange(st, q)), line: l })
        } else if is_digit_byte(c) {
            let q = digit_run_end(s, p);
            let e = if byte_at(s, q) == 46 && is_digit_byte(byte_at(s, q + 1)) {
                digit_run_end(s, q + 1)
            } else {
                q
            };
            (e, l, SpecScanToken { text: s.subrange(st, e), ty: TokenType::Num, line: l })
        } else if single_kind(c) is Some {
            (p, l, SpecScanToken { text: s.subrange(st, p), ty: single_kind(c)->0, line: l })
        } else if pair_kind(c) is Some {
            if byte_at(s, p) == 61 {
                (p + 1, l, SpecScanToken { text: s.subrange(st, p + 1), ty: (pair_kind(c)->0).1, line: l })
            } else {
                (p, l, SpecScanToken { text: s.subrange(st, p), ty: (pair_kind(c)->0).0, line: l })
            }
        } else if c == 34 {
            let (q, l2) = string_run(s, p, l);
            if q >= s.len() {
                (q, l2, SpecScanToken { text: unterminated_message(), ty: TokenType::Error, line: l2 })
            } else {
                (q + 1, l2, SpecScanToken { text: s.subrange(st, q + 1), ty: TokenType::Str, line: l2 })
            }
        } else {
            (p, l, SpecScanToken { text: unexpected_message(), ty: TokenType::Error, line: l })
        }
    }
}

/// Skipping to the end of a line moves forward unless it starts on a newline.
pub proof fn lemma_newline_after(s: Seq<u8>, i: int)
    requires
        0 <= i <= s.len(),
    ensures
        i <= newline_at_or_after(s, i) <= s.len(),
        i < s.len() && s[i] != 10 ==> i < newline_at_or_after(s, i),
    decreases s.len() - i,
{
    if 0 <= i < s.len() && s[i] != 10 {
        lemma_newline_after(s, i + 1);
    }
}


/// A token handed out by the scanner: a slice of the source (or, for an
/// error token, the message), its kind and its line.
pub struct Token<'src> {
    slice: &'src [u8],
    ty: TokenType,
    line: usize,
}

impl<'src> View for Token<'src> {
    type V = SpecScanToken;

    closed spec fn view(&self) -> SpecScanToken {
        SpecScanToken { text: self.slice@, ty: self.ty, line: self.line as nat }
    }
}

impl<'src> Token<'src> {
    /// An error token whose text is the message.
    pub fn error(str: &'src str, line: usize) -> (t: Token<'src>)
        ensures
            t@ == (SpecScanToken { text: str.spec_bytes(), ty: TokenType::Error, line: line as nat }),
    {
        Token { slice: str.as_bytes(), ty: TokenType::Error, line }
    }

    /// The bytes the token shows.
    pub fn text(&self) -> (t: &'src [u8])
        ensures
            t@ == self@.text,
    {
        self.slice
    }

    pub fn ty(&self) -> (t: TokenType)
        ensures
            t == self@.ty,
    {
        self.ty
    }

    pub fn line(&self) -> (l: usize)
        ensures
            l == self@.line,
    {
        self.line
    }
}

fn unterminated_error<'src>(line: usize) -> (t: Token<'src>)
    ensures
        t@ == (SpecScanToken { text: unterminated_message(), ty: TokenType::Error, line: line as nat }),
{
    proof {
        reveal_strlit("Unterminated string.");
    }
    let msg: &'static str = "Unterminated string.";
    proof {
        broadcast use vstd::string::group_string_axioms;
        assert(is_ascii_chars(msg@));
        vstd::utf8::is_ascii_chars_encode_utf8(msg@);
        assert(msg.spec_bytes() =~= unterminated_message());
    }
    Token::error(msg, line)
}

fn unexpected_error<'src>(line: usize) -> (t: Token<'src>)
    ensures
        t@ == (SpecScanToken { text: unexpected_message(), ty: TokenType::Error, line: line as nat }),
{
    proof {
        reveal_strlit("Unexpected character.");
    }
    let msg: &'static str = "Unexpected character.";
    proof {
        broadcast use vstd::string::group_string_axioms;
        assert(is_ascii_chars(msg@));
        vstd::utf8::is_ascii_chars_encode_utf8(msg@);
        assert(msg.spec_bytes() =~= unexpected_message());
    }
    Token::error(msg, line)
}


/// Hands out the tokens of a source text one at a time.
pub struct Scanner<'src> {
    src: &'src [u8],
    line: usize,
    start: usize,
    current: usize,
}

impl<'src> Scanner<'src> {
    /// The source, as bytes.
    pub closed spec fn source(&self) -> Seq<u8> {
        self.src@
    }

    /// The position of the next byte to read.
    pub closed spec fn pos(&self) -> int {
        self.current as int
    }

    /// Where the token being scanned starts.
    pub closed spec fn token_start(&self) -> int {
        self.start as int
    }

    /// The current line, counted from one.
    pub closed spec fn line_no(&self) -> nat {
        self.line as nat
    }

    pub closed spec fn wf(&self) -> bool {
        &&& self.start <= self.current <= self.src@.len()
        &&& 1 <= self.line <= self.current + 1
        &&& self.src@.len() < usize::MAX
    }

    /// A scanner in a state its operations keep is within its source, and
    /// counts lines from one.
    pub proof fn lemma_wf_bounds(&self)
        requires
            self.wf(),
        ensures
            0 <= self.pos() <= self.source().len(),
            self.line_no() >= 1,
    {
    }

    pub fn new(src: &'src str) -> (s: Self)
        requires
            src.spec_bytes().len() < usize::MAX,
        ensures
            s.source() == src.spec_bytes(),
            s.pos() == 0,
            s.line_no() == 1,
            s.wf(),
    {
        Self { src: src.as_bytes(), line: 1, start: 0, current: 0 }
    }

    fn peek(&self) -> (b: u8)
        ensures
            b == byte_at(self.src@, self.current as int),
    {
        if self.is_at_end() {
            return 0;
        }
        self.src[self.current]
    }

    fn is_at_end(&self) -> (r: bool)
        ensures
            r == (self.current >= self.src@.len()),
    {
        self.current >= self.src.len()
    }

    fn make_token(&self, ty: TokenType) -> (t: Token<'src>)
        requires
            self.wf(),
        ensures
            t@ == (SpecScanToken {
                text: self.src@.subrange(self.start as int, self.current as int),
                ty,
                line: self.line as nat,
            }),
    {
        Token { slice: slice_subrange(self.src, self.start, self.current), ty: ty, line: self.line }
    }

    fn advance(&mut self) -> (b: u8)
        requires
            old(self).wf(),
            old(self).current < old(self).src@.len(),
        ensures
            final(self).wf(),
            b == old(self).src@[old(self).current as int],
            final(self).current == old(self).current + 1,
            final(self).src == old(self).src,
            final(self).start == old(self).start,
            final(self).line == old(self).line,
    {
        let r = self.peek();
        self.current = self.current + 1;
        r
    }

    fn match_byte(&mut self, expected: u8) -> (r: bool)
        requires
            old(self).wf(),
        ensures
            final(self).wf(),
            r == (byte_at(old(self).src@, old(self).current as int) == expected && old(self).current < old(self).src@.len()),
            final(self).current == (if r { old(self).current + 1 } else { old(self).current as int }),
            final(self).src == old(self).src,
            final(self).start == old(self).start,
            final(self).line == old(self).line,
    {
        if self.is_at_end() {
            return false;
        }
        if self.peek() != expected {
            return false;
        }
        self.current = self.current + 1;
        true
    }

    fn peek_next(&self) -> (b: u8)
        requires
            self.wf(),
        ensures
            b == byte_at(self.src@, self.current + 1),
    {
        if self.src.len() - self.current <= 1 {
            return 0;
        }
        self.src[self.current + 1]
    }

    fn skip_whitespace(&mut self)
        requires
            old(self).wf(),
        ensures
            final(self).wf(),
            final(self).src == old(self).src,
            final(self).start == old(self).start,
            (final(self).current as int, final(self).line as nat) == skip_ws(old(self).src@, old(self).current as int, old(self).line as nat),
    {
        let ghost s = self.src@;
        loop
            invariant
                self.wf(),
                self.src == old(self).src,
                s == self.src@,
                self.start == old(self).start,
                skip_ws(s, self.current as int, self.line as nat) == skip_ws(s, old(self).current as int, old(self).line as nat),
            decreases s.len() - self.current,
        {
            let c = self.peek();
            if c == 32 || c == 13 || c == 9 {
                self.advance();
            } else if c == 10 {
                self.advance();
                self.line = self.line + 1;
            } else if c == 47 {
                if self.peek_next() == 47 {
                    let ghost here = self.current as int;
                    proof {
                        lemma_newline_after(s, here);
                    }
                    while self.peek() != 10 && !self.is_at_end()
                        invariant
                            self.wf(),
                            self.src == old(self).src,
                            s == self.src@,
                            self.start == old(self).start,
                            here <= self.current <= newline_at_or_after(s, here),
                            newline_at_or_after(s, self.current as int) == newline_at_or_after(s, here),
                            skip_ws(s, newline_at_or_after(s, here), self.line as nat) == skip_ws(s, old(self).current as int, old(self).line as nat),
                        decreases s.len() - self.current,
                    {
                        self.advance();
                        proof {
                            lemma_newline_after(s, self.current as int);
                        }
                    }
                } else {
                    return;
                }
            } else {
                return;
            }
        }
    }
}


pub proof fn lemma_digit_run_end(s: Seq<u8>, i: int)
    requires
        0 <= i <= s.len(),
    ensures
        i <= digit_run_end(s, i) <= s.len(),
    decreases s.len() - i,
{
    if i < s.len() && is_digit_byte(s[i]) {
        lemma_digit_run_end(s, i + 1);
    }
}

pub proof fn lemma_ident_run_end(s: Seq<u8>, i: int)
    requires
        0 <= i <= s.len(),
    ensures
        i <= ident_run_end(s, i) <= s.len(),
    decreases s.len() - i,
{
    if i < s.len() && (is_alpha_byte(s[i]) || is_digit_byte(s[i])) {
        lemma_ident_run_end(s, i + 1);
    }
}

pub proof fn lemma_string_run(s: Seq<u8>, i: int, line: nat)
    requires
        0 <= i <= s.len(),
    ensures
        i <= string_run(s, i, line).0 <= s.len(),
        line <= string_run(s, i, line).1,
        string_run(s, i, line).1 - line <= string_run(s, i, line).0 - i,
    decreases s.len() - i,
{
    if i < s.len() && s[i] != 34 {
        if s[i] == 10 {
            lemma_string_run(s, i + 1, line + 1);
        } else {
            lemma_string_run(s, i + 1, line);
        }
    }
}

impl<'src> Scanner<'src> {
    fn string(&mut self) -> (t: Token<'src>)
        requires
            old(self).wf(),
            old(self).start + 1 == old(self).current,
        ensures
            final(self).wf(),
            final(self).src == old(self).src,
            final(self).start == old(self).start,
            ({
                let s = old(self).src@;
                let (q, l) = string_run(s, old(self).current as int, old(self).line as nat);
                &&& final(self).line == l
                &&& q >= s.len() ==> final(self).current == q && t@ == (SpecScanToken { text: unterminated_message(), ty: TokenType::Error, line: l })
                &&& q < s.len() ==> final(self).current == q + 1 && t@ == (SpecScanToken { text: s.subrange(old(self).start as int, q + 1), ty: TokenType::Str, line: l })
            }),
    {
        let ghost s = self.src@;
        let ghost res = string_run(s, self.current as int, self.line as nat);
        proof {
            lemma_string_run(s, self.current as int, self.line as nat);
        }
        while self.peek() != 34 && !self.is_at_end()
            invariant
                self.wf(),
                self.src == old(self).src,
                s == self.src@,
                self.start == old(self).start,
                res == string_run(s, old(self).current as int, old(self).line as nat),
                string_run(s, self.current as int, self.line as nat) == res,
            decreases s.len() - self.current,
        {
            if self.peek() == 10 {
                self.advance();
                self.line = self.line + 1;
            } else {
                self.advance();
            }
            proof {
                lemma_string_run(s, self.current as int, self.line as nat);
            }
        }
        if self.is_at_end() {
            return unterminated_error(self.line);
        }
        self.advance();
        self.make_token(TokenType::Str)
    }

    fn is_digit(&self, char: &u8) -> (r: bool)
        ensures
            r == is_digit_byte(*char),
    {
        48 <= *char && *char <= 57
    }

    fn number(&mut self) -> (t: Token<'src>)
        requires
            old(self).wf(),
            old(self).start + 1 == old(self).current,
        ensures
            final(self).wf(),
            final(self).src == old(self).src,
            final(self).start == old(self).start,
            final(self).line == old(self).line,
            ({
                let s = old(self).src@;
                let q = digit_run_end(s, old(self).current as int);
                let e = if byte_at(s, q) == 46 && is_digit_byte(byte_at(s, q + 1)) { digit_run_end(s, q + 1) } else { q };
                &&& final(self).current == e
                &&& t@ == (SpecScanToken { text: s.subrange(old(self).start as int, e), ty: TokenType::Num, line: old(self).line as nat })
            }),
    {
        let ghost s = self.src@;
        proof {
            lemma_digit_run_end(s, self.current as int);
        }
        while self.is_digit(&self.peek())
            invariant
                self.wf(),
                self.src == old(self).src,
                s == self.src@,
                self.start == old(self).start,
                self.line == old(self).line,
                old(self).current <= self.current <= digit_run_end(s, old(self).current as int),
                digit_run_end(s, self.current as int) == digit_run_end(s, old(self).current as int),
            decreases s.len() - self.current,
        {
            self.advance();
            proof {
                lemma_digit_run_end(s, self.current as int);
            }
        }
        let ghost q = self.current as int;
        if self.peek() == 46 && self.is_digit(&self.peek_next()) {
            self.advance();
            proof {
                lemma_digit_run_end(s, self.current as int);
            }
            while self.is_digit(&self.peek())
                invariant
                    self.wf(),
                    self.src == old(self).src,
                    s == self.src@,
                    self.start == old(self).start,
                    self.line == old(self).line,
                    q + 1 <= self.current <= digit_run_end(s, q + 1),
                    digit_run_end(s, self.current as int) == digit_run_end(s, q + 1),
                decreases s.len() - self.current,
            {
                self.advance();
                proof {
                    lemma_digit_run_end(s, self.current as int);
                }
            }
        }
        self.make_token(TokenType::Num)
    }

    fn is_alpha(&self, byte: &u8) -> (r: bool)
        ensures
            r == is_alpha_byte(*byte),
    {
        (65 <= *byte && *byte <= 90) || (97 <= *byte && *byte <= 122) || *byte == 95
    }
}


/// Whether two byte slices hold the same bytes.
fn same_bytes(a: &[u8], b: &[u8]) -> (r: bool)
    ensures
        r == (a@ == b@),
{
    if a.len() != b.len() {
        return false;
    }
    let mut i: usize = 0;
    while i < a.len()
        invariant
            a@.len() == b@.len(),
            i <= a@.len(),
            a@.subrange(0, i as int) == b@.subrange(0, i as int),
        decreases a@.len() - i,
    {
        if a[i] != b[i] {
            assert(a@[i as int] != b@[i as int]);
            return false;
        }
        i = i + 1;
        assert(a@.subrange(0, i as int) =~= a@.subrange(0, i - 1).push(a@[i - 1]));
        assert(b@.subrange(0, i as int) =~= b@.subrange(0, i - 1).push(b@[i - 1]));
    }
    assert(a@ =~= a@.subrange(0, a@.len() as int));
    assert(b@ =~= b@.subrange(0, b@.len() as int));
    true
}

/// What `check_keyword` answers for the word between `start` and `current`.
pub open spec fn keyword_check(s: Seq<u8>, start: int, current: int, at: int, length: int, rest: Seq<u8>, ty: TokenType) -> TokenType {
    if current - start == at + length && s.subrange(start + at, current) == rest {
        ty
    } else {
        TokenType::Identifier
    }
}

impl<'src> Scanner<'src> {
    fn check_keyword(&self, start: usize, length: usize, rest: &str, ty: TokenType) -> (t: TokenType)
        requires
            self.wf(),
            start + length <= 8,
        ensures
            t == keyword_check(self.src@, self.start as int, self.current as int, start as int, length as int, rest.spec_bytes(), ty),
            t == trie_check(self.src@.subrange(self.start as int, self.current as int), start as int, length as int, rest.spec_bytes(), ty),
    {
        proof {
            lemma_keyword_check(self.src@, self.start as int, self.current as int, start as int, length as int, rest.spec_bytes(), ty);
        }
        if self.current - self.start == start + length && same_bytes(
            slice_subrange(self.src, self.start + start, self.current),
            rest.as_bytes(),
        ) {
            return ty;
        }
        TokenType::Identifier
    }
}


pub open spec fn keyword_bytes_kind(w: Seq<u8>) -> TokenType {
    if w == seq![97u8, 110u8, 100u8] {
        TokenType::And
    } else if w == seq![99u8, 108u8, 97u8, 115u8, 115u8] {
        TokenType::Class
    } else if w == seq![101u8, 108u8, 115u8, 101u8] {
        TokenType::Else
    } else if w == seq![102u8, 97u8, 108u8, 115u8, 101u8] {
        TokenType::False
    } else if w == seq![102u8, 117u8, 110u8] {
        TokenType::Fun
    } else if w == seq![102u8, 111u8, 114u8] {
        TokenType::For
    } else if w == seq![105u8, 102u8] {
        TokenType::If
    } else if w == seq![110u8, 105u8, 108u8] {
        TokenType::Nil
    } else if w == seq![111u8, 114u8] {
        TokenType::Or
    } else if w == seq![112u8, 114u8, 105u8, 110u8, 116u8] {
        TokenType::Print
    } else if w == seq![114u8, 101u8, 116u8, 117u8, 114u8, 110u8] {
        TokenType::Return
    } else if w == seq![115u8, 117u8, 112u8, 101u8, 114u8] {
        TokenType::Super
    } else if w == seq![116u8, 104u8, 105u8, 115u8] {
        TokenType::This
    } else if w == seq![116u8, 114u8, 117u8, 101u8] {
        TokenType::True
    } else if w == seq![118u8, 97u8, 114u8] {
        TokenType::Var
    } else if w == seq![119u8, 104u8, 105u8, 108u8, 101u8] {
        TokenType::While
    } else {
        TokenType::Identifier
    }
}

/// The answer of a trie node: the reserved word `ty` when the rest of the
/// word after `at` is `rest`.
pub open spec fn trie_check(w: Seq<u8>, at: int, length: int, rest: Seq<u8>, ty: TokenType) -> TokenType {
    if w.len() == at + length && w.subrange(at, w.len() as int) == rest {
        ty
    } else {
        TokenType::Identifier
    }
}

/// The kind that the scanner's trie gives a word: it branches on the first
/// byte (and, for `f` and `t`, the second) and compares the rest.
pub open spec fn trie_kind(w: Seq<u8>) -> TokenType {
    if w.len() == 0 {
        TokenType::Identifier
    } else if w[0] == 97u8 {
        trie_check(w, 1, 2, seq![110u8, 100u8], TokenType::And)
    } else if w[0] == 99u8 {
        trie_check(w, 1, 4, seq![108u8, 97u8, 115u8, 115u8], TokenType::Class)
    } else if w[0] == 101u8 {
        trie_check(w, 1, 3, seq![108u8, 115u8, 101u8], TokenType::Else)
    } else if w[0] == 102u8 {
        if w.len() > 1 {
            if w[1] == 97u8 {
                trie_check(w, 2, 3, seq![108u8, 115u8, 101u8], TokenType::False)
            } else if w[1] == 111u8 {
                trie_check(w, 2, 1, seq![114u8], TokenType::For)
            } else if w[1] == 117u8 {
                trie_check(w, 2, 1, seq![110u8], TokenType::Fun)
            } else {
                TokenType::Identifier
            }
        } else {
            TokenType::Identifier
        }
    } else if w[0] == 105u8 {
        trie_check(w, 1, 1, seq![102u8], TokenType::If)
    } else if w[0] == 110u8 {
        trie_check(w, 1, 2, seq![105u8, 108u8], TokenType::Nil)
    } else if w[0] == 111u8 {
        trie_check(w, 1, 1, seq![114u8], TokenType::Or)
    } else if w[0] == 112u8 {
        trie_check(w, 1, 4, seq![114u8, 105u8, 110u8, 116u8], TokenType::Print)
    } else if w[0] == 114u8 {
        trie_check(w, 1, 5, seq![101u8, 116u8, 117u8, 114u8, 110u8], TokenType::Return)
    } else if w[0] == 115u8 {
        trie_check(w, 1, 4, seq![117u8, 112u8, 101u8, 114u8], TokenType::Super)
    } else if w[0] == 116u8 {
        if w.len() > 1 {
            if w[1] == 104u8 {
                trie_check(w, 2, 2, seq![105u8, 115u8], TokenType::This)
            } else if w[1] == 114u8 {
                trie_check(w, 2, 2, seq![117u8, 101u8], TokenType::True)
            } else {
                TokenType::Identifier
            }
        } else {
            TokenType::Identifier
        }
    } else if w[0] == 118u8 {
        trie_check(w, 1, 2, seq![97u8, 114u8], TokenType::Var)
    } else if w[0] == 119u8 {
        trie_check(w, 1, 4, seq![104u8, 105u8, 108u8, 101u8], TokenType::While)
    } else {
        TokenType::Identifier
    }
}

/// The bytes of an ASCII string literal are its characters.
proof fn lemma_ascii_literal(lit: &str)
    requires
        is_ascii_chars(lit@),
    ensures
        lit.spec_bytes() == lit@.map_values(|c: char| c as u8),
{
    vstd::utf8::is_ascii_chars_encode_utf8(lit@);
    assert(lit.spec_bytes() =~= lit@.map_values(|c: char| c as u8));
}

proof fn lemma_keyword_check(s: Seq<u8>, start: int, current: int, at: int, length: int, rest: Seq<u8>, ty: TokenType)
    requires
        0 <= start <= current <= s.len(),
        0 <= at,
        0 <= length,
    ensures
        keyword_check(s, start, current, at, length, rest, ty) == trie_check(s.subrange(start, current), at, length, rest, ty),
{
    let w = s.subrange(start, current);
    if current - start == at + length {
        assert(s.subrange(start + at, current) =~= w.subrange(at, w.len() as int));
    }
}

impl<'src> Scanner<'src> {
    /// The kind of the word between `start` and `current`: a reserved word
    /// or an identifier, found by a trie over its bytes. It is the kind the
    /// reserved-word table of the tree-walking front end
    /// (`TokenType::from_ident`) gives that word.
    pub fn identifier_type(&self) -> (t: TokenType)
        requires
            self.wf(),
            self.token_start() < self.pos(),
        ensures
            t == trie_kind(self.source().subrange(self.token_start(), self.pos())),
            t == from_word_kind(keyword_type(ascii_chars(self.source().subrange(self.token_start(), self.pos())))),
    {
        proof {
            lemma_trie_is_from_ident(self.src@.subrange(self.start as int, self.current as int));
        }
        let ghost w = self.src@.subrange(self.start as int, self.current as int);
        let c = self.src[self.start];
        if c == 97 {
            proof {
                reveal_strlit("nd");
                lemma_ascii_literal("nd");
                assert("nd".spec_bytes() =~= seq![110u8, 100u8]);
            }
            return self.check_keyword(1, 2, "nd", TokenType::And);
        }
        if c == 99 {
            proof {
                reveal_strlit("lass");
                lemma_ascii_literal("lass");
                assert("lass".spec_bytes() =~= seq![108u8, 97u8, 115u8, 115u8]);
            }
            return self.check_keyword(1, 4, "lass", TokenType::Class);
        }
        if c == 101 {
            proof {
                reveal_strlit("lse");
                lemma_ascii_literal("lse");
                assert("lse".spec_bytes() =~= seq![108u8, 115u8, 101u8]);
            }
            return self.check_keyword(1, 3, "lse", TokenType::Else);
        }
        if c == 102 {
            if self.current - self.start > 1 {
                let c1 = self.src[self.start + 1];
                if c1 == 97 {
                    proof {
                        reveal_strlit("lse");
                        lemma_ascii_literal("lse");
                        assert("lse".spec_bytes() =~= seq![108u8, 115u8, 101u8]);
                    }
                    return self.check_keyword(2, 3, "lse", TokenType::False);
                }
                if c1 == 111 {
                    proof {
                        reveal_strlit("r");
                        lemma_ascii_literal("r");
                        assert("r".spec_bytes() =~= seq![114u8]);
                    }
                    return self.check_keyword(2, 1, "r", TokenType::For);
                }
                if c1 == 117 {
                    proof {
                        reveal_strlit("n");
                        lemma_ascii_literal("n");
                        assert("n".spec_bytes() =~= seq![110u8]);
                    }
                    return self.check_keyword(2, 1, "n", TokenType::Fun);
                }
                return TokenType::Identifier;
            }
            return TokenType::Identifier;
        }
        if c == 105 {
            proof {
                reveal_strlit("f");
                lemma_ascii_literal("f");
                assert("f".spec_bytes() =~= seq![102u8]);
            }
            return self.check_keyword(1, 1, "f", TokenType::If);
        }
        if c == 110 {
            proof {
                reveal_strlit("il");
                lemma_ascii_literal("il");
                assert("il".spec_bytes() =~= seq![105u8, 108u8]);
            }
            return self.check_keyword(1, 2, "il", TokenType::Nil);
        }
        if c == 111 {
            proof {
                reveal_strlit("r");
                lemma_ascii_literal("r");
                assert("r".spec_bytes() =~= seq![114u8]);
            }
            return self.check_keyword(1, 1, "r", TokenType::Or);
        }
        if c == 112 {
            proof {
                reveal_strlit("rint");
                lemma_ascii_literal("rint");
                assert("rint".spec_bytes() =~= seq![114u8, 105u8, 110u8, 116u8]);
            }
            return self.check_keyword(1, 4, "rint", TokenType::Print);
        }
        if c == 114 {
            proof {
                reveal_strlit("eturn");
                lemma_ascii_literal("eturn");
                assert("eturn".spec_bytes() =~= seq![101u8, 116u8, 117u8, 114u8, 110u8]);
            }
            return self.check_keyword(1, 5, "eturn", TokenType::Return);
        }
        if c == 115 {
            proof {
                reveal_strlit("uper");
                lemma_ascii_literal("uper");
                assert("uper".spec_bytes() =~= seq![117u8, 112u8, 101u8, 114u8]);
            }
            return self.check_keyword(1, 4, "uper", TokenType::Super);
        }
        if c == 116 {
            if self.current - self.start > 1 {
                let c1 = self.src[self.start + 1];
                if c1 == 104 {
                    proof {
                        reveal_strlit("is");
                        lemma_ascii_literal("is");
                        assert("is".spec_bytes() =~= seq![105u8, 115u8]);
                    }
                    return self.check_keyword(2, 2, "is", TokenType::This);
                }
                if c1 == 114 {
                    proof {
                        reveal_strlit("ue");
                        lemma_ascii_literal("ue");
                        assert("ue".spec_bytes() =~= seq![117u8, 101u8]);
                    }
                    return self.check_keyword(2, 2, "ue", TokenType::True);
                }
                return TokenType::Identifier;
            }
            return TokenType::Identifier;
        }
        if c == 118 {
            proof {
                reveal_strlit("ar");
                lemma_ascii_literal("ar");
                assert("ar".spec_bytes() =~= seq![97u8, 114u8]);
            }
            return self.check_keyword(1, 2, "ar", TokenType::Var);
        }
        if c == 119 {
            proof {
                reveal_strlit("hile");
                lemma_ascii_literal("hile");
                assert("hile".spec_bytes() =~= seq![104u8, 105u8, 108u8, 101u8]);
            }
            return self.check_keyword(1, 4, "hile", TokenType::While);
        }
        TokenType::Identifier
    }
}


/// Equality of two words that agree up to `at` is equality of what follows.
pub proof fn lemma_split_eq(w: Seq<u8>, lit: Seq<u8>, at: int)
    requires
        0 <= at <= lit.len(),
        at <= w.len(),
        forall|i: int| 0 <= i < at ==> w[i] == lit[i],
    ensures
        (w == lit) == (w.len() == lit.len() && w.subrange(at, w.len() as int) == lit.subrange(at, lit.len() as int)),
{
    if w.len() == lit.len() && w.subrange(at, w.len() as int) == lit.subrange(at, lit.len() as int) {
        assert forall|i: int| 0 <= i < w.len() implies w[i] == lit[i] by {
            if i < at {
            } else {
                assert(w[i] == w.subrange(at, w.len() as int)[i - at]);
                assert(lit[i] == lit.subrange(at, lit.len() as int)[i - at]);
            }
        }
        assert(w =~= lit);
    }
}

/// The scanner's trie gives every word the kind that the table of reserved
/// words gives it.
pub proof fn lemma_trie_matches_keyword_table(w: Seq<u8>)
    ensures
        trie_kind(w) == keyword_bytes_kind(w),
{
    if w.len() == 0 {
    } else if w[0] == 97u8 {
        assert(seq![97u8, 110u8, 100u8].subrange(1, 3) =~= seq![110u8, 100u8]);
        lemma_split_eq(w, seq![97u8, 110u8, 100u8], 1);
        assert(trie_kind(w) == keyword_bytes_kind(w));
    } else if w[0] == 99u8 {
        assert(seq![99u8, 108u8, 97u8, 115u8, 115u8].subrange(1, 5) =~= seq![108u8, 97u8, 115u8, 115u8]);
        lemma_split_eq(w, seq![99u8, 108u8, 97u8, 115u8, 115u8], 1);
        assert(trie_kind(w) == keyword_bytes_kind(w));
    } else if w[0] == 101u8 {
        assert(seq![101u8, 108u8, 115u8, 101u8].subrange(1, 4) =~= seq![108u8, 115u8, 101u8]);
        lemma_split_eq(w, seq![101u8, 108u8, 115u8, 101u8], 1);
        assert(trie_kind(w) == keyword_bytes_kind(w));
    } else if w[0] == 102u8 {
        if w.len() > 1 {
            if w[1] == 97u8 {
                assert(seq![102u8, 97u8, 108u8, 115u8, 101u8].subrange(2, 5) =~= seq![108u8, 115u8, 101u8]);
                lemma_split_eq(w, seq![102u8, 97u8, 108u8, 115u8, 101u8], 2);
                assert(w != seq![102u8, 117u8, 110u8]);
                assert(w != seq![102u8, 111u8, 114u8]);
            } else if w[1] == 117u8 {
                assert(seq![102u8, 117u8, 110u8].subrange(2, 3) =~= seq![110u8]);
                lemma_split_eq(w, seq![102u8, 117u8, 110u8], 2);
                assert(w != seq![102u8, 97u8, 108u8, 115u8, 101u8]);
                assert(w != seq![102u8, 111u8, 114u8]);
            } else if w[1] == 111u8 {
                assert(seq![102u8, 111u8, 114u8].subrange(2, 3) =~= seq![114u8]);
                lemma_split_eq(w, seq![102u8, 111u8, 114u8], 2);
                assert(w != seq![102u8, 97u8, 108u8, 115u8, 101u8]);
                assert(w != seq![102u8, 117u8, 110u8]);
            } else {
                assert(w[1] != seq![102u8, 97u8, 108u8, 115u8, 101u8][1]);
                assert(w[1] != seq![102u8, 117u8, 110u8][1]);
                assert(w[1] != seq![102u8, 111u8, 114u8][1]);
            }
        } else {
            assert(w.len() != seq![102u8, 97u8, 108u8, 115u8, 101u8].len());
            assert(w.len() != seq![102u8, 117u8, 110u8].len());
            assert(w.len() != seq![102u8, 111u8, 114u8].len());
        }
        assert(trie_kind(w) == keyword_bytes_kind(w));
    } else if w[0] == 105u8 {
        assert(seq![105u8, 102u8].subrange(1, 2) =~= seq![102u8]);
        lemma_split_eq(w, seq![105u8, 102u8], 1);
        assert(trie_kind(w) == keyword_bytes_kind(w));
    } else if w[0] == 110u8 {
        assert(seq![110u8, 105u8, 108u8].subrange(1, 3) =~= seq![105u8, 108u8]);
        lemma_split_eq(w, seq![110u8, 105u8, 108u8], 1);
        assert(trie_kind(w) == keyword_bytes_kind(w));
    } else if w[0] == 111u8 {
        assert(seq![111u8, 114u8].subrange(1, 2) =~= seq![114u8]);
        lemma_split_eq(w, seq![111u8, 114u8], 1);
        assert(trie_kind(w) == keyword_bytes_kind(w));
    } else if w[0] == 112u8 {
        assert(seq![112u8, 114u8, 105u8, 110u8, 116u8].subrange(1, 5) =~= seq![114u8, 105u8, 110u8, 116u8]);
        lemma_split_eq(w, seq![112u8, 114u8, 105u8, 110u8, 116u8], 1);
        assert(trie_kind(w) == keyword_bytes_kind(w));
    } else if w[0] == 114u8 {
        assert(seq![114u8, 101u8, 116u8, 117u8, 114u8, 110u8].subrange(1, 6) =~= seq![101u8, 116u8, 117u8, 114u8, 110u8]);
        lemma_split_eq(w, seq![114u8, 101u8, 116u8, 117u8, 114u8, 110u8], 1);
        assert(trie_kind(w) == keyword_bytes_kind(w));
    } else if w[0] == 115u8 {
        assert(seq![115u8, 117u8, 112u8, 101u8, 114u8].subrange(1, 5) =~= seq![117u8, 112u8, 101u8, 114u8]);
        lemma_split_eq(w, seq![115u8, 117u8, 112u8, 101u8, 114u8], 1);
        assert(trie_kind(w) == keyword_bytes_kind(w));
    } else if w[0] == 116u8 {
        if w.len() > 1 {
            if w[1] == 104u8 {
                assert(seq![116u8, 104u8, 105u8, 115u8].subrange(2, 4) =~= seq![105u8, 115u8]);
                lemma_split_eq(w, seq![116u8, 104u8, 105u8, 115u8], 2);
                assert(w != seq![116u8, 114u8, 117u8, 101u8]);
            } else if w[1] == 114u8 {
                assert(seq![116u8, 114u8, 117u8, 101u8].subrange(2, 4) =~= seq![117u8, 101u8]);
                lemma_split_eq(w, seq![116u8, 114u8, 117u8, 101u8], 2);
                assert(w != seq![116u8, 104u8, 105u8, 115u8]);
            } else {
                assert(w[1] != seq![116u8, 104u8, 105u8, 115u8][1]);
                assert(w[1] != seq![116u8, 114u8, 117u8, 101u8][1]);
            }
        } else {
            assert(w.len() != seq![116u8, 104u8, 105u8, 115u8].len());
            assert(w.len() != seq![116u8, 114u8, 117u8, 101u8].len());
        }
        assert(trie_kind(w) == keyword_bytes_kind(w));
    } else if w[0] == 118u8 {
        assert(seq![118u8, 97u8, 114u8].subrange(1, 3) =~= seq![97u8, 114u8]);
        lemma_split_eq(w, seq![118u8, 97u8, 114u8], 1);
        assert(trie_kind(w) == keyword_bytes_kind(w));
    } else if w[0] == 119u8 {
        assert(seq![119u8, 104u8, 105u8, 108u8, 101u8].subrange(1, 5) =~= seq![104u8, 105u8, 108u8, 101u8]);
        lemma_split_eq(w, seq![119u8, 104u8, 105u8, 108u8, 101u8], 1);
        assert(trie_kind(w) == keyword_bytes_kind(w));
    } else {
    }
}


/// Reading bytes as characters keeps them apart.
pub proof fn lemma_ascii_chars_eq(w: Seq<u8>, b: Seq<u8>)
    ensures
        (ascii_chars(w) == ascii_chars(b)) == (w == b),
{
    if ascii_chars(w) == ascii_chars(b) {
        assert(w.len() == ascii_chars(w).len());
        assert(b.len() == ascii_chars(b).len());
        assert forall|i: int| 0 <= i < w.len() implies w[i] == b[i] by {
            assert(ascii_chars(w)[i] == ascii_chars(b)[i]);
            assert(ascii_chars(w)[i] == (w[i] as char));
            assert(ascii_chars(b)[i] == (b[i] as char));
            assert((w[i] as char) as int == w[i] as int);
            assert((b[i] as char) as int == b[i] as int);
        }
        assert(w =~= b);
    }
}

/// The bytecode scanner and the tree-walking lexer agree on which words are
/// reserved: the byte table gives a word the kind that `from_ident` gives
/// the same letters.
pub proof fn lemma_keyword_tables_agree(w: Seq<u8>)
    ensures
        keyword_bytes_kind(w) == word_kind(w),
{
    assert(ascii_chars(seq![97u8, 110u8, 100u8]) =~= seq!['a', 'n', 'd']);
    lemma_ascii_chars_eq(w, seq![97u8, 110u8, 100u8]);
    assert(ascii_chars(seq![99u8, 108u8, 97u8, 115u8, 115u8]) =~= seq!['c', 'l', 'a', 's', 's']);
    lemma_ascii_chars_eq(w, seq![99u8, 108u8, 97u8, 115u8, 115u8]);
    assert(ascii_chars(seq![101u8, 108u8, 115u8, 101u8]) =~= seq!['e', 'l', 's', 'e']);
    lemma_ascii_chars_eq(w, seq![101u8, 108u8, 115u8, 101u8]);
    assert(ascii_chars(seq![102u8, 97u8, 108u8, 115u8, 101u8]) =~= seq!['f', 'a', 'l', 's', 'e']);
    lemma_ascii_chars_eq(w, seq![102u8, 97u8, 108u8, 115u8, 101u8]);
    assert(ascii_chars(seq![102u8, 117u8, 110u8]) =~= seq!['f', 'u', 'n']);
    lemma_ascii_chars_eq(w, seq![102u8, 117u8, 110u8]);
    assert(ascii_chars(seq![102u8, 111u8, 114u8]) =~= seq!['f', 'o', 'r']);
    lemma_ascii_chars_eq(w, seq![102u8, 111u8, 114u8]);
    assert(ascii_chars(seq![105u8, 102u8]) =~= seq!['i', 'f']);
    lemma_ascii_chars_eq(w, seq![105u8, 102u8]);
    assert(ascii_chars(seq![110u8, 105u8, 108u8]) =~= seq!['n', 'i', 'l']);
    lemma_ascii_chars_eq(w, seq![110u8, 105u8, 108u8]);
    assert(ascii_chars(seq![111u8, 114u8]) =~= seq!['o', 'r']);
    lemma_ascii_chars_eq(w, seq![111u8, 114u8]);
    assert(ascii_chars(seq![112u8, 114u8, 105u8, 110u8, 116u8]) =~= seq!['p', 'r', 'i', 'n', 't']);
    lemma_ascii_chars_eq(w, seq![112u8, 114u8, 105u8, 110u8, 116u8]);
    assert(ascii_chars(seq![114u8, 101u8, 116u8, 117u8, 114u8, 110u8]) =~= seq!['r', 'e', 't', 'u', 'r', 'n']);
    lemma_ascii_chars_eq(w, seq![114u8, 101u8, 116u8, 117u8, 114u8, 110u8]);
    assert(ascii_chars(seq![115u8, 117u8, 112u8, 101u8, 114u8]) =~= seq!['s', 'u', 'p', 'e', 'r']);
    lemma_ascii_chars_eq(w, seq![115u8, 117u8, 112u8, 101u8, 114u8]);
    assert(ascii_chars(seq![116u8, 104u8, 105u8, 115u8]) =~= seq!['t', 'h', 'i', 's']);
    lemma_ascii_chars_eq(w, seq![116u8, 104u8, 105u8, 115u8]);
    assert(ascii_chars(seq![116u8, 114u8, 117u8, 101u8]) =~= seq!['t', 'r', 'u', 'e']);
    lemma_ascii_chars_eq(w, seq![116u8, 114u8, 117u8, 101u8]);
    assert(ascii_chars(seq![118u8, 97u8, 114u8]) =~= seq!['v', 'a', 'r']);
    lemma_ascii_chars_eq(w, seq![118u8, 97u8, 114u8]);
    assert(ascii_chars(seq![119u8, 104u8, 105u8, 108u8, 101u8]) =~= seq!['w', 'h', 'i', 'l', 'e']);
    lemma_ascii_chars_eq(w, seq![119u8, 104u8, 105u8, 108u8, 101u8]);
}

/// The kind that `identifier_type` gives a word is the kind the reserved-word
/// table of the tree-walking front end gives it.
pub proof fn lemma_trie_is_from_ident(w: Seq<u8>)
    ensures
        trie_kind(w) == word_kind(w),
{
    lemma_trie_matches_keyword_table(w);
    lemma_keyword_tables_agree(w);
}


impl<'src> Scanner<'src> {
    fn identifier(&mut self) -> (t: Token<'src>)
        requires
            old(self).wf(),
            old(self).start + 1 == old(self).current,
        ensures
            final(self).wf(),
            final(self).src == old(self).src,
            final(self).start == old(self).start,
            final(self).line == old(self).line,
            final(self).current == ident_run_end(old(self).src@, old(self).current as int),
            t@ == (SpecScanToken {
                text: old(self).src@.subrange(old(self).start as int, final(self).current as int),
                ty: word_kind(old(self).src@.subrange(old(self).start as int, final(self).current as int)),
                line: old(self).line as nat,
            }),
    {
        let ghost s = self.src@;
        proof {
            lemma_ident_run_end(s, self.current as int);
        }
        while self.is_alpha(&self.peek()) || self.is_digit(&self.peek())
            invariant
                self.wf(),
                self.src == old(self).src,
                s == self.src@,
                self.start == old(self).start,
                self.line == old(self).line,
                old(self).current <= self.current <= ident_run_end(s, old(self).current as int),
                ident_run_end(s, self.current as int) == ident_run_end(s, old(self).current as int),
            decreases s.len() - self.current,
        {
            self.advance();
            proof {
                lemma_ident_run_end(s, self.current as int);
            }
        }
        let ty = self.identifier_type();
        proof {
            lemma_trie_is_from_ident(s.subrange(self.start as int, self.current as int));
        }
        self.make_token(ty)
    }

    /// Skips whitespace and comments and returns the next token; at the end
    /// of the source it returns `EndFile` (again on every later call).
    pub fn scan_token(&mut self) -> (t: Token<'src>)
        requires
            old(self).wf(),
        ensures
            final(self).wf(),
            final(self).source() == old(self).source(),
            final(self).token_start() == skip_ws(old(self).source(), old(self).pos(), old(self).line_no()).0,
            ({
                let (np, nl, tok) = scan(old(self).source(), old(self).pos(), old(self).line_no());
                &&& final(self).pos() == np
                &&& final(self).line_no() == nl
                &&& t@ == tok
            }),
    {
        self.skip_whitespace();
        self.start = self.current;
        if self.is_at_end() {
            return self.make_token(TokenType::EndFile);
        }
        let c = self.advance();
        if self.is_alpha(&c) {
            return self.identifier();
        }
        if self.is_digit(&c) {
            return self.number();
        }
        if c == 40 {
            self.make_token(TokenType::LeftParen)
        } else if c == 41 {
            self.make_token(TokenType::RightParen)
        } else if c == 123 {
            self.make_token(TokenType::LeftBrace)
        } else if c == 125 {
            self.make_token(TokenType::RightBrace)
        } else if c == 59 {
            self.make_token(TokenType::Semicolon)
        } else if c == 44 {
            self.make_token(TokenType::Comma)
        } else if c == 46 {
            self.make_token(TokenType::Dot)
        } else if c == 45 {
            self.make_token(TokenType::Minus)
        } else if c == 43 {
            self.make_token(TokenType::Plus)
        } else if c == 47 {
            self.make_token(TokenType::Slash)
        } else if c == 42 {
            self.make_token(TokenType::Star)
        } else if c == 33 {
            if self.match_byte(61) {
                return self.make_token(TokenType::BangEqual);
            }
            self.make_token(TokenType::Bang)
        } else if c == 61 {
            if self.match_byte(61) {
                return self.make_token(TokenType::EqualEqual);
            }
            self.make_token(TokenType::Equal)
        } else if c == 62 {
            if self.match_byte(61) {
                return self.make_token(TokenType::GreaterEqual);
            }
            self.make_token(TokenType::Greater)
        } else if c == 60 {
            if self.match_byte(61) {
                return self.make_token(TokenType::LessEqual);
            }
            self.make_token(TokenType::Less)
        } else if c == 34 {
            self.string()
        } else {
            unexpected_error(self.line)
        }
    }
}


proof fn lemma_skip_ws_bounds(s: Seq<u8>, i: int, line: nat)
    requires
        0 <= i <= s.len(),
    ensures
        i <= skip_ws(s, i, line).0 <= s.len(),
    decreases s.len() - i,
{
    if 0 <= i < s.len() {
        if s[i] == 32 || s[i] == 13 || s[i] == 9 || s[i] == 10 {
            lemma_skip_ws_bounds(s, i + 1, if s[i] == 10 { line + 1 } else { line });
        } else if s[i] == 47 && byte_at(s, i + 1) == 47 {
            lemma_newline_after(s, i);
            lemma_skip_ws_bounds(s, newline_at_or_after(s, i), line);
        }
    }
}

/// One call of `scan_token` from position `cur`: blanks and comments are
/// skipped first; the result is `EndFile` exactly when nothing but blanks
/// and comments remained (then the position is the end of the source and
/// the text is empty); any other token takes at least one byte after the
/// blanks, and, but for an error token, its text is the source between the
/// start of the token and the new position. The token is on the line
/// reached, and scanning never leaves the source. So at most
/// `s.len() + 1` calls reach `EndFile`.
pub proof fn lemma_scan_progress(s: Seq<u8>, cur: int, line: nat)
    requires
        0 <= cur <= s.len(),
    ensures
        ({
            let (st, l) = skip_ws(s, cur, line);
            let (np, nl, tok) = scan(s, cur, line);
            &&& cur <= st <= s.len()
            &&& np <= s.len()
            &&& tok.line == nl
            &&& (tok.ty == TokenType::EndFile <==> st == s.len())
            &&& tok.ty == TokenType::EndFile ==> np == s.len() && tok.text == Seq::<u8>::empty()
            &&& tok.ty != TokenType::EndFile ==> cur <= st < np
            &&& tok.ty != TokenType::EndFile && tok.ty != TokenType::Error ==> tok.text == s.subrange(st, np)
        }),
        scan(s, cur, line).0 <= s.len(),
        scan(s, cur, line).2.ty != TokenType::EndFile ==> cur < scan(s, cur, line).0,
        scan(s, cur, line).2.ty == TokenType::EndFile ==> scan(s, cur, line).0 == s.len(),
{
    lemma_skip_ws_bounds(s, cur, line);
    let (st, l) = skip_ws(s, cur, line);
    if st < s.len() {
        let p = st + 1;
        lemma_ident_run_end(s, p);
        lemma_digit_run_end(s, p);
        lemma_string_run(s, p, l);
        let q = digit_run_end(s, p);
        if byte_at(s, q) == 46 && is_digit_byte(byte_at(s, q + 1)) {
            lemma_digit_run_end(s, q + 1);
        }
        assert(word_kind(s.subrange(st, ident_run_end(s, p))) != TokenType::EndFile);
        assert(word_kind(s.subrange(st, ident_run_end(s, p))) != TokenType::Error);
    } else {
        assert(s.subrange(st, st) =~= Seq::<u8>::empty());
    }
}

/// Operators and punctuation: after the blanks, `!`, `=`, `<` and `>`
/// followed by `=` scan as one two-byte token (`!=`, `==`, `<=`, `>=`), and
/// alone as the one-byte operator; each of `( ) { } ; , . - + / *` scans as
/// its own one-byte token. The token's text is the bytes it covers.
pub proof fn lemma_scan_operators(s: Seq<u8>, cur: int, line: nat)
    requires
        0 <= cur <= s.len(),
    ensures
        ({
            let (st, l) = skip_ws(s, cur, line);
            let (np, nl, tok) = scan(s, cur, line);
            0 <= st < s.len() ==> {
                let c = s[st];
            &&& c == 33u8 && byte_at(s, st + 1) == 61u8 ==> tok.ty == TokenType::BangEqual && np == st + 2 && tok.text == seq![33u8, 61u8]
            &&& c == 33u8 && byte_at(s, st + 1) != 61u8 ==> tok.ty == TokenType::Bang && np == st + 1 && tok.text == seq![33u8]
            &&& c == 61u8 && byte_at(s, st + 1) == 61u8 ==> tok.ty == TokenType::EqualEqual && np == st + 2 && tok.text == seq![61u8, 61u8]
            &&& c == 61u8 && byte_at(s, st + 1) != 61u8 ==> tok.ty == TokenType::Equal && np == st + 1 && tok.text == seq![61u8]
            &&& c == 60u8 && byte_at(s, st + 1) == 61u8 ==> tok.ty == TokenType::LessEqual && np == st + 2 && tok.text == seq![60u8, 61u8]
            &&& c == 60u8 && byte_at(s, st + 1) != 61u8 ==> tok.ty == TokenType::Less && np == st + 1 && tok.text == seq![60u8]
            &&& c == 62u8 && byte_at(s, st + 1) == 61u8 ==> tok.ty == TokenType::GreaterEqual && np == st + 2 && tok.text == seq![62u8, 61u8]
            &&& c == 62u8 && byte_at(s, st + 1) != 61u8 ==> tok.ty == TokenType::Greater && np == st + 1 && tok.text == seq![62u8]
            &&& c == 40u8 ==> tok.ty == TokenType::LeftParen && np == st + 1 && tok.text == seq![40u8]
            &&& c == 41u8 ==> tok.ty == TokenType::RightParen && np == st + 1 && tok.text == seq![41u8]
            &&& c == 123u8 ==> tok.ty == TokenType::LeftBrace && np == st + 1 && tok.text == seq![123u8]
            &&& c == 125u8 ==> tok.ty == TokenType::RightBrace && np == st + 1 && tok.text == seq![125u8]
            &&& c == 59u8 ==> tok.ty == TokenType::Semicolon && np == st + 1 && tok.text == seq![59u8]
            &&& c == 44u8 ==> tok.ty == TokenType::Comma && np == st + 1 && tok.text == seq![44u8]
            &&& c == 46u8 ==> tok.ty == TokenType::Dot && np == st + 1 && tok.text == seq![46u8]
            &&& c == 45u8 ==> tok.ty == TokenType::Minus && np == st + 1 && tok.text == seq![45u8]
            &&& c == 43u8 ==> tok.ty == TokenType::Plus && np == st + 1 && tok.text == seq![43u8]
            &&& c == 47u8 ==> tok.ty == TokenType::Slash && np == st + 1 && tok.text == seq![47u8]
            &&& c == 42u8 ==> tok.ty == TokenType::Star && np == st + 1 && tok.text == seq![42u8]
            }
        }),
{
    lemma_skip_ws_bounds(s, cur, line);
    let (st, l) = skip_ws(s, cur, line);
    if 0 <= st < s.len() {
        let c = s[st];
        assert(s.subrange(st, st + 1) =~= seq![c]);
        if st + 1 < s.len() {
            assert(s.subrange(st, st + 2) =~= seq![c, s[st + 1]]);
        }
    }
}

/// A word that starts with a letter or `_` is scanned whole (letters,
/// digits and `_`), and its kind is the one the reserved-word table of the
/// tree-walking front end (`TokenType::from_ident`) gives its text:
/// `Identifier` unless the text is exactly a reserved word.
pub proof fn lemma_scan_word(s: Seq<u8>, cur: int, line: nat)
    requires
        0 <= cur <= s.len(),
    ensures
        ({
            let (st, l) = skip_ws(s, cur, line);
            0 <= st < s.len() && is_alpha_byte(s[st]) ==> {
                let q = ident_run_end(s, st + 1);
                let tok = scan(s, cur, line).2;
                &&& scan(s, cur, line).0 == q
                &&& tok.text == s.subrange(st, q)
                &&& tok.ty == from_word_kind(keyword_type(ascii_chars(tok.text)))
                &&& tok.ty == trie_kind(tok.text)
            }
        }),
{
    let (st, l) = skip_ws(s, cur, line);
    if 0 <= st < s.len() && is_alpha_byte(s[st]) {
        lemma_trie_is_from_ident(s.subrange(st, ident_run_end(s, st + 1)));
    }
}

/// The tokens that repeated calls of `scan_token` hand out from position
/// `cur` on line `line`, up to and including the end of input.
pub open spec fn scan_all(s: Seq<u8>, cur: int, line: nat) -> Seq<SpecScanToken>
    decreases s.len() - cur,
{
    if 0 <= cur <= s.len() {
        proof {
            lemma_scan_progress(s, cur, line);
        }
        let (np, nl, tok) = scan(s, cur, line);
        if tok.ty == TokenType::EndFile {
            seq![tok]
        } else {
            seq![tok] + scan_all(s, np, nl)
        }
    } else {
        seq![]
    }
}

/// Scans a whole source: the tokens up to and including the end of input.
pub struct Compiler {}

impl Compiler {
    /// The tokens of `source`, in order, ending with `EndFile`.
    pub fn compile<'src>(&self, source: &'src str) -> (tokens: Vec<Token<'src>>)
        requires
            source.spec_bytes().len() < usize::MAX,
        ensures
            tokens@.map_values(|t: Token<'src>| t@) == scan_all(source.spec_bytes(), 0, 1),
    {
        let mut scanner = Scanner::new(source);
        let mut tokens: Vec<Token<'src>> = Vec::new();
        assert(tokens@.map_values(|t: Token<'src>| t@) =~= Seq::<SpecScanToken>::empty());
        loop
            invariant
                scanner.wf(),
                scanner.source() == source.spec_bytes(),
                0 <= scanner.pos() <= scanner.source().len(),
                scan_all(source.spec_bytes(), 0, 1) == tokens@.map_values(|t: Token<'src>| t@) + scan_all(
                    scanner.source(),
                    scanner.pos(),
                    scanner.line_no(),
                ),
            decreases scanner.source().len() - scanner.pos() + 1,
        {
            proof {
                lemma_scan_progress(scanner.source(), scanner.pos(), scanner.line_no());
            }
            let ghost before = tokens@.map_values(|t: Token<'src>| t@);
            let token = scanner.scan_token();
            let ty = token.ty();
            tokens.push(token);
            assert(tokens@.map_values(|t: Token<'src>| t@) =~= before.push(token@));
            if ty == TokenType::EndFile {
                assert(before.push(token@) =~= before + seq![token@]);
                return tokens;
            }
            assert(before.push(token@) + scan_all(scanner.source(), scanner.pos(), scanner.line_no()) =~= before
                + (seq![token@] + scan_all(scanner.source(), scanner.pos(), scanner.line_no())));
        }
    }
}

} // verus!
