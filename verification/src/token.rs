//! Token kinds, keywords and the owned token type shared by the lexer and
//! the tree-walking front end.
use vstd::prelude::*;

verus! {

/// The kinds of token of the language.
#[derive(Debug, PartialEq, Eq, Clone, Copy, Structural)]
pub enum TokenType {
    LeftBrace,
    RightBrace,
    LeftParen,
    RightParen,
    Plus,
    Minus,
    Star,
    Slash,
    Comma,
    Dot,
    Semicolon,
    Bang,
    BangEqual,
    Equal,
    EqualEqual,
    Greater,
    GreaterEqual,
    Less,
    LessEqual,
    Identifier,
    Str,
    Num,
    And,
    Class,
    Else,
    False,
    True,
    Fun,
    For,
    If,
    Nil,
    Print,
    Or,
    Return,
    Super,
    This,
    Var,
    While,
    EndFile,
}

/// The reserved word that a piece of text spells, or `Identifier` when it
/// spells none.
pub open spec fn keyword_type(s: Seq<char>) -> TokenType {
    if s == seq!['a', 'n', 'd'] {
        TokenType::And
    } else if s == seq!['c', 'l', 'a', 's', 's'] {
        TokenType::Class
    } else if s == seq!['e', 'l', 's', 'e'] {
        TokenType::Else
    } else if s == seq!['f', 'a', 'l', 's', 'e'] {
        TokenType::False
    } else if s == seq!['f', 'u', 'n'] {
        TokenType::Fun
    } else if s == seq!['f', 'o', 'r'] {
        TokenType::For
    } else if s == seq!['i', 'f'] {
        TokenType::If
    } else if s == seq!['n', 'i', 'l'] {
        TokenType::Nil
    } else if s == seq!['o', 'r'] {
        TokenType::Or
    } else if s == seq!['p', 'r', 'i', 'n', 't'] {
        TokenType::Print
    } else if s == seq!['r', 'e', 't', 'u', 'r', 'n'] {
        TokenType::Return
    } else if s == seq!['s', 'u', 'p', 'e', 'r'] {
        TokenType::Super
    } else if s == seq!['t', 'h', 'i', 's'] {
        TokenType::This
    } else if s == seq!['t', 'r', 'u', 'e'] {
        TokenType::True
    } else if s == seq!['v', 'a', 'r'] {
        TokenType::Var
    } else if s == seq!['w', 'h', 'i', 'l', 'e'] {
        TokenType::While
    } else {
        TokenType::Identifier
    }
}

fn word2(s: &[char], a: char, b: char) -> (r: bool)
    requires
        s@.len() == 2,
    ensures
        r == (s@ == seq![a, b]),
{
    let r = s[0] == a && s[1] == b;
    if r {
        assert(s@ =~= seq![a, b]);
    }
    r
}

fn word3(s: &[char], a: char, b: char, c: char) -> (r: bool)
    requires
        s@.len() == 3,
    ensures
        r == (s@ == seq![a, b, c]),
{
    let r = s[0] == a && s[1] == b && s[2] == c;
    if r {
        assert(s@ =~= seq![a, b, c]);
    }
    r
}

fn word4(s: &[char], a: char, b: char, c: char, d: char) -> (r: bool)
    requires
        s@.len() == 4,
    ensures
        r == (s@ == seq![a, b, c, d]),
{
    let r = s[0] == a && s[1] == b && s[2] == c && s[3] == d;
    if r {
        assert(s@ =~= seq![a, b, c, d]);
    }
    r
}

fn word5(s: &[char], a: char, b: char, c: char, d: char, e: char) -> (r: bool)
    requires
        s@.len() == 5,
    ensures
        r == (s@ == seq![a, b, c, d, e]),
{
    let r = s[0] == a && s[1] == b && s[2] == c && s[3] == d && s[4] == e;
    if r {
        assert(s@ =~= seq![a, b, c, d, e]);
    }
    r
}

fn word6(s: &[char], a: char, b: char, c: char, d: char, e: char, f: char) -> (r: bool)
    requires
        s@.len() == 6,
    ensures
        r == (s@ == seq![a, b, c, d, e, f]),
{
    let r = s[0] == a && s[1] == b && s[2] == c && s[3] == d && s[4] == e && s[5] == f;
    if r {
        assert(s@ =~= seq![a, b, c, d, e, f]);
    }
    r
}

/// The token kind of a word given as characters: a reserved word or an
/// identifier.
pub fn keyword_of_chars(s: &[char]) -> (t: TokenType)
    ensures
        t == keyword_type(s@),
{
    let n = s.len();
    if n == 2 {
        if word2(s, 'i', 'f') {
            TokenType::If
        } else if word2(s, 'o', 'r') {
            TokenType::Or
        } else {
            TokenType::Identifier
        }
    } else if n == 3 {
        if word3(s, 'a', 'n', 'd') {
            TokenType::And
        } else if word3(s, 'f', 'u', 'n') {
            TokenType::Fun
        } else if word3(s, 'f', 'o', 'r') {
            TokenType::For
        } else if word3(s, 'n', 'i', 'l') {
            TokenType::Nil
        } else if word3(s, 'v', 'a', 'r') {
            TokenType::Var
        } else {
            TokenType::Identifier
        }
    } else if n == 4 {
        if word4(s, 'e', 'l', 's', 'e') {
            TokenType::Else
        } else if word4(s, 't', 'h', 'i', 's') {
            TokenType::This
        } else if word4(s, 't', 'r', 'u', 'e') {
            TokenType::True
        } else {
            TokenType::Identifier
        }
    } else if n == 5 {
        if word5(s, 'c', 'l', 'a', 's', 's') {
            TokenType::Class
        } else if word5(s, 'f', 'a', 'l', 's', 'e') {
            TokenType::False
        } else if word5(s, 'p', 'r', 'i', 'n', 't') {
            TokenType::Print
        } else if word5(s, 's', 'u', 'p', 'e', 'r') {
            TokenType::Super
        } else if word5(s, 'w', 'h', 'i', 'l', 'e') {
            TokenType::While
        } else {
            TokenType::Identifier
        }
    } else if n == 6 {
        if word6(s, 'r', 'e', 't', 'u', 'r', 'n') {
            TokenType::Return
        } else {
            TokenType::Identifier
        }
    } else {
        TokenType::Identifier
    }
}

/// The characters of a string slice, in order.
pub fn chars_of(text: &str) -> (v: Vec<char>)
    ensures
        v@ == text@,
{
    let n = text.unicode_len();
    let mut v: Vec<char> = Vec::new();
    let mut i: usize = 0;
    while i < n
        invariant
            n == text@.len(),
            i <= n,
            v@ == text@.subrange(0, i as int),
        decreases n - i,
    {
        v.push(text.get_char(i));
        i = i + 1;
        assert(v@ =~= text@.subrange(0, i as int));
    }
    assert(text@.subrange(0, n as int) =~= text@);
    v
}

impl TokenType {
    /// The token kind of a scanned word: the reserved word it spells, or
    /// `Identifier`.
    pub fn from_ident(text: &str) -> (t: TokenType)
        ensures
            t == keyword_type(text@),
    {
        let cs = chars_of(text);
        keyword_of_chars(cs.as_slice())
    }
}

/// The value that a literal token carries. A number literal keeps the
/// decimal digits it was written with.
#[derive(Debug)]
pub enum Literal {
    String(String),
    Number(String),
    Bool(bool),
    Nil,
}

/// The mathematical model of a literal.
pub enum SpecLiteral {
    Str(Seq<char>),
    Number(Seq<char>),
    Bool(bool),
    Nil,
}

impl View for Literal {
    type V = SpecLiteral;

    open spec fn view(&self) -> SpecLiteral {
        match self {
            Literal::String(s) => SpecLiteral::Str(s@),
            Literal::Number(s) => SpecLiteral::Number(s@),
            Literal::Bool(b) => SpecLiteral::Bool(*b),
            Literal::Nil => SpecLiteral::Nil,
        }
    }
}

impl Clone for Literal {
    fn clone(&self) -> (r: Self)
        ensures
            r == *self,
    {
        match self {
            Literal::String(s) => Literal::String(s.clone()),
            Literal::Number(s) => Literal::Number(s.clone()),
            Literal::Bool(b) => Literal::Bool(*b),
            Literal::Nil => Literal::Nil,
        }
    }
}

/// A scanned token: its kind, the text it was scanned from, the line it
/// ends on (counted from zero) and the literal value it carries, if any.
#[derive(Debug)]
pub struct Token {
    pub token_type: TokenType,
    pub lexeme: String,
    pub line: usize,
    pub literal: Option<Literal>,
}

/// The mathematical model of a token.
pub struct SpecToken {
    pub token_type: TokenType,
    pub lexeme: Seq<char>,
    pub line: nat,
    pub literal: Option<SpecLiteral>,
}

impl View for Token {
    type V = SpecToken;

    open spec fn view(&self) -> SpecToken {
        SpecToken {
            token_type: self.token_type,
            lexeme: self.lexeme@,
            line: self.line as nat,
            literal: match self.literal {
                Some(l) => Some(l@),
                None => None,
            },
        }
    }
}

impl Clone for Token {
    fn clone(&self) -> (r: Self)
        ensures
            r == *self,
    {
        let literal = match &self.literal {
            Some(l) => Some(l.clone()),
            None => None,
        };
        Token {
            token_type: self.token_type,
            lexeme: self.lexeme.clone(),
            line: self.line,
            literal,
        }
    }
}

impl Token {
    pub fn new(token_type: TokenType, lexeme: String, line: usize, lit: Option<Literal>) -> (t:
        Self)
        ensures
            t.token_type == token_type,
            t.lexeme@ == lexeme@,
            t.line == line,
            t.literal == lit,
    {
        Token { token_type, lexeme, line, literal: lit }
    }
}

} // verus!
