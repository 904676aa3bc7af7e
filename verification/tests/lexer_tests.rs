use alv::lexer::{LexError, Lexer};
use alv::token::{Literal, Token, TokenType};

fn lex(src: &str) -> Vec<Token> {
    Lexer::new(src).scan_tokens()
}

fn kinds(ts: &[Token]) -> Vec<TokenType> {
    ts.iter().map(|t| t.token_type).collect()
}

#[test]
fn lexes_a_variable_declaration() {
    let ts = lex("var a = 1;");
    assert_eq!(
        kinds(&ts),
        vec![
            TokenType::Var,
            TokenType::Identifier,
            TokenType::Equal,
            TokenType::Num,
            TokenType::Semicolon,
            TokenType::EndFile
        ]
    );
    assert_eq!(ts[1].lexeme, "a");
    assert!(matches!(&ts[3].literal, Some(Literal::Number(n)) if n == "1"));
    assert_eq!(ts[5].lexeme, "");
}

#[test]
fn two_character_operators() {
    let ts = lex("! != = == > >= < <=");
    assert_eq!(
        kinds(&ts),
        vec![
            TokenType::Bang,
            TokenType::BangEqual,
            TokenType::Equal,
            TokenType::EqualEqual,
            TokenType::Greater,
            TokenType::GreaterEqual,
            TokenType::Less,
            TokenType::LessEqual,
            TokenType::EndFile
        ]
    );
}

#[test]
fn numbers_keep_their_digits() {
    let ts = lex("12.5 7. 3");
    assert_eq!(kinds(&ts), vec![TokenType::Num, TokenType::Num, TokenType::Dot, TokenType::Num, TokenType::EndFile]);
    assert!(matches!(&ts[0].literal, Some(Literal::Number(n)) if n == "12.5"));
    assert_eq!(ts[1].lexeme, "7");
    assert!(matches!(&ts[3].literal, Some(Literal::Number(n)) if n == "3"));
}

#[test]
fn strings_carry_their_contents() {
    let ts = lex("\"hi there\"");
    assert_eq!(kinds(&ts), vec![TokenType::Str, TokenType::EndFile]);
    assert_eq!(ts[0].lexeme, "\"hi there\"");
    assert!(matches!(&ts[0].literal, Some(Literal::String(s)) if s == "hi there"));
}

#[test]
fn comments_and_whitespace_are_skipped_and_lines_counted() {
    let ts = lex("// a comment\nprint x; // another\n\n  y");
    assert_eq!(kinds(&ts), vec![TokenType::Print, TokenType::Identifier, TokenType::Semicolon, TokenType::Identifier, TokenType::EndFile]);
    assert_eq!(ts[0].line, 1);
    assert_eq!(ts[3].line, 3);
    assert_eq!(ts[4].line, 3);
}

#[test]
fn keywords_and_identifiers() {
    let ts = lex("and class else false for fun if nil or print return super this true var while whilst");
    assert_eq!(
        kinds(&ts),
        vec![
            TokenType::And,
            TokenType::Class,
            TokenType::Else,
            TokenType::False,
            TokenType::For,
            TokenType::Fun,
            TokenType::If,
            TokenType::Nil,
            TokenType::Or,
            TokenType::Print,
            TokenType::Return,
            TokenType::Super,
            TokenType::This,
            TokenType::True,
            TokenType::Var,
            TokenType::While,
            TokenType::Identifier,
            TokenType::EndFile
        ]
    );
}

#[test]
fn unexpected_characters_are_skipped() {
    let ts = lex("a @ b");
    assert_eq!(kinds(&ts), vec![TokenType::Identifier, TokenType::Identifier, TokenType::EndFile]);
}

#[test]
fn unterminated_string_gives_no_token() {
    let ts = lex("x \"abc");
    assert_eq!(kinds(&ts), vec![TokenType::Identifier, TokenType::EndFile]);
}

#[test]
fn newline_before_closing_quote_stays_in_the_string() {
    let ts = lex("\"a\n\"");
    assert_eq!(kinds(&ts), vec![TokenType::Str, TokenType::EndFile]);
    assert_eq!(ts[0].lexeme, "\"a\n\"");
    assert!(matches!(&ts[0].literal, Some(Literal::String(s)) if s == "a\n"));
    assert_eq!(ts[0].line, 1);
    assert_eq!(ts[1].line, 1);
}

#[test]
fn string_ending_in_newline_at_end_is_unterminated() {
    let ts = lex("\"abc\n");
    assert_eq!(kinds(&ts), vec![TokenType::EndFile]);
    assert_eq!(ts[0].line, 1);
}

#[test]
fn multi_line_string_counts_lines() {
    let ts = lex("\"a\nb\" x");
    assert_eq!(kinds(&ts), vec![TokenType::Str, TokenType::Identifier, TokenType::EndFile]);
    assert!(matches!(&ts[0].literal, Some(Literal::String(s)) if s == "a\nb"));
    assert_eq!(ts[0].line, 1);
    assert_eq!(ts[1].line, 1);
}

#[test]
fn empty_input_is_just_the_end() {
    let ts = lex("");
    assert_eq!(kinds(&ts), vec![TokenType::EndFile]);
    assert_eq!(ts[0].line, 0);
}

#[test]
fn from_ident_maps_keywords() {
    assert_eq!(TokenType::from_ident("class"), TokenType::Class);
    assert_eq!(TokenType::from_ident("while"), TokenType::While);
    assert_eq!(TokenType::from_ident("classy"), TokenType::Identifier);
    assert_eq!(TokenType::from_ident(""), TokenType::Identifier);
}

#[test]
fn lexer_reports_unexpected_characters_and_unterminated_strings() {
    let (ts, errs) = Lexer::new("a @ b \"open").scan_tokens_with_errors();
    assert_eq!(kinds(&ts), vec![TokenType::Identifier, TokenType::Identifier, TokenType::EndFile]);
    assert_eq!(errs, vec![LexError::UnexpectedCharacter('@'), LexError::UnterminatedString]);
    let (_, errs) = Lexer::new("var s = \"ab\";\n").scan_tokens_with_errors();
    assert!(errs.is_empty());
}

#[test]
fn declaration_with_string_scans_to_exact_tokens() {
    let ts = lex("var s = \"ab\";\n");
    assert_eq!(
        ts.iter().map(|t| (t.token_type, t.lexeme.as_str(), t.line)).collect::<Vec<_>>(),
        vec![
            (TokenType::Var, "var", 0),
            (TokenType::Identifier, "s", 0),
            (TokenType::Equal, "=", 0),
            (TokenType::Str, "\"ab\"", 0),
            (TokenType::Semicolon, ";", 0),
            (TokenType::EndFile, "", 1),
        ]
    );
    assert!(matches!(&ts[3].literal, Some(Literal::String(s)) if s == "ab"));
}
