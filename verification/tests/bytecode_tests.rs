use alv::chunk::{decode, listing_at, Chunk, IError, Instruction, Step, OPCODE, VM};
use alv::scanner::{Compiler, Scanner, TokenType};

#[test]
fn opcodes_round_trip_through_bytes() {
    for b in 0u8..7 {
        let op = OPCODE::from_u8(b).expect("an operation");
        let back: u8 = op.into();
        assert_eq!(back, b);
    }
    assert_eq!(OPCODE::from_u8(7), None);
    assert_eq!(OPCODE::from_u8(255), None);
    let r: u8 = OPCODE::Return.into();
    assert_eq!(r, 6);
}

#[test]
fn chunk_records_code_lines_and_constants() {
    let mut c: Chunk<f64> = Chunk::new();
    let i = c.add_constant(1.2);
    assert_eq!(i, 0);
    assert_eq!(c.add_constant(3.4), 1);
    c.write_code(OPCODE::Constant.into(), 123);
    c.write_code(i as u8, 123);
    c.write_code(OPCODE::Return.into(), 124);
    assert_eq!(c.code, vec![0, 0, 6]);
    assert_eq!(c.lines, vec![123, 123, 124]);
    assert_eq!(c.constants, vec![1.2, 3.4]);
}

#[test]
fn decoding_and_listing() {
    let mut c: Chunk<f64> = Chunk::new();
    c.add_constant(1.5);
    c.write_code(0, 1);
    c.write_code(0, 1);
    c.write_code(6, 2);
    assert_eq!(decode(&c.code, 0), Some((Instruction::Constant(0), 2)));
    assert_eq!(decode(&c.code, 2), Some((Instruction::Return, 3)));
    assert_eq!(decode(&c.code, 3), None);
    let l0 = listing_at(&c, 0).unwrap();
    assert_eq!((l0.line, l0.next), (Some(1), 2));
    let l1 = listing_at(&c, 1).unwrap();
    assert_eq!((l1.line, l1.instruction, l1.next), (None, Instruction::Constant(6), 3));
    let l2 = listing_at(&c, 2).unwrap();
    assert_eq!(l2.line, Some(2));
    let truncated = vec![0u8];
    assert_eq!(decode(&truncated, 0), None);
    assert_eq!(decode(&vec![9u8], 0), None);
}

#[test]
fn the_machine_steps_through_a_chunk() {
    let mut c: Chunk<f64> = Chunk::new();
    c.add_constant(1.5);
    c.write_code(0, 1);
    c.write_code(0, 1);
    c.write_code(6, 1);
    let mut vm = VM::new();
    assert_eq!(vm.step(&c), Ok(Step::Constant(0)));
    assert_eq!(vm.step(&c), Ok(Step::Return));
    assert_eq!(vm.step(&c), Err(IError::RuntimeError));
    vm.reset();
    assert_eq!(vm.step(&c), Ok(Step::Constant(0)));
}

#[test]
fn bad_constant_index_is_a_runtime_error() {
    let mut c: Chunk<f64> = Chunk::new();
    c.write_code(0, 1);
    c.write_code(3, 1);
    let mut vm = VM::new();
    assert_eq!(vm.step(&c), Err(IError::RuntimeError));
    let mut add: Chunk<f64> = Chunk::new();
    add.write_code(1, 1);
    assert_eq!(VM::new().step(&add), Err(IError::RuntimeError));
}

#[test]
fn scanner_hands_out_tokens() {
    let mut s = Scanner::new("var x = 10.5; // note\n\"str\" orchid or");
    let expected = [
        (TokenType::Var, "var", 1),
        (TokenType::Identifier, "x", 1),
        (TokenType::Equal, "=", 1),
        (TokenType::Num, "10.5", 1),
        (TokenType::Semicolon, ";", 1),
        (TokenType::Str, "\"str\"", 2),
        (TokenType::Identifier, "orchid", 2),
        (TokenType::Or, "or", 2),
        (TokenType::EndFile, "", 2),
        (TokenType::EndFile, "", 2),
    ];
    for (ty, text, line) in expected {
        let t = s.scan_token();
        assert_eq!(t.ty(), ty);
        assert_eq!(t.text(), text.as_bytes());
        assert_eq!(t.line(), line);
    }
}

#[test]
fn scanner_errors() {
    let mut s = Scanner::new("@ \"open");
    let t = s.scan_token();
    assert_eq!(t.ty(), TokenType::Error);
    assert_eq!(t.text(), b"Unexpected character.");
    let t = s.scan_token();
    assert_eq!(t.ty(), TokenType::Error);
    assert_eq!(t.text(), b"Unterminated string.");
}

#[test]
fn scanner_keywords() {
    let cases = [
        ("and", TokenType::And),
        ("class", TokenType::Class),
        ("else", TokenType::Else),
        ("false", TokenType::False),
        ("for", TokenType::For),
        ("fun", TokenType::Fun),
        ("if", TokenType::If),
        ("nil", TokenType::Nil),
        ("or", TokenType::Or),
        ("print", TokenType::Print),
        ("return", TokenType::Return),
        ("super", TokenType::Super),
        ("this", TokenType::This),
        ("true", TokenType::True),
        ("var", TokenType::Var),
        ("while", TokenType::While),
        ("fort", TokenType::Identifier),
        ("th", TokenType::Identifier),
        ("t", TokenType::Identifier),
        ("_x1", TokenType::Identifier),
    ];
    for (word, ty) in cases {
        let mut s = Scanner::new(word);
        assert_eq!(s.scan_token().ty(), ty, "{}", word);
    }
}

#[test]
fn compiler_scans_to_the_end() {
    let c = Compiler {};
    let tokens = c.compile("print 1 + 2;");
    let kinds: Vec<TokenType> = tokens.iter().map(|t| t.ty()).collect();
    assert_eq!(
        kinds,
        vec![TokenType::Print, TokenType::Num, TokenType::Plus, TokenType::Num, TokenType::Semicolon, TokenType::EndFile]
    );
    assert_eq!(c.compile("").len(), 1);
}

#[test]
fn write_code_appends_even_without_matching_lines() {
    let mut c: Chunk<f64> = Chunk::new();
    c.lines.push(7);
    c.write_code(1, 3);
    assert_eq!(c.code, vec![1]);
    assert_eq!(c.lines, vec![7, 3]);
}

#[test]
fn identifier_type_classifies_the_word_just_scanned() {
    for (src, ty) in [
        ("class", TokenType::Class),
        ("classy", TokenType::Identifier),
        ("fo", TokenType::Identifier),
        ("for", TokenType::For),
        ("fore", TokenType::Identifier),
        ("  while", TokenType::While),
    ] {
        let mut sc = Scanner::new(src);
        let t = sc.scan_token();
        assert_eq!(t.ty(), ty);
        assert_eq!(sc.identifier_type(), ty);
    }
}

#[test]
fn scanning_only_blanks_gives_end_of_input() {
    let mut sc = Scanner::new("  // note\n\t ");
    let t = sc.scan_token();
    assert_eq!(t.ty(), TokenType::EndFile);
    assert_eq!(t.line(), 2);
    let t = sc.scan_token();
    assert_eq!(t.ty(), TokenType::EndFile);
}
