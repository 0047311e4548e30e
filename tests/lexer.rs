use assembler::error::{result_split, Error, InnerError, SrcFileInfo, SrcFileLoc};
use assembler::lexer::{parse_number, tokenize, Lexer, LexerErr};
use assembler::specs::{Mnemonic, Operand, Register};
use assembler::token::{Span, Token, TokenType};
use std::path::PathBuf;

fn chars(s: &str) -> Vec<char> {
    s.chars().collect()
}

fn token(token_type: TokenType, content: &str, line: usize, range: std::ops::Range<usize>) -> Token {
    Token::new(token_type, content.to_string(), line, range)
}

#[test]
fn tokens_with_spans() {
    let source = chars("loop: MOV A 0x1F ; comment\n\tJMP #loop2 [B]");
    let tokens = tokenize(&source).unwrap();
    let expected = vec![
        token(TokenType::Label("loop".to_string()), "loop", 0, 0..5),
        token(TokenType::Mnemonic(Mnemonic::new("MOV".to_string())), "MOV", 0, 6..9),
        token(TokenType::Register(Register::A), "A", 0, 10..11),
        token(TokenType::Number(31), "0x1F", 0, 12..16),
        token(TokenType::Mnemonic(Mnemonic::new("JMP".to_string())), "JMP", 1, 1..4),
        token(TokenType::LabelRef("loop2".to_string()), "loop2", 1, 5..11),
        token(TokenType::LeftSquareBracket, "[", 1, 12..13),
        token(TokenType::Register(Register::B), "B", 1, 13..14),
        token(TokenType::RightSquareBracket, "]", 1, 14..15),
    ];
    assert_eq!(tokens, expected);
    for (t, e) in tokens.iter().zip(expected.iter()) {
        assert_eq!(t.span, e.span);
    }
}

#[test]
fn number_formats() {
    let tokens = tokenize(&chars("0b101 017 0 -5 42 0xff")).unwrap();
    let values: Vec<TokenType> = tokens.into_iter().map(|t| t.token_type).collect();
    assert_eq!(
        values,
        vec![
            TokenType::Number(5),
            TokenType::Number(15),
            TokenType::Number(0),
            TokenType::Number(-5),
            TokenType::Number(42),
            TokenType::Number(255),
        ]
    );
}

#[test]
fn parse_number_prefixes() {
    assert_eq!(parse_number("0x1F"), Some(31));
    assert_eq!(parse_number("0b11"), Some(3));
    assert_eq!(parse_number("010"), Some(8));
    assert_eq!(parse_number("-0x10"), Some(-16));
    assert_eq!(parse_number("9223372036854775807"), Some(i64::MAX));
    assert_eq!(parse_number("-9223372036854775808"), Some(i64::MIN));
    assert_eq!(parse_number("9223372036854775808"), None);
    assert_eq!(parse_number("09"), None);
    assert_eq!(parse_number("0x"), None);
    assert_eq!(parse_number(""), None);
}

#[test]
fn bad_numbers() {
    assert_eq!(
        tokenize(&chars("09 0b2 0x")),
        Err(vec![
            LexerErr::NumberParseError("09".to_string(), Span::new(0, 0..2)),
            LexerErr::NumberParseError("0b2".to_string(), Span::new(0, 3..6)),
            LexerErr::NumberParseError("0x".to_string(), Span::new(0, 7..9)),
        ])
    );
}

#[test]
fn label_must_begin_line() {
    assert_eq!(
        tokenize(&chars("NOP\n  here: NOP")),
        Err(vec![LexerErr::LabelParseError("here".to_string(), Span::new(1, 2..7))])
    );
}

#[test]
fn unknown_tokens_do_not_stop_lexing() {
    assert_eq!(
        tokenize(&chars("NOP @ foo\n-")),
        Err(vec![
            LexerErr::UnknownToken("@".to_string(), Span::new(0, 4..5)),
            LexerErr::UnknownToken("foo".to_string(), Span::new(0, 6..9)),
            LexerErr::UnknownToken("-".to_string(), Span::new(1, 0..1)),
        ])
    );
}

#[test]
fn next_token_steps() {
    let source = chars("  byte 1");
    let mut lexer = Lexer::new(&source);
    assert_eq!(
        lexer.next_token(),
        Some(Ok(token(TokenType::Byte, "byte", 0, 2..6)))
    );
    let number = lexer.next_token().unwrap().unwrap();
    assert_eq!(number.token_type, TokenType::Number(1));
    assert_eq!(number.span, Span::new(0, 7..8));
    assert_eq!(lexer.next_token(), None);
    assert_eq!(lexer.next_token(), None);
    let source = chars(" \u{3000}\u{a0}NOP\u{2028}");
    let tokens = tokenize(&source).unwrap();
    assert_eq!(tokens[0].span, Span::new(0, 3..6));
}

#[test]
fn comments_only() {
    assert_eq!(tokenize(&chars("; nothing here\n   ; nor here")), Ok(vec![]));
}

#[test]
fn token_equality_ignores_span() {
    let a = token(TokenType::Number(3), "3", 0, 0..1);
    let b = token(TokenType::Number(3), "3", 4, 7..8);
    let c = token(TokenType::Number(3), "03", 0, 0..2);
    assert_eq!(a, b);
    assert_ne!(a, c);
}

#[test]
fn span_merge() {
    let merged = Span::new(0, 4..6).add(Span::new(2, 1..3));
    assert_eq!(merged, Span::new(2, 1..6));
    let merged = Span::new(5, 0..2).add(Span::new(2, 3..4));
    assert_eq!(merged, Span::new(5, 0..4));
}

#[test]
fn vocabulary() {
    assert_eq!(Register::from_str("TL"), Ok(Register::TL));
    assert_eq!(Register::from_str("C"), Err(()));
    assert_eq!(Operand::from_str("MEMZP"), Ok(Operand::Mem8));
    assert_eq!(Operand::from_str("MEM"), Ok(Operand::Mem16));
    assert_eq!(Operand::from_str("STC"), Ok(Operand::Stc));
    assert_eq!(Operand::from_str("B"), Ok(Operand::Register(Register::B)));
    assert_eq!(Operand::from_str("mem"), Err(()));
    assert_eq!(Mnemonic::from_str("HALT"), Ok(Mnemonic::new("HALT".to_string())));
    assert_eq!(Mnemonic::from_str("halt"), Err(()));
}

#[test]
fn result_split_keeps_order() {
    let all_ok: Vec<Result<u8, &str>> = vec![Ok(1), Ok(2)];
    assert_eq!(result_split(all_ok), Ok(vec![1, 2]));
    let mixed: Vec<Result<u8, &str>> = vec![Ok(1), Err("a"), Ok(2), Err("b")];
    assert_eq!(result_split(mixed), Err(vec!["a", "b"]));
    let none: Vec<Result<u8, &str>> = vec![];
    assert_eq!(result_split(none), Ok(vec![]));
}

#[test]
fn diagnostics_places() {
    let inner = InnerError::from(LexerErr::UnknownToken("@".to_string(), Span::new(3, 5..6)));
    assert_eq!(inner.info.loc, Some(SrcFileLoc::at(3, 5)));
    assert!(inner.info.file.is_none());
    let err = Error::Lexer(inner).with_filename(PathBuf::from("prog.asm"));
    match err {
        Error::Lexer(inner) => {
            assert_eq!(inner.info.file, Some(PathBuf::from("prog.asm")));
            assert_eq!(inner.info.loc, Some(SrcFileLoc::at(3, 5)));
        }
        Error::Io(_) => panic!("wrong variant"),
    }
    let info = SrcFileInfo::default();
    assert_eq!(assembler::error::space(&info), "");
    let info = SrcFileInfo::new(PathBuf::from("a"), SrcFileLoc::at(0, 0));
    assert_eq!(assembler::error::space(&info), " ");
}
