use assembler::checker::{check_semantics, CheckedLineCode, Unresolved, WriterErr};
use assembler::config::binary_str_to_byte;
use assembler::pipeline::bit_string;
use assembler::resolver::{get_resolved_labels, resolve, LabelTable};
use assembler::config::{Config, ConfigError, InstructionDesc};
use assembler::parser::{parse, parse_lines, Expected, Line, ParserErr};
use assembler::pipeline::{assemble, AsmError};
use assembler::lexer::tokenize;
use assembler::token::Span;

fn desc(mnemonic: &str, arguments: &[&str], opcode: &str) -> InstructionDesc {
    InstructionDesc {
        mnemonic: mnemonic.to_string(),
        arguments: arguments.iter().map(|a| a.to_string()).collect(),
        opcode: opcode.to_string(),
        depend_on_flag: String::new(),
    }
}

fn instruction_set() -> Vec<InstructionDesc> {
    vec![
        desc("NOP", &[], "00000000"),
        desc("NOP", &["A"], "00000001"),
        desc("MOV", &["A", "CONST"], "00010001"),
        desc("MOV", &["MEM", "A"], "00010010"),
        desc("JMP", &["CONST"], "00100000"),
        desc("JMP", &["MEM"], "00100001"),
        desc("PUSH", &["CONST"], "00110000"),
        desc("HALT", &[], "11111111"),
        desc("POP", &["B"], "101"),
    ]
}

fn config() -> Config {
    Config::from_instructions(&instruction_set()).unwrap()
}

fn run(source: &str) -> Result<Vec<u8>, AsmError> {
    let chars: Vec<char> = source.chars().collect();
    assemble(&chars, &config())
}

#[test]
fn round_trip_encoding() {
    assert_eq!(run("MOV A 5"), Ok(vec![0b0001_0001, 5]));
    assert_eq!(run("MOV [0x1234] A"), Ok(vec![0b0001_0010, 0x12, 0x34]));
    assert_eq!(run("PUSH -1"), Ok(vec![0b0011_0000, 0xFF]));
    assert_eq!(run("HALT"), Ok(vec![0xFF]));
}

#[test]
fn short_opcode_is_right_aligned() {
    assert_eq!(run("POP B"), Ok(vec![5]));
}

#[test]
fn range_boundary_eight_bit() {
    assert_eq!(run("PUSH 255"), Ok(vec![0b0011_0000, 255]));
    assert_eq!(run("PUSH -128"), Ok(vec![0b0011_0000, 0x80]));
    assert_eq!(
        run("PUSH 256"),
        Err(AsmError::Writer(vec![WriterErr::NumberOutOfRange(256, Span::new(0, 5..8))]))
    );
    assert_eq!(
        run("PUSH -129"),
        Err(AsmError::Writer(vec![WriterErr::NumberOutOfRange(-129, Span::new(0, 5..9))]))
    );
}

#[test]
fn range_boundary_sixteen_bit() {
    assert_eq!(run("JMP [65535]"), Ok(vec![0b0010_0001, 0xFF, 0xFF]));
    assert_eq!(run("JMP [-32768]"), Ok(vec![0b0010_0001, 0x80, 0x00]));
    assert_eq!(
        run("JMP [65536]"),
        Err(AsmError::Writer(vec![WriterErr::NumberOutOfRange(65536, Span::new(0, 5..10))]))
    );
}

#[test]
fn forward_reference() {
    assert_eq!(run("JMP #start\nstart: NOP"), Ok(vec![0b0010_0000, 2, 0]));
}

#[test]
fn wide_label_reference() {
    assert_eq!(
        run("JMP [#target]\ntarget: HALT"),
        Ok(vec![0b0010_0001, 0x00, 0x03, 0xFF])
    );
}

#[test]
fn backward_reference_and_data() {
    assert_eq!(run("top: NOP\nbyte 7 #top #end\nend:"), Ok(vec![0, 7, 0, 4]));
}

#[test]
fn later_label_declaration_replaces_earlier() {
    assert_eq!(run("x: NOP\nx: NOP\nJMP #x"), Ok(vec![0, 0, 0b0010_0000, 1]));
}

#[test]
fn unknown_label() {
    assert_eq!(
        run("JMP #nowhere"),
        Err(AsmError::Writer(vec![WriterErr::UnknownLabel(
            "nowhere".to_string(),
            Span::new(0, 4..12)
        )]))
    );
}

#[test]
fn parser_recovery_keeps_good_lines() {
    let chars: Vec<char> = "NOP\n5 6\nNOP".chars().collect();
    let tokens = tokenize(&chars).unwrap();
    let (lines, errors, _labels) = parse_lines(&tokens);
    assert_eq!(lines.len(), 2);
    assert!(matches!(lines[0], Line::Instruction { .. }));
    assert!(matches!(lines[1], Line::Instruction { .. }));
    assert_eq!(
        errors,
        vec![ParserErr::UnexpectedLineBeginning("5".to_string(), Span::new(1, 0..1))]
    );
    assert_eq!(
        parse(&tokens).unwrap_err(),
        vec![ParserErr::UnexpectedLineBeginning("5".to_string(), Span::new(1, 0..1))]
    );
}

#[test]
fn parser_recovery_after_bad_operand() {
    let chars: Vec<char> = "NOP\nMOV [5 A\nNOP".chars().collect();
    let tokens = tokenize(&chars).unwrap();
    let (lines, errors, _labels) = parse_lines(&tokens);
    assert_eq!(lines.len(), 2);
    assert_eq!(
        errors,
        vec![ParserErr::UnexpectedToken(
            Expected::RightSquareBracket,
            "A".to_string(),
            Span::new(1, 7..8)
        )]
    );
}

#[test]
fn parser_reports_end_of_line() {
    assert_eq!(
        run("MOV [\nNOP"),
        Err(AsmError::Parser(vec![ParserErr::EOF(Expected::NumberOrLabelRef, Span::new(0, 4..5))]))
    );
    assert_eq!(
        run("JMP [ A ]"),
        Err(AsmError::Parser(vec![ParserErr::UnexpectedToken(
            Expected::NumberOrLabelRef,
            "A".to_string(),
            Span::new(0, 6..7)
        )]))
    );
}

#[test]
fn every_bad_line_is_reported() {
    assert_eq!(
        run("]\nNOP\n[\nHALT"),
        Err(AsmError::Parser(vec![
            ParserErr::UnexpectedLineBeginning("]".to_string(), Span::new(0, 0..1)),
            ParserErr::UnexpectedLineBeginning("[".to_string(), Span::new(2, 0..1)),
        ]))
    );
}

#[test]
fn terminal_disambiguation() {
    assert_eq!(run("NOP"), Ok(vec![0]));
    assert_eq!(run("NOP A"), Ok(vec![1]));
    assert_eq!(run("NOP\nNOP A\nNOP"), Ok(vec![0, 1, 0]));
}

#[test]
fn idempotence() {
    let source = "loop: MOV A 3\nJMP #loop\nbyte 1 2 3";
    let first = run(source);
    let second = run(source);
    assert_eq!(first, second);
    assert_eq!(first, Ok(vec![0b0001_0001, 3, 0b0010_0000, 0, 1, 2, 3]));
}

#[test]
fn checker_errors_are_collected() {
    assert_eq!(
        run("MOV B 1\nMOV A\nCMP A"),
        Err(AsmError::Writer(vec![
            WriterErr::InvalidOperand("B".to_string(), Span::new(0, 4..5)),
            WriterErr::InvalidOperand("MOV".to_string(), Span::new(1, 0..5)),
            WriterErr::UnknownMnemonic("CMP".to_string(), Span::new(2, 0..3)),
        ]))
    );
}

#[test]
fn config_rejects_unknown_operand() {
    let r = Config::from_instructions(&vec![desc("NOP", &[], "0"), desc("MOV", &["A", "FOO"], "1")]);
    assert_eq!(r.unwrap_err(), ConfigError::UnknownOperand("FOO".to_string()));
}

#[test]
fn config_rejects_bad_opcode() {
    let r = Config::from_instructions(&vec![desc("NOP", &[], "0102")]);
    assert_eq!(r.unwrap_err(), ConfigError::InvalidOpcode("0102".to_string()));
    let r = Config::from_instructions(&vec![desc("NOP", &[], "000000000")]);
    assert_eq!(r.unwrap_err(), ConfigError::InvalidOpcode("000000000".to_string()));
}

#[test]
fn config_rejects_duplicate_path() {
    let mut descs = instruction_set();
    descs.push(desc("JMP", &["MEM16"], "01010101"));
    let r = Config::from_instructions(&descs);
    assert_eq!(r.unwrap_err(), ConfigError::DuplicateInstruction("JMP".to_string()));
}

#[test]
fn config_joins_flag_suffix() {
    let mut with_flag = desc("NO", &[], "00000111");
    with_flag.depend_on_flag = "P".to_string();
    let config = Config::from_instructions(&vec![with_flag]).unwrap();
    let chars: Vec<char> = "NOP".chars().collect();
    assert_eq!(assemble(&chars, &config), Ok(vec![7]));
    let r = Config::from_instructions(&vec![desc("NOP", &[], "0"), {
        let mut d = desc("NO", &[], "1");
        d.depend_on_flag = "P".to_string();
        d
    }]);
    assert_eq!(r.unwrap_err(), ConfigError::DuplicateInstruction("NO".to_string()));
}

#[test]
fn bit_strings_are_eight_characters() {
    assert_eq!(bit_string(0), "00000000");
    assert_eq!(bit_string(5), "00000101");
    assert_eq!(bit_string(0x80), "10000000");
    assert_eq!(bit_string(255), "11111111");
}

#[test]
fn stages_by_hand() {
    let config = config();
    let chars: Vec<char> = "JMP [#end]\nPUSH 3\nend: HALT".chars().collect();
    let tokens = tokenize(&chars).unwrap();
    let (lines, errors, labels) = parse_lines(&tokens);
    assert!(errors.is_empty());
    assert_eq!(lines.len(), 3);
    assert_eq!(labels.len(), 1);
    assert_eq!(labels[0].1, 2);
    let checked = check_semantics(lines, &config).unwrap();
    assert_eq!(
        checked[0].code,
        CheckedLineCode::Instruction {
            mnemonic_code: 0b0010_0001,
            operand_codes: vec![Unresolved::LabelRef {
                name: "end".to_string(),
                span: Span::new(0, 5..9),
                wide: true,
            }],
        }
    );
    let table = get_resolved_labels(&checked, &labels);
    assert_eq!(table.lookup(&"end".to_string()), Some(5));
    assert_eq!(table.lookup(&"start".to_string()), None);
    assert_eq!(
        resolve(&checked, &table),
        Ok(vec![0b0010_0001, 0, 5, 0b0011_0000, 3, 0xFF])
    );
}

#[test]
fn labels_make_no_lines() {
    let chars: Vec<char> = "only:".chars().collect();
    let tokens = tokenize(&chars).unwrap();
    assert_eq!(parse(&tokens).unwrap().len(), 0);
    let (lines, errors, labels) = parse_lines(&tokens);
    assert!(lines.is_empty() && errors.is_empty());
    assert_eq!(labels.len(), 1);
    assert_eq!(labels[0].1, 0);
    assert_eq!(run("only:"), Ok(vec![]));
    assert_eq!(run("NOP\nend:\nJMP #end"), Ok(vec![0, 0b0010_0000, 1]));
}

#[test]
fn too_few_operands_is_an_invalid_operand() {
    assert_eq!(
        run("MOV A"),
        Err(AsmError::Writer(vec![WriterErr::InvalidOperand("MOV".to_string(), Span::new(0, 0..5))]))
    );
}

#[test]
fn label_table_overwrites() {
    let mut table = LabelTable::new();
    table.insert("a".to_string(), 1);
    table.insert("b".to_string(), 2);
    table.insert("a".to_string(), 7);
    assert_eq!(table.lookup(&"a".to_string()), Some(7));
    assert_eq!(table.lookup(&"b".to_string()), Some(2));
    assert_eq!(table.entries.len(), 2);
}

#[test]
fn binary_string_conversion() {
    assert_eq!(binary_str_to_byte("00010001"), 0x11);
    assert_eq!(binary_str_to_byte("1"), 1);
    assert_eq!(binary_str_to_byte(""), 0);
    assert_eq!(binary_str_to_byte("11111111"), 255);
}
