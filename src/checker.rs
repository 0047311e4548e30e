use crate::config::{
    bits_value, is_bit_string, lemma_node_at_prefix, lemma_node_at_push,
    node_at, Config, ConfigNode, NodeKey, NodeType,
};
use crate::parser::{deref_operands, deref_tokens, views_of, Line, LineView};
use crate::specs::Operand;
use crate::token::{Span, Token, TokenKind, TokenType};
use vstd::prelude::*;

verus! {

/// Why a parsed line could not be encoded or resolved.
#[derive(Debug, PartialEq, Eq)]
pub enum WriterErr {
    /// The mnemonic has no instruction in the automaton.
    UnknownMnemonic(String, Span),
    /// No instruction continues with an operand of this kind here; or the
    /// operands end before any instruction is complete, and then it names the
    /// mnemonic and spans the whole instruction.
    InvalidOperand(String, Span),
    /// A number outside the range of its byte width.
    NumberOutOfRange(i64, Span),
    /// A reference to a label that no line declares.
    UnknownLabel(String, Span),
}

/// One unit of encoded output whose value may still wait on a label.
#[derive(Debug, PartialEq, Eq)]
pub enum Unresolved {
    /// A byte whose value is known.
    Value(u8),
    /// A label's address: one byte, or two (most significant first) when `wide`.
    LabelRef { name: String, span: Span, wide: bool },
}

/// The encoding of one line.
#[derive(Debug, PartialEq, Eq)]
pub enum CheckedLineCode {
    Byte(Vec<Unresolved>),
    Instruction { mnemonic_code: u8, operand_codes: Vec<Unresolved> },
}

/// A line together with its encoding.
#[derive(Debug)]
pub struct CheckedLine<'a> {
    pub line: Line<'a>,
    pub code: CheckedLineCode,
}

/// The encoding of a line, with its units as a sequence.
pub enum LineCode {
    Data(Seq<Unresolved>),
    Instruction(u8, Seq<Unresolved>),
}

impl View for CheckedLineCode {
    type V = LineCode;

    open spec fn view(&self) -> LineCode {
        match self {
            CheckedLineCode::Byte(us) => LineCode::Data(us@),
            CheckedLineCode::Instruction { mnemonic_code, operand_codes } => LineCode::Instruction(
                *mnemonic_code,
                operand_codes@,
            ),
        }
    }
}

/// The byte that stands for a number in `[-128, 255]` (two's complement below zero).
pub open spec fn byte_of(n: int) -> u8 {
    if n < 0 {
        (n + 256) as u8
    } else {
        n as u8
    }
}

/// The 16-bit word that stands for a number in `[-32768, 65535]`.
pub open spec fn word_of(n: int) -> u16 {
    if n < 0 {
        (n + 65536) as u16
    } else {
        n as u16
    }
}

/// The units that one operand contributes.
pub open spec fn operand_units(kind: Operand, tok: Token) -> Result<Seq<Unresolved>, WriterErr> {
    match kind {
        Operand::Mem8 | Operand::Const => match tok.token_type {
            TokenType::Number(n) => if -128 <= n <= 255 {
                Ok(seq![Unresolved::Value(byte_of(n as int))])
            } else {
                Err(WriterErr::NumberOutOfRange(n, tok.span))
            },
            TokenType::LabelRef(l) => Ok(
                seq![Unresolved::LabelRef { name: l, span: tok.span, wide: false }],
            ),
            _ => Err(WriterErr::InvalidOperand(tok.content, tok.span)),
        },
        Operand::Mem16 => match tok.token_type {
            TokenType::Number(n) => if -32768 <= n <= 65535 {
                Ok(
                    seq![
                        Unresolved::Value((word_of(n as int) / 256) as u8),
                        Unresolved::Value((word_of(n as int) % 256) as u8),
                    ],
                )
            } else {
                Err(WriterErr::NumberOutOfRange(n, tok.span))
            },
            TokenType::LabelRef(l) => Ok(
                seq![Unresolved::LabelRef { name: l, span: tok.span, wide: true }],
            ),
            _ => Err(WriterErr::InvalidOperand(tok.content, tok.span)),
        },
        _ => Ok(Seq::empty()),
    }
}

/// Walks the automaton from `keys` along the operands: the opcode and the
/// operand units, or the first error in operand order.
pub open spec fn check_operands(
    config: Config,
    keys: Seq<NodeKey>,
    ops: Seq<(Operand, Token)>,
    mnemonic: Token,
    whole: Span,
) -> Result<(u8, Seq<Unresolved>), WriterErr>
    decreases ops.len(),
{
    if ops.len() == 0 {
        match config.opcode_of(keys) {
            Some(o) => Ok((bits_value(o) as u8, Seq::empty())),
            None => Err(WriterErr::InvalidOperand(mnemonic.content, whole)),
        }
    } else {
        match operand_units(ops[0].0, ops[0].1) {
            Err(e) => Err(e),
            Ok(u) => {
                let next = keys.push(NodeKey::Operand(ops[0].0));
                if node_at(config.automaton@, next) is None {
                    Err(WriterErr::InvalidOperand(ops[0].1.content, ops[0].1.span))
                } else {
                    match check_operands(config, next, ops.drop_first(), mnemonic, whole) {
                        Err(e) => Err(e),
                        Ok((o, rest)) => Ok((o, u + rest)),
                    }
                }
            },
        }
    }
}

/// The span from a mnemonic to its last operand.
pub open spec fn instruction_span(mnemonic: Token, ops: Seq<(Operand, Token)>) -> Span {
    if ops.len() == 0 {
        mnemonic.span
    } else {
        crate::token::merged(mnemonic.span, ops.last().1.span)
    }
}

/// The encoding of an instruction: its opcode and operand units.
pub open spec fn instruction_code(
    config: Config,
    mnemonic: Token,
    ops: Seq<(Operand, Token)>,
) -> Result<(u8, Seq<Unresolved>), WriterErr> {
    match mnemonic.token_type {
        TokenType::Mnemonic(m) => {
            let keys = seq![NodeKey::Mnemonic(m@)];
            if node_at(config.automaton@, keys) is None {
                Err(WriterErr::UnknownMnemonic(mnemonic.content, mnemonic.span))
            } else {
                check_operands(config, keys, ops, mnemonic, instruction_span(mnemonic, ops))
            }
        },
        _ => Err(WriterErr::UnknownMnemonic(mnemonic.content, mnemonic.span)),
    }
}

/// Checks a number against the range of one byte.
fn parse_num(number: i64, span: &Span) -> (r: Result<u8, WriterErr>)
    ensures
        -128 <= number <= 255 ==> r == Ok::<u8, WriterErr>(byte_of(number as int)),
        !(-128 <= number <= 255) ==> r == Err::<u8, WriterErr>(
            WriterErr::NumberOutOfRange(number, *span),
        ),
{
    if number < -128 || number > 255 {
        return Err(WriterErr::NumberOutOfRange(number, span.clone()));
    }
    if number < 0 {
        Ok((number + 256) as u8)
    } else {
        Ok(number as u8)
    }
}

/// Checks a number against the range of a 16-bit word.
fn parse_wide_num(number: i64, span: &Span) -> (r: Result<u16, WriterErr>)
    ensures
        -32768 <= number <= 65535 ==> r == Ok::<u16, WriterErr>(word_of(number as int)),
        !(-32768 <= number <= 65535) ==> r == Err::<u16, WriterErr>(
            WriterErr::NumberOutOfRange(number, *span),
        ),
{
    if number < -32768 || number > 65535 {
        return Err(WriterErr::NumberOutOfRange(number, span.clone()));
    }
    if number < 0 {
        Ok((number + 65536) as u16)
    } else {
        Ok(number as u16)
    }
}

/// The unit that stands for a reference to a label.
fn parse_labelref(label: &String, span: &Span, wide: bool) -> (r: Unresolved)
    ensures
        r == (Unresolved::LabelRef { name: *label, span: *span, wide }),
{
    Unresolved::LabelRef { name: label.clone(), span: span.clone(), wide }
}

/// Encodes an 8-bit operand: a number, or a label's address to come.
fn parse_value(value: &Token) -> (r: Result<Vec<Unresolved>, WriterErr>)
    ensures
        match operand_units(Operand::Const, *value) {
            Ok(us) => r matches Ok(v) && v@ == us,
            Err(e) => r == Err::<Vec<Unresolved>, WriterErr>(e),
        },
{
    match &value.token_type {
        TokenType::Number(number) => {
            let b = parse_num(*number, &value.span)?;
            Ok(vec![Unresolved::Value(b)])
        },
        TokenType::LabelRef(label) => Ok(vec![parse_labelref(label, &value.span, false)]),
        _ => Err(WriterErr::InvalidOperand(value.content.clone(), value.span.clone())),
    }
}

/// Encodes a 16-bit operand: two bytes, most significant first, or a label's address to come.
fn parse_wide_value(value: &Token) -> (r: Result<Vec<Unresolved>, WriterErr>)
    ensures
        match operand_units(Operand::Mem16, *value) {
            Ok(us) => r matches Ok(v) && v@ == us,
            Err(e) => r == Err::<Vec<Unresolved>, WriterErr>(e),
        },
{
    match &value.token_type {
        TokenType::Number(number) => {
            let w = parse_wide_num(*number, &value.span)?;
            let higher = (w / 256) as u8;
            let lower = (w % 256) as u8;
            Ok(vec![Unresolved::Value(higher), Unresolved::Value(lower)])
        },
        TokenType::LabelRef(label) => Ok(vec![parse_labelref(label, &value.span, true)]),
        _ => Err(WriterErr::InvalidOperand(value.content.clone(), value.span.clone())),
    }
}

/// Encodes one operand of the given kind; registers and flags add no bytes.
fn encode_operand(kind: Operand, value: &Token) -> (r: Result<Vec<Unresolved>, WriterErr>)
    ensures
        match operand_units(kind, *value) {
            Ok(us) => r matches Ok(v) && v@ == us,
            Err(e) => r == Err::<Vec<Unresolved>, WriterErr>(e),
        },
{
    match kind {
        Operand::Mem8 | Operand::Const => parse_value(value),
        Operand::Mem16 => parse_wide_value(value),
        _ => Ok(Vec::new()),
    }
}

/// Encodes an instruction by walking the automaton along its operand kinds.
pub fn check_instruction<'a>(
    config: &Config,
    mnemonic: &Token,
    operands: &Vec<(Operand, &'a Token)>,
) -> (r: Result<CheckedLineCode, WriterErr>)
    requires
        config.wf(),
    ensures
        match instruction_code(*config, *mnemonic, deref_operands(operands@)) {
            Ok((o, us)) => r matches Ok(c) && c@ == LineCode::Instruction(o, us),
            Err(e) => r == Err::<CheckedLineCode, WriterErr>(e),
        },
{
    let m = match &mnemonic.token_type {
        TokenType::Mnemonic(m) => m,
        _ => {
            return Err(WriterErr::UnknownMnemonic(mnemonic.content.clone(), mnemonic.span.clone()));
        },
    };
    let key = NodeType::Mnemonic(m.clone());
    let ghost keys0 = seq![NodeKey::Mnemonic(m@)];
    proof {
        assert(keys0.drop_first() =~= Seq::<NodeKey>::empty());
    }
    let first = match config.start(&key) {
        Some(node) => node,
        None => {
            return Err(WriterErr::UnknownMnemonic(mnemonic.content.clone(), mnemonic.span.clone()));
        },
    };
    let n = operands.len();
    let whole = if n == 0 {
        mnemonic.span.clone()
    } else {
        mnemonic.span.clone().add(operands[n - 1].1.span.clone())
    };
    let mut node: &ConfigNode = first;
    let mut codes: Vec<Unresolved> = Vec::new();
    let ghost mut keys = keys0;
    let mut j: usize = 0;
    proof {
        assert(whole == instruction_span(*mnemonic, deref_operands(operands@)));
        assert(deref_operands(operands@).subrange(0, n as int) =~= deref_operands(operands@));
        assert(codes@ + Seq::<Unresolved>::empty() =~= codes@);
    }
    while j < n
        invariant
            n == operands@.len(),
            j <= n,
            keys.len() >= 1,
            node_at(config.automaton@, keys) == Some(*node),
            instruction_code(*config, *mnemonic, deref_operands(operands@)) == (match check_operands(
                *config,
                keys,
                deref_operands(operands@).subrange(j as int, n as int),
                *mnemonic,
                whole,
            ) {
                Err(e) => Err(e),
                Ok((o, rest)) => Ok((o, codes@ + rest)),
            }),
        decreases n - j,
    {
        let ghost ops = deref_operands(operands@).subrange(j as int, n as int);
        proof {
            assert(ops[0] == (operands@[j as int].0, *operands@[j as int].1));
            assert(ops.drop_first() =~= deref_operands(operands@).subrange(j + 1, n as int));
        }
        let (kind, tok) = operands[j];
        let units = match encode_operand(kind, tok) {
            Ok(u) => u,
            Err(e) => {
                return Err(e);
            },
        };
        let ghost next = keys.push(NodeKey::Operand(kind));
        proof {
            lemma_node_at_push(config.automaton@, keys, NodeKey::Operand(kind));
        }
        let step = NodeType::Operand(kind);
        match node.child(&step) {
            Some(next_node) => {
                node = next_node;
            },
            None => {
                return Err(WriterErr::InvalidOperand(tok.content.clone(), tok.span.clone()));
            },
        }
        let ghost before = codes@;
        let mut units = units;
        codes.append(&mut units);
        proof {
            keys = next;
            assert forall|rest: Seq<Unresolved>| (before + units_seq_of(operand_units(kind, *tok))) + rest
                =~= before + (units_seq_of(operand_units(kind, *tok)) + rest) by {}
        }
        j = j + 1;
    }
    proof {
        lemma_node_at_push(config.automaton@, keys, NodeKey::MachineCode);
        assert(codes@ + Seq::<Unresolved>::empty() =~= codes@);
    }
    let terminal = NodeType::MachineCode;
    match node.child(&terminal) {
        Some(ConfigNode::Leaf(opcode)) => {
            proof {
                assert(config.opcode_of(keys) == Some(opcode@));
                assert(is_bit_string(opcode@));
            }
            let mnemonic_code = crate::config::binary_str_to_byte(opcode.as_str());
            Ok(CheckedLineCode::Instruction { mnemonic_code, operand_codes: codes })
        },
        _ => Err(WriterErr::InvalidOperand(mnemonic.content.clone(), whole)),
    }
}

pub open spec fn units_seq_of(r: Result<Seq<Unresolved>, WriterErr>) -> Seq<Unresolved> {
    match r {
        Ok(us) => us,
        Err(_) => Seq::empty(),
    }
}

/// The units of a data line, or the error of its first bad value.
pub open spec fn byte_units(values: Seq<Token>) -> Result<Seq<Unresolved>, WriterErr>
    decreases values.len(),
{
    if values.len() == 0 {
        Ok(Seq::empty())
    } else {
        match byte_units(values.drop_last()) {
            Err(e) => Err(e),
            Ok(us) => match operand_units(Operand::Const, values.last()) {
                Err(e) => Err(e),
                Ok(u) => Ok(us + u),
            },
        }
    }
}

/// The encoding of one line.
pub open spec fn line_code(config: Config, line: LineView) -> Result<LineCode, WriterErr> {
    match line {
        LineView::Byte(values) => match byte_units(values) {
            Ok(us) => Ok(LineCode::Data(us)),
            Err(e) => Err(e),
        },
        LineView::Instruction(mnemonic, operands) => match instruction_code(
            config,
            mnemonic,
            operands,
        ) {
            Ok((o, us)) => Ok(LineCode::Instruction(o, us)),
            Err(e) => Err(e),
        },
    }
}

/// The name that a label declaration binds.
pub open spec fn label_name(token: Token) -> Seq<char> {
    match token.token_type {
        TokenType::Label(name) => name@,
        _ => token.content@,
    }
}

/// The errors of the lines that cannot be encoded, in line order.
pub open spec fn line_errors(config: Config, lines: Seq<LineView>) -> Seq<WriterErr>
    decreases lines.len(),
{
    if lines.len() == 0 {
        Seq::empty()
    } else {
        let earlier = line_errors(config, lines.drop_last());
        match line_code(config, lines.last()) {
            Err(e) => earlier.push(e),
            Ok(_) => earlier,
        }
    }
}

/// Encodes the values of a data line, one byte each.
fn check_byte(declared_values: &Vec<&Token>) -> (r: Result<CheckedLineCode, WriterErr>)
    ensures
        match byte_units(deref_tokens(declared_values@)) {
            Ok(us) => r matches Ok(c) && c@ == LineCode::Data(us),
            Err(e) => r == Err::<CheckedLineCode, WriterErr>(e),
        },
{
    let mut parsed_values: Vec<Unresolved> = Vec::new();
    let n = declared_values.len();
    let mut i: usize = 0;
    proof {
        assert(deref_tokens(declared_values@).subrange(0, 0) =~= Seq::<Token>::empty());
    }
    while i < n
        invariant
            n == declared_values@.len(),
            i <= n,
            byte_units(deref_tokens(declared_values@).subrange(0, i as int)) == Ok::<Seq<Unresolved>, WriterErr>(
                parsed_values@,
            ),
        decreases n - i,
    {
        proof {
            assert(deref_tokens(declared_values@).subrange(0, i + 1).drop_last() =~= deref_tokens(declared_values@).subrange(
                0,
                i as int,
            ));
        }
        let mut units = match parse_value(declared_values[i]) {
            Ok(u) => u,
            Err(e) => {
                proof {
                    lemma_byte_units_err(deref_tokens(declared_values@), i + 1);
                }
                return Err(e);
            },
        };
        parsed_values.append(&mut units);
        i = i + 1;
    }
    proof {
        assert(deref_tokens(declared_values@).subrange(0, n as int) =~= deref_tokens(declared_values@));
    }
    Ok(CheckedLineCode::Byte(parsed_values))
}

proof fn lemma_byte_units_err(values: Seq<Token>, i: int)
    requires
        0 <= i <= values.len(),
        byte_units(values.subrange(0, i)) is Err,
    ensures
        byte_units(values) == byte_units(values.subrange(0, i)),
    decreases values.len() - i,
{
    if i < values.len() {
        assert(values.subrange(0, i + 1).drop_last() =~= values.subrange(0, i));
        lemma_byte_units_err(values, i + 1);
    } else {
        assert(values.subrange(0, i) =~= values);
    }
}

/// Encodes one line.
fn check_line<'a>(config: &Config, line: &Line<'a>) -> (r: Result<CheckedLineCode, WriterErr>)
    requires
        config.wf(),
    ensures
        match line_code(*config, line@) {
            Ok(c) => r matches Ok(v) && v@ == c,
            Err(e) => r == Err::<CheckedLineCode, WriterErr>(e),
        },
{
    match line {
        Line::Byte(declared_values) => check_byte(declared_values),
        Line::Instruction { mnemonic, operands } => check_instruction(config, mnemonic, operands),
    }
}

/// Encodes every line. Lines are checked independently: the result holds
/// either all the encodings or the error of each line that failed.
pub fn check_semantics<'a>(lines: Vec<Line<'a>>, config: &Config) -> (r: Result<
    Vec<CheckedLine<'a>>,
    Vec<WriterErr>,
>)
    requires
        config.wf(),
    ensures
        line_errors(*config, views_of(lines@)).len() == 0 ==> (r matches Ok(v) && v@.len()
            == lines@.len() && forall|i: int|
            0 <= i < lines@.len() ==> #[trigger] v@[i].line == lines@[i] && line_code(
                *config,
                lines@[i]@,
            ) == Ok::<LineCode, WriterErr>(v@[i].code@)),
        line_errors(*config, views_of(lines@)).len() > 0 ==> (r matches Err(es) && es@
            == line_errors(*config, views_of(lines@))),
{
    let n = lines.len();
    let mut pending = lines;
    let mut reversed: Vec<Line<'a>> = Vec::new();
    while pending.len() > 0
        invariant
            pending@.len() + reversed@.len() == n,
            n == lines@.len(),
            forall|i: int| 0 <= i < pending@.len() ==> pending@[i] == lines@[i],
            forall|i: int|
                0 <= i < reversed@.len() ==> reversed@[i] == lines@[n - 1 - i],
        decreases pending@.len(),
    {
        let line = pending.pop().unwrap();
        reversed.push(line);
    }
    let mut checked_lines: Vec<CheckedLine<'a>> = Vec::new();
    let mut errors: Vec<WriterErr> = Vec::new();
    let mut i: usize = 0;
    while i < n
        invariant
            n == lines@.len(),
            i <= n,
            reversed@.len() == n - i,
            forall|k: int| 0 <= k < reversed@.len() ==> reversed@[k] == lines@[n - 1 - k],
            config.wf(),
            errors@ == line_errors(*config, views_of(lines@).subrange(0, i as int)),
            errors@.len() == 0 ==> checked_lines@.len() == i && forall|k: int|
                0 <= k < i ==> #[trigger] checked_lines@[k].line == lines@[k] && line_code(
                    *config,
                    lines@[k]@,
                ) == Ok::<LineCode, WriterErr>(checked_lines@[k].code@),
        decreases n - i,
    {
        let line = reversed.pop().unwrap();
        proof {
            assert(views_of(lines@).subrange(0, i + 1).drop_last() =~= views_of(lines@).subrange(0, i as int));
            assert(views_of(lines@).subrange(0, i + 1).last() == lines@[i as int]@);
        }
        match check_line(config, &line) {
            Ok(code) => {
                if errors.len() == 0 {
                    checked_lines.push(CheckedLine { line, code });
                }
            },
            Err(e) => {
                errors.push(e);
            },
        }
        i = i + 1;
    }
    proof {
        assert(views_of(lines@).subrange(0, n as int) =~= views_of(lines@));
    }
    if errors.len() == 0 {
        Ok(checked_lines)
    } else {
        Err(errors)
    }
}

/// The edge keys of the operand kinds of an operand list.
pub open spec fn kinds_of(ops: Seq<(Operand, Token)>) -> Seq<NodeKey> {
    ops.map_values(|p: (Operand, Token)| NodeKey::Operand(p.0))
}

/// The units of all operands, in order.
pub open spec fn all_operand_units(ops: Seq<(Operand, Token)>) -> Seq<Unresolved>
    decreases ops.len(),
{
    if ops.len() == 0 {
        Seq::empty()
    } else {
        units_seq_of(operand_units(ops[0].0, ops[0].1)) + all_operand_units(ops.drop_first())
    }
}

proof fn lemma_check_operands_registered(
    config: Config,
    keys: Seq<NodeKey>,
    ops: Seq<(Operand, Token)>,
    mnemonic: Token,
    whole: Span,
    opcode: Seq<char>,
)
    requires
        keys.len() >= 1,
        config.opcode_of(keys + kinds_of(ops)) == Some(opcode),
        forall|i: int| 0 <= i < ops.len() ==> #[trigger] operand_units(ops[i].0, ops[i].1) is Ok,
    ensures
        check_operands(config, keys, ops, mnemonic, whole) == Ok::<
            (u8, Seq<Unresolved>),
            WriterErr,
        >((bits_value(opcode) as u8, all_operand_units(ops))),
    decreases ops.len(),
{
    if ops.len() == 0 {
        assert(keys + kinds_of(ops) =~= keys);
    } else {
        let next = keys.push(NodeKey::Operand(ops[0].0));
        let full = (keys + kinds_of(ops)).push(NodeKey::MachineCode);
        assert(node_at(config.automaton@, full) is Some);
        lemma_node_at_prefix(config.automaton@, full, keys.len() as int + 1);
        assert(full.subrange(0, keys.len() as int + 1) =~= next);
        assert(next + kinds_of(ops.drop_first()) =~= keys + kinds_of(ops));
        assert forall|i: int| 0 <= i < ops.drop_first().len() implies #[trigger] operand_units(
            ops.drop_first()[i].0,
            ops.drop_first()[i].1,
        ) is Ok by {
            assert(ops.drop_first()[i] == ops[i + 1]);
        }
        assert(operand_units(ops[0].0, ops[0].1) is Ok);
        lemma_check_operands_registered(config, next, ops.drop_first(), mnemonic, whole, opcode);
    }
}

/// An instruction registered in the automaton, with operands whose values fit
/// their kinds, encodes as its opcode followed by each operand's units in
/// operand order: one byte for an 8-bit operand, two (most significant first)
/// for a 16-bit one, none for a register.
pub proof fn lemma_round_trip(
    config: Config,
    mnemonic: Token,
    name: Seq<char>,
    ops: Seq<(Operand, Token)>,
    opcode: Seq<char>,
)
    requires
        mnemonic.token_type@ == TokenKind::Mnemonic(name),
        config.opcode_of(seq![NodeKey::Mnemonic(name)] + kinds_of(ops)) == Some(opcode),
        forall|i: int| 0 <= i < ops.len() ==> #[trigger] operand_units(ops[i].0, ops[i].1) is Ok,
    ensures
        instruction_code(config, mnemonic, ops) == Ok::<(u8, Seq<Unresolved>), WriterErr>(
            (bits_value(opcode) as u8, all_operand_units(ops)),
        ),
{
    let keys = seq![NodeKey::Mnemonic(name)];
    let full = (keys + kinds_of(ops)).push(NodeKey::MachineCode);
    lemma_node_at_prefix(config.automaton@, full, 1);
    assert(full.subrange(0, 1) =~= keys);
    lemma_check_operands_registered(
        config,
        keys,
        ops,
        mnemonic,
        instruction_span(mnemonic, ops),
        opcode,
    );
}

} // verus!
