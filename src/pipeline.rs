use crate::checker::{
    byte_units, check_operands, check_semantics, label_name, line_code, line_errors, operand_units, LineCode,
    Unresolved, WriterErr,
};
use crate::config::{bits_value, is_bit_string, Config, NodeKey};
use crate::lexer::{
    error_views, lex_errors, lex_from, ok_tokens, push_char, token_views, tokenize, LexerErr,
};
use crate::parser::{
    is_operand_start, is_value, lemma_operands_from_advances, lemma_values_from_advances, on_line,
    operand_at, operands_from, parse_lines, parse_from, values_from, views_of, LineView, ParserErr,
};
use crate::resolver::{
    code_units, codes_of, codes_width, get_resolved_labels, label_table, resolve, resolve_codes,
    resolve_units, units_width,
};
use crate::specs::Operand;
use crate::token::{Token, TokenView};
use vstd::arithmetic::div_mod::{lemma_div_denominator, lemma_fundamental_div_mod};
use vstd::arithmetic::power2::{lemma2_to64, lemma_pow2_pos, lemma_pow2_unfold, pow2};
use vstd::prelude::*;

verus! {

/// The errors of the first stage of the pipeline that failed.
#[derive(Debug, PartialEq, Eq)]
pub enum AsmError {
    Lexer(Vec<LexerErr>),
    Parser(Vec<ParserErr>),
    Writer(Vec<WriterErr>),
}

/// What the stages after the lexer make of a token stream.
pub enum Outcome {
    Bytes(Seq<u8>),
    ParseErrors(Seq<ParserErr>),
    CheckErrors(Seq<WriterErr>),
    LabelErrors(Seq<WriterErr>),
}

/// The encodings of lines that all encode.
pub open spec fn codes_of_lines(config: Config, lines: Seq<LineView>) -> Seq<LineCode> {
    lines.map_values(|l: LineView| line_code(config, l)->Ok_0)
}

/// Parse, check, then resolve labels in two passes; the first stage that
/// fails gives all of its errors.
pub open spec fn outcome_of(toks: Seq<Token>, config: Config) -> Outcome {
    let (lines, perrs, labels) = parse_from(toks, 0, false, 0);
    if perrs.len() > 0 {
        Outcome::ParseErrors(perrs)
    } else {
        let werrs = line_errors(config, lines);
        if werrs.len() > 0 {
            Outcome::CheckErrors(werrs)
        } else {
            let codes = codes_of_lines(config, lines);
            let (bytes, lerrs) = resolve_codes(codes, label_table(codes, labels));
            if lerrs.len() > 0 {
                Outcome::LabelErrors(lerrs)
            } else {
                Outcome::Bytes(bytes)
            }
        }
    }
}

/// A result of the pipeline agrees with the outcome of its tokens.
pub open spec fn result_matches(r: Result<Vec<u8>, AsmError>, o: Outcome) -> bool {
    match o {
        Outcome::Bytes(b) => r matches Ok(v) && v@ == b,
        Outcome::ParseErrors(es) => r matches Err(AsmError::Parser(x)) && x@ == es,
        Outcome::CheckErrors(es) => r matches Err(AsmError::Writer(x)) && x@ == es,
        Outcome::LabelErrors(es) => r matches Err(AsmError::Writer(x)) && x@ == es,
    }
}

/// Assembles source text into machine code for the given instruction set.
///
/// Lexical errors stop the pipeline first; otherwise the tokens (known by
/// their kinds, texts and spans) go through parsing, checking and label
/// resolution as `outcome_of` says.
pub fn assemble(source: &[char], config: &Config) -> (r: Result<Vec<u8>, AsmError>)
    requires
        config.wf(),
    ensures
        assembled(source@, *config, r),
{
    let tokens = match tokenize(source) {
        Ok(ts) => ts,
        Err(es) => {
            return Err(AsmError::Lexer(es));
        },
    };
    let ghost toks = tokens@;
    let (lines, errors, labels) = parse_lines(tokens.as_slice());
    if errors.len() > 0 {
        proof {
            assert(result_matches(Err(AsmError::Parser(errors)), outcome_of(toks, *config)));
        }
        return Err(AsmError::Parser(errors));
    }
    let ghost views = views_of(lines@);
    let checked = match check_semantics(lines, config) {
        Ok(c) => c,
        Err(es) => {
            proof {
                assert(result_matches(Err(AsmError::Writer(es)), outcome_of(toks, *config)));
            }
            return Err(AsmError::Writer(es));
        },
    };
    proof {
        assert forall|i: int| 0 <= i < checked@.len() implies codes_of(checked@)[i]
            == codes_of_lines(*config, views)[i] by {
            assert(checked@[i].line == lines@[i]);
            assert(views[i] == lines@[i]@);
        }
        assert(codes_of(checked@) =~= codes_of_lines(*config, views));
    }
    let table = get_resolved_labels(&checked, &labels);
    let r = match resolve(&checked, &table) {
        Ok(bytes) => Ok(bytes),
        Err(es) => Err(AsmError::Writer(es)),
    };
    proof {
        assert(result_matches(r, outcome_of(toks, *config)));
    }
    r
}

/// The text form of an output byte: exactly eight characters '0' and '1',
/// most significant bit first.
pub fn bit_string(b: u8) -> (r: String)
    ensures
        r@.len() == 8,
        is_bit_string(r@),
        bits_value(r@) == b,
{
    let mut out = String::new();
    let mut d: u32 = 128;
    let mut i: usize = 0;
    proof {
        lemma2_to64();
        assert((b as int) / 256 == 0);
        assert(bits_value(out@) == 0);
    }
    while i < 8
        invariant
            i <= 8,
            out@.len() == i,
            forall|k: int| 0 <= k < i ==> (out@[k] == '0' || out@[k] == '1'),
            i < 8 ==> d == pow2((7 - i) as nat),
            bits_value(out@) == (b as int) / (pow2((8 - i) as nat) as int),
        decreases 8 - i,
    {
        let ghost before = out@;
        let ghost k = (8 - i) as nat;
        proof {
            lemma_pow2_pos((7 - i) as nat);
            lemma_pow2_unfold(k);
            lemma_pow2_pos((k - 1) as nat);
            let y = (b as int) / (pow2((k - 1) as nat) as int);
            lemma_div_denominator(b as int, pow2((k - 1) as nat) as int, 2);
            lemma_fundamental_div_mod(y, 2);
            assert(pow2((k - 1) as nat) * 2 == pow2(k));
        }
        let bit = (b as u32 / d) % 2;
        if bit == 1 {
            push_char(&mut out, '1');
        } else {
            push_char(&mut out, '0');
        }
        proof {
            assert(out@.drop_last() =~= before);
            if i < 7 {
                lemma_pow2_unfold((7 - i) as nat);
            }
        }
        d = d / 2;
        i = i + 1;
    }
    proof {
        lemma2_to64();
        assert(i == 8);
        assert(pow2(0) == 1);
        assert((b as int) / 1 == b as int);
    }
    out
}

/// Operands seen through their tokens' views.
pub open spec fn ops_views(ops: Seq<(Operand, Token)>) -> Seq<(Operand, TokenView)> {
    ops.map_values(|p: (Operand, Token)| (p.0, p.1@))
}

/// A parsed line seen through its tokens' views.
pub enum LineTokens {
    Byte(Seq<TokenView>),
    Instruction(TokenView, Seq<(Operand, TokenView)>),
}

pub open spec fn line_tokens(l: LineView) -> LineTokens {
    match l {
        LineView::Byte(vs) => LineTokens::Byte(token_views(vs)),
        LineView::Instruction(m, ops) => LineTokens::Instruction(m@, ops_views(ops)),
    }
}

pub open spec fn lines_tokens(ls: Seq<LineView>) -> Seq<LineTokens> {
    ls.map_values(|l: LineView| line_tokens(l))
}

proof fn lemma_same_view(a: Token, b: Token)
    requires
        a@ == b@,
    ensures
        is_operand_start(a) == is_operand_start(b),
        is_value(a) == is_value(b),
        (a.token_type is RightSquareBracket) == (b.token_type is RightSquareBracket),
        (a.token_type is Mnemonic) == (b.token_type is Mnemonic),
        (a.token_type is Byte) == (b.token_type is Byte),
        (a.token_type is Label) == (b.token_type is Label),
        (a.token_type is Number) == (b.token_type is Number),
        (a.token_type is LabelRef) == (b.token_type is LabelRef),
        a.token_type matches crate::token::TokenType::Register(r) ==> b.token_type
            == crate::token::TokenType::Register(r),
        a.token_type matches crate::token::TokenType::Number(n) ==> b.token_type
            == crate::token::TokenType::Number(n),
        a.token_type matches crate::token::TokenType::LabelRef(l) ==> (b.token_type matches crate::token::TokenType::LabelRef(k) && k@ == l@),
        a.token_type matches crate::token::TokenType::Label(l) ==> (b.token_type matches crate::token::TokenType::Label(k) && k@ == l@),
        a.token_type matches crate::token::TokenType::Mnemonic(l) ==> (b.token_type matches crate::token::TokenType::Mnemonic(k) && k@ == l@),
        a.span == b.span,
        a.content@ == b.content@,
{
    assert(a.token_type@ == b.token_type@);
}

proof fn lemma_views_index(t1: Seq<Token>, t2: Seq<Token>, i: int)
    requires
        token_views(t1) == token_views(t2),
        0 <= i < t1.len(),
    ensures
        t1.len() == t2.len(),
        t1[i]@ == t2[i]@,
{
    assert(token_views(t1).len() == t1.len());
    assert(token_views(t2).len() == t2.len());
    assert(token_views(t1)[i] == t1[i]@);
    assert(token_views(t2)[i] == t2[i]@);
}

proof fn lemma_operand_at_congruent(t1: Seq<Token>, t2: Seq<Token>, pos: int, line: usize)
    requires
        token_views(t1) == token_views(t2),
        0 <= pos < t1.len(),
    ensures
        match (operand_at(t1, pos, line), operand_at(t2, pos, line)) {
            (Ok((o1, e1)), Ok((o2, e2))) => e1 == e2 && o1.0 == o2.0 && o1.1@ == o2.1@,
            (Err((_, e1)), Err((_, e2))) => e1 == e2,
            _ => false,
        },
{
    lemma_views_index(t1, t2, pos);
    lemma_same_view(t1[pos], t2[pos]);
    if pos + 1 < t1.len() {
        lemma_views_index(t1, t2, pos + 1);
        lemma_same_view(t1[pos + 1], t2[pos + 1]);
    }
    if pos + 2 < t1.len() {
        lemma_views_index(t1, t2, pos + 2);
        lemma_same_view(t1[pos + 2], t2[pos + 2]);
    }
}

proof fn lemma_operands_congruent(t1: Seq<Token>, t2: Seq<Token>, pos: int, line: usize)
    requires
        token_views(t1) == token_views(t2),
        0 <= pos <= t1.len(),
    ensures
        match (operands_from(t1, pos, line), operands_from(t2, pos, line)) {
            (Ok((o1, e1)), Ok((o2, e2))) => e1 == e2 && ops_views(o1) == ops_views(o2),
            (Err((_, e1)), Err((_, e2))) => e1 == e2,
            _ => false,
        },
    decreases t1.len() - pos,
{
    if pos < t1.len() {
        lemma_views_index(t1, t2, pos);
        lemma_same_view(t1[pos], t2[pos]);
    } else {
        assert(t1.len() == token_views(t1).len());
        assert(t2.len() == token_views(t2).len());
    }
    if on_line(t1, pos, line) && is_operand_start(t1[pos]) {
        lemma_operand_at_congruent(t1, t2, pos, line);
        match operand_at(t1, pos, line) {
            Ok((op, next)) => {
                lemma_operands_from_advances(t1, pos, line);
                lemma_operands_congruent(t1, t2, next, line);
                let o2 = operand_at(t2, pos, line)->Ok_0.0;
                match (operands_from(t1, next, line), operands_from(t2, next, line)) {
                    (Ok((r1, _)), Ok((r2, _))) => {
                        assert(ops_views(seq![op] + r1) =~= seq![(op.0, op.1@)] + ops_views(r1));
                        assert(ops_views(seq![o2] + r2) =~= seq![(o2.0, o2.1@)] + ops_views(r2));
                    },
                    _ => {},
                }
            },
            Err(_) => {},
        }
    }
}

proof fn lemma_values_congruent(t1: Seq<Token>, t2: Seq<Token>, pos: int, line: usize)
    requires
        token_views(t1) == token_views(t2),
        0 <= pos <= t1.len(),
    ensures
        values_from(t1, pos, line).1 == values_from(t2, pos, line).1,
        token_views(values_from(t1, pos, line).0) == token_views(values_from(t2, pos, line).0),
    decreases t1.len() - pos,
{
    assert(t1.len() == token_views(t1).len());
    assert(t2.len() == token_views(t2).len());
    if pos < t1.len() {
        lemma_views_index(t1, t2, pos);
        lemma_same_view(t1[pos], t2[pos]);
        if on_line(t1, pos, line) && is_value(t1[pos]) {
            lemma_values_congruent(t1, t2, pos + 1, line);
            let r1 = values_from(t1, pos + 1, line).0;
            let r2 = values_from(t2, pos + 1, line).0;
            assert(token_views(seq![t1[pos]] + r1) =~= seq![t1[pos]@] + token_views(r1));
            assert(token_views(seq![t2[pos]] + r2) =~= seq![t2[pos]@] + token_views(r2));
        } else {
            assert(token_views(Seq::<Token>::empty()) =~= Seq::<TokenView>::empty());
        }
    } else {
        assert(token_views(Seq::<Token>::empty()) =~= Seq::<TokenView>::empty());
    }
}

/// Label declarations seen through the names they bind.
pub open spec fn decls_view(ls: Seq<(Token, int)>) -> Seq<(Seq<char>, int)> {
    ls.map_values(|p: (Token, int)| (label_name(p.0), p.1))
}

/// Parsing depends on the tokens' kinds, texts and spans alone.
proof fn lemma_parse_congruent(t1: Seq<Token>, t2: Seq<Token>, pos: int, rec: bool, k: int)
    requires
        token_views(t1) == token_views(t2),
        0 <= pos,
    ensures
        lines_tokens(parse_from(t1, pos, rec, k).0) == lines_tokens(parse_from(t2, pos, rec, k).0),
        parse_from(t1, pos, rec, k).1.len() == parse_from(t2, pos, rec, k).1.len(),
        decls_view(parse_from(t1, pos, rec, k).2) == decls_view(parse_from(t2, pos, rec, k).2),
    decreases t1.len() - pos,
{
    assert(t1.len() == token_views(t1).len());
    assert(t2.len() == token_views(t2).len());
    if pos < t1.len() {
        lemma_views_index(t1, t2, pos);
        lemma_same_view(t1[pos], t2[pos]);
        let t = t1[pos];
        let line = t.span.line;
        if t.token_type is Mnemonic {
            lemma_operands_from_advances(t1, pos + 1, line);
            lemma_operands_congruent(t1, t2, pos + 1, line);
            match (operands_from(t1, pos + 1, line), operands_from(t2, pos + 1, line)) {
                (Ok((o1, end)), Ok((o2, _))) => {
                    lemma_parse_congruent(t1, t2, end, false, k + 1);
                    let l1 = LineView::Instruction(t1[pos], o1);
                    let l2 = LineView::Instruction(t2[pos], o2);
                    let r1 = parse_from(t1, end, false, k + 1).0;
                    let r2 = parse_from(t2, end, false, k + 1).0;
                    assert(lines_tokens(seq![l1] + r1) =~= seq![line_tokens(l1)] + lines_tokens(r1));
                    assert(lines_tokens(seq![l2] + r2) =~= seq![line_tokens(l2)] + lines_tokens(r2));
                },
                (Err((_, end)), Err(_)) => {
                    lemma_parse_congruent(t1, t2, end, true, k);
                },
                _ => {},
            }
        } else if t.token_type is Byte {
            lemma_values_from_advances(t1, pos + 1, line);
            lemma_values_congruent(t1, t2, pos + 1, line);
            let (v1, end) = values_from(t1, pos + 1, line);
            let v2 = values_from(t2, pos + 1, line).0;
            lemma_parse_congruent(t1, t2, end, false, k + 1);
            let l1 = LineView::Byte(v1);
            let l2 = LineView::Byte(v2);
            let r1 = parse_from(t1, end, false, k + 1).0;
            let r2 = parse_from(t2, end, false, k + 1).0;
            assert(lines_tokens(seq![l1] + r1) =~= seq![line_tokens(l1)] + lines_tokens(r1));
            assert(lines_tokens(seq![l2] + r2) =~= seq![line_tokens(l2)] + lines_tokens(r2));
        } else if t.token_type is Label {
            lemma_parse_congruent(t1, t2, pos + 1, false, k);
            let r1 = parse_from(t1, pos + 1, false, k).2;
            let r2 = parse_from(t2, pos + 1, false, k).2;
            assert(label_name(t1[pos]) == label_name(t2[pos]));
            assert(decls_view(seq![(t1[pos], k)] + r1) =~= seq![(label_name(t1[pos]), k)]
                + decls_view(r1));
            assert(decls_view(seq![(t2[pos], k)] + r2) =~= seq![(label_name(t2[pos]), k)]
                + decls_view(r2));
        } else {
            lemma_parse_congruent(t1, t2, pos + 1, true, k);
        }
    }
}

/// An output unit seen through the characters of its label name.
pub enum UnitView {
    Value(u8),
    LabelRef(Seq<char>, bool),
}

pub open spec fn unit_view(u: Unresolved) -> UnitView {
    match u {
        Unresolved::Value(b) => UnitView::Value(b),
        Unresolved::LabelRef { name, wide, .. } => UnitView::LabelRef(name@, wide),
    }
}

pub open spec fn units_view(us: Seq<Unresolved>) -> Seq<UnitView> {
    us.map_values(|u: Unresolved| unit_view(u))
}

/// A line's encoding seen through its units' views.
pub enum CodeView {
    Data(Seq<UnitView>),
    Instruction(u8, Seq<UnitView>),
}

pub open spec fn code_view(c: LineCode) -> CodeView {
    match c {
        LineCode::Data(us) => CodeView::Data(units_view(us)),
        LineCode::Instruction(o, us) => CodeView::Instruction(o, units_view(us)),
    }
}

pub open spec fn codes_view(cs: Seq<LineCode>) -> Seq<CodeView> {
    cs.map_values(|c: LineCode| code_view(c))
}

proof fn lemma_units_view_concat(a: Seq<Unresolved>, b: Seq<Unresolved>)
    ensures
        units_view(a + b) == units_view(a) + units_view(b),
{
    assert(units_view(a + b) =~= units_view(a) + units_view(b));
}

proof fn lemma_operand_units_congruent(kind: Operand, a: Token, b: Token)
    requires
        a@ == b@,
    ensures
        match (operand_units(kind, a), operand_units(kind, b)) {
            (Ok(u1), Ok(u2)) => units_view(u1) == units_view(u2),
            (Err(_), Err(_)) => true,
            _ => false,
        },
{
    lemma_same_view(a, b);
    match (operand_units(kind, a), operand_units(kind, b)) {
        (Ok(u1), Ok(u2)) => {
            assert(units_view(u1) =~= units_view(u2));
        },
        _ => {},
    }
}

proof fn lemma_ops_views_index(o1: Seq<(Operand, Token)>, o2: Seq<(Operand, Token)>, i: int)
    requires
        ops_views(o1) == ops_views(o2),
        0 <= i < o1.len(),
    ensures
        o1.len() == o2.len(),
        o1[i].0 == o2[i].0,
        o1[i].1@ == o2[i].1@,
{
    assert(ops_views(o1).len() == o1.len());
    assert(ops_views(o2).len() == o2.len());
    assert(ops_views(o1)[i] == (o1[i].0, o1[i].1@));
    assert(ops_views(o2)[i] == (o2[i].0, o2[i].1@));
}

proof fn lemma_check_operands_congruent(
    config: Config,
    keys: Seq<NodeKey>,
    o1: Seq<(Operand, Token)>,
    o2: Seq<(Operand, Token)>,
    m1: Token,
    m2: Token,
    w1: crate::token::Span,
    w2: crate::token::Span,
)
    requires
        ops_views(o1) == ops_views(o2),
    ensures
        match (check_operands(config, keys, o1, m1, w1), check_operands(config, keys, o2, m2, w2)) {
            (Ok((c1, u1)), Ok((c2, u2))) => c1 == c2 && units_view(u1) == units_view(u2),
            (Err(_), Err(_)) => true,
            _ => false,
        },
    decreases o1.len(),
{
    assert(ops_views(o1).len() == o1.len());
    assert(ops_views(o2).len() == o2.len());
    if o1.len() > 0 {
        lemma_ops_views_index(o1, o2, 0);
        lemma_operand_units_congruent(o1[0].0, o1[0].1, o2[0].1);
        assert(ops_views(o1.drop_first()) =~= ops_views(o1).drop_first());
        assert(ops_views(o2.drop_first()) =~= ops_views(o2).drop_first());
        let next = keys.push(NodeKey::Operand(o1[0].0));
        lemma_check_operands_congruent(config, next, o1.drop_first(), o2.drop_first(), m1, m2, w1, w2);
        match (operand_units(o1[0].0, o1[0].1), operand_units(o2[0].0, o2[0].1)) {
            (Ok(u1), Ok(u2)) => {
                match (
                    check_operands(config, next, o1.drop_first(), m1, w1),
                    check_operands(config, next, o2.drop_first(), m2, w2),
                ) {
                    (Ok((_, r1)), Ok((_, r2))) => {
                        lemma_units_view_concat(u1, r1);
                        lemma_units_view_concat(u2, r2);
                    },
                    _ => {},
                }
            },
            _ => {},
        }
    }
}

proof fn lemma_byte_units_congruent(v1: Seq<Token>, v2: Seq<Token>)
    requires
        token_views(v1) == token_views(v2),
    ensures
        match (byte_units(v1), byte_units(v2)) {
            (Ok(u1), Ok(u2)) => units_view(u1) == units_view(u2),
            (Err(_), Err(_)) => true,
            _ => false,
        },
    decreases v1.len(),
{
    assert(token_views(v1).len() == v1.len());
    assert(token_views(v2).len() == v2.len());
    if v1.len() > 0 {
        assert(token_views(v1.drop_last()) =~= token_views(v1).drop_last());
        assert(token_views(v2.drop_last()) =~= token_views(v2).drop_last());
        lemma_byte_units_congruent(v1.drop_last(), v2.drop_last());
        lemma_views_index(v1, v2, v1.len() - 1);
        lemma_operand_units_congruent(Operand::Const, v1.last(), v2.last());
        match (byte_units(v1.drop_last()), byte_units(v2.drop_last())) {
            (Ok(a1), Ok(a2)) => {
                match (operand_units(Operand::Const, v1.last()), operand_units(Operand::Const, v2.last())) {
                    (Ok(b1), Ok(b2)) => {
                        lemma_units_view_concat(a1, b1);
                        lemma_units_view_concat(a2, b2);
                    },
                    _ => {},
                }
            },
            _ => {},
        }
    }
}

/// Encoding a line depends on its tokens' kinds, texts and spans alone.
proof fn lemma_line_code_congruent(config: Config, l1: LineView, l2: LineView)
    requires
        line_tokens(l1) == line_tokens(l2),
    ensures
        match (line_code(config, l1), line_code(config, l2)) {
            (Ok(c1), Ok(c2)) => code_view(c1) == code_view(c2),
            (Err(_), Err(_)) => true,
            _ => false,
        },
{
    match (l1, l2) {
        (LineView::Byte(v1), LineView::Byte(v2)) => {
            lemma_byte_units_congruent(v1, v2);
        },
        (LineView::Instruction(m1, o1), LineView::Instruction(m2, o2)) => {
            lemma_same_view(m1, m2);
            match m1.token_type {
                crate::token::TokenType::Mnemonic(n) => {
                    let keys = seq![NodeKey::Mnemonic(n@)];
                    lemma_check_operands_congruent(
                        config,
                        keys,
                        o1,
                        o2,
                        m1,
                        m2,
                        crate::checker::instruction_span(m1, o1),
                        crate::checker::instruction_span(m2, o2),
                    );
                },
                _ => {},
            }
        },
        _ => {},
    }
}

proof fn lemma_lines_tokens_index(ls1: Seq<LineView>, ls2: Seq<LineView>, i: int)
    requires
        lines_tokens(ls1) == lines_tokens(ls2),
        0 <= i < ls1.len(),
    ensures
        ls1.len() == ls2.len(),
        line_tokens(ls1[i]) == line_tokens(ls2[i]),
{
    assert(lines_tokens(ls1).len() == ls1.len());
    assert(lines_tokens(ls2).len() == ls2.len());
    assert(lines_tokens(ls1)[i] == line_tokens(ls1[i]));
    assert(lines_tokens(ls2)[i] == line_tokens(ls2[i]));
}

proof fn lemma_line_errors_congruent(config: Config, ls1: Seq<LineView>, ls2: Seq<LineView>)
    requires
        lines_tokens(ls1) == lines_tokens(ls2),
    ensures
        line_errors(config, ls1).len() == line_errors(config, ls2).len(),
    decreases ls1.len(),
{
    assert(lines_tokens(ls1).len() == ls1.len());
    assert(lines_tokens(ls2).len() == ls2.len());
    if ls1.len() > 0 {
        assert(lines_tokens(ls1.drop_last()) =~= lines_tokens(ls1).drop_last());
        assert(lines_tokens(ls2.drop_last()) =~= lines_tokens(ls2).drop_last());
        lemma_line_errors_congruent(config, ls1.drop_last(), ls2.drop_last());
        lemma_lines_tokens_index(ls1, ls2, ls1.len() - 1);
        lemma_line_code_congruent(config, ls1.last(), ls2.last());
    }
}

proof fn lemma_no_errors_all_ok(config: Config, ls: Seq<LineView>, i: int)
    requires
        line_errors(config, ls).len() == 0,
        0 <= i < ls.len(),
    ensures
        line_code(config, ls[i]) is Ok,
    decreases ls.len(),
{
    let earlier = line_errors(config, ls.drop_last());
    if line_code(config, ls.last()) is Ok {
        if i < ls.len() - 1 {
            assert(ls.drop_last()[i] == ls[i]);
            lemma_no_errors_all_ok(config, ls.drop_last(), i);
        }
    }
}

proof fn lemma_codes_congruent(config: Config, ls1: Seq<LineView>, ls2: Seq<LineView>)
    requires
        lines_tokens(ls1) == lines_tokens(ls2),
        line_errors(config, ls1).len() == 0,
        line_errors(config, ls2).len() == 0,
    ensures
        codes_view(codes_of_lines(config, ls1)) == codes_view(codes_of_lines(config, ls2)),
{
    assert(lines_tokens(ls1).len() == ls1.len());
    assert(lines_tokens(ls2).len() == ls2.len());
    assert forall|i: int| 0 <= i < ls1.len() implies codes_view(codes_of_lines(config, ls1))[i]
        == codes_view(codes_of_lines(config, ls2))[i] by {
        lemma_lines_tokens_index(ls1, ls2, i);
        lemma_no_errors_all_ok(config, ls1, i);
        lemma_no_errors_all_ok(config, ls2, i);
        lemma_line_code_congruent(config, ls1[i], ls2[i]);
    }
    assert(codes_view(codes_of_lines(config, ls1)) =~= codes_view(codes_of_lines(config, ls2)));
}

proof fn lemma_units_width_congruent(u1: Seq<Unresolved>, u2: Seq<Unresolved>)
    requires
        units_view(u1) == units_view(u2),
    ensures
        units_width(u1) == units_width(u2),
    decreases u1.len(),
{
    assert(units_view(u1).len() == u1.len());
    assert(units_view(u2).len() == u2.len());
    if u1.len() > 0 {
        assert(units_view(u1.drop_last()) =~= units_view(u1).drop_last());
        assert(units_view(u2.drop_last()) =~= units_view(u2).drop_last());
        lemma_units_width_congruent(u1.drop_last(), u2.drop_last());
        assert(units_view(u1)[u1.len() - 1] == unit_view(u1.last()));
        assert(units_view(u2)[u2.len() - 1] == unit_view(u2.last()));
    }
}

proof fn lemma_resolve_units_congruent(u1: Seq<Unresolved>, u2: Seq<Unresolved>, m: Map<Seq<char>, u16>)
    requires
        units_view(u1) == units_view(u2),
    ensures
        resolve_units(u1, m).0 == resolve_units(u2, m).0,
        resolve_units(u1, m).1.len() == resolve_units(u2, m).1.len(),
    decreases u1.len(),
{
    assert(units_view(u1).len() == u1.len());
    assert(units_view(u2).len() == u2.len());
    if u1.len() > 0 {
        assert(units_view(u1.drop_last()) =~= units_view(u1).drop_last());
        assert(units_view(u2.drop_last()) =~= units_view(u2).drop_last());
        lemma_resolve_units_congruent(u1.drop_last(), u2.drop_last(), m);
        assert(units_view(u1)[u1.len() - 1] == unit_view(u1.last()));
        assert(units_view(u2)[u2.len() - 1] == unit_view(u2.last()));
    }
}

pub open spec fn code_units_view(c: CodeView) -> Seq<UnitView> {
    match c {
        CodeView::Data(us) => us,
        CodeView::Instruction(o, us) => seq![UnitView::Value(o)] + us,
    }
}

proof fn lemma_code_units_view(c: LineCode)
    ensures
        units_view(code_units(c)) == code_units_view(code_view(c)),
{
    match c {
        LineCode::Instruction(o, us) => {
            assert(units_view(seq![Unresolved::Value(o)] + us) =~= seq![UnitView::Value(o)]
                + units_view(us));
        },
        _ => {},
    }
}

proof fn lemma_codes_view_index(c1: Seq<LineCode>, c2: Seq<LineCode>, i: int)
    requires
        codes_view(c1) == codes_view(c2),
        0 <= i < c1.len(),
    ensures
        c1.len() == c2.len(),
        code_view(c1[i]) == code_view(c2[i]),
        units_view(code_units(c1[i])) == units_view(code_units(c2[i])),
{
    assert(codes_view(c1).len() == c1.len());
    assert(codes_view(c2).len() == c2.len());
    assert(codes_view(c1)[i] == code_view(c1[i]));
    assert(codes_view(c2)[i] == code_view(c2[i]));
    lemma_code_units_view(c1[i]);
    lemma_code_units_view(c2[i]);
}

proof fn lemma_width_congruent(c1: Seq<LineCode>, c2: Seq<LineCode>)
    requires
        codes_view(c1) == codes_view(c2),
    ensures
        codes_width(c1) == codes_width(c2),
    decreases c1.len(),
{
    assert(codes_view(c1).len() == c1.len());
    assert(codes_view(c2).len() == c2.len());
    if c1.len() > 0 {
        assert(codes_view(c1.drop_last()) =~= codes_view(c1).drop_last());
        assert(codes_view(c2.drop_last()) =~= codes_view(c2).drop_last());
        lemma_width_congruent(c1.drop_last(), c2.drop_last());
        lemma_codes_view_index(c1, c2, c1.len() - 1);
        lemma_units_width_congruent(code_units(c1.last()), code_units(c2.last()));
    }
}

proof fn lemma_labels_congruent(
    c1: Seq<LineCode>,
    c2: Seq<LineCode>,
    l1: Seq<(Token, int)>,
    l2: Seq<(Token, int)>,
)
    requires
        codes_view(c1) == codes_view(c2),
        decls_view(l1) == decls_view(l2),
    ensures
        label_table(c1, l1) == label_table(c2, l2),
    decreases l1.len(),
{
    assert(decls_view(l1).len() == l1.len());
    assert(decls_view(l2).len() == l2.len());
    assert(codes_view(c1).len() == c1.len());
    if l1.len() > 0 {
        assert(decls_view(l1.drop_last()) =~= decls_view(l1).drop_last());
        assert(decls_view(l2.drop_last()) =~= decls_view(l2).drop_last());
        lemma_labels_congruent(c1, c2, l1.drop_last(), l2.drop_last());
        let n = l1.len() - 1;
        assert(decls_view(l1)[n] == (label_name(l1.last().0), l1.last().1));
        assert(decls_view(l2)[n] == (label_name(l2.last().0), l2.last().1));
        let k = l1.last().1;
        if 0 <= k <= c1.len() {
            assert(codes_view(c1.subrange(0, k)) =~= codes_view(c1).subrange(0, k));
            assert(codes_view(c2.subrange(0, k)) =~= codes_view(c2).subrange(0, k));
            lemma_width_congruent(c1.subrange(0, k), c2.subrange(0, k));
        } else {
            lemma_width_congruent(c1, c2);
        }
    }
}

proof fn lemma_resolve_codes_congruent(c1: Seq<LineCode>, c2: Seq<LineCode>, m: Map<Seq<char>, u16>)
    requires
        codes_view(c1) == codes_view(c2),
    ensures
        resolve_codes(c1, m).0 == resolve_codes(c2, m).0,
        resolve_codes(c1, m).1.len() == resolve_codes(c2, m).1.len(),
    decreases c1.len(),
{
    assert(codes_view(c1).len() == c1.len());
    assert(codes_view(c2).len() == c2.len());
    if c1.len() > 0 {
        assert(codes_view(c1.drop_last()) =~= codes_view(c1).drop_last());
        assert(codes_view(c2.drop_last()) =~= codes_view(c2).drop_last());
        lemma_resolve_codes_congruent(c1.drop_last(), c2.drop_last(), m);
        lemma_codes_view_index(c1, c2, c1.len() - 1);
        lemma_resolve_units_congruent(code_units(c1.last()), code_units(c2.last()), m);
    }
}

/// The outcome of the stages after the lexer depends on the tokens' kinds,
/// texts and spans alone.
pub proof fn lemma_outcome_congruent(t1: Seq<Token>, t2: Seq<Token>, config: Config)
    requires
        token_views(t1) == token_views(t2),
    ensures
        outcome_of(t1, config) is Bytes <==> outcome_of(t2, config) is Bytes,
        outcome_of(t1, config) matches Outcome::Bytes(b1) ==> outcome_of(t2, config)
            == Outcome::Bytes(b1),
{
    lemma_parse_congruent(t1, t2, 0, false, 0);
    let (ls1, p1, d1) = parse_from(t1, 0, false, 0);
    let (ls2, p2, d2) = parse_from(t2, 0, false, 0);
    if p1.len() == 0 {
        lemma_line_errors_congruent(config, ls1, ls2);
        if line_errors(config, ls1).len() == 0 {
            lemma_codes_congruent(config, ls1, ls2);
            let c1 = codes_of_lines(config, ls1);
            let c2 = codes_of_lines(config, ls2);
            lemma_labels_congruent(c1, c2, d1, d2);
            lemma_resolve_codes_congruent(c1, c2, label_table(c1, d1));
        }
    }
}

/// What `assemble` promises of its result on a source and a configuration.
pub open spec fn assembled(source: Seq<char>, config: Config, r: Result<Vec<u8>, AsmError>) -> bool {
    &&& lex_errors(lex_from(source, 0, 0, 0)).len() > 0 ==> (r matches Err(AsmError::Lexer(es))
        && error_views(es@) == lex_errors(lex_from(source, 0, 0, 0)))
    &&& lex_errors(lex_from(source, 0, 0, 0)).len() == 0 ==> exists|toks: Seq<Token>|
        token_views(toks) == ok_tokens(lex_from(source, 0, 0, 0)) && result_matches(
            r,
            #[trigger] outcome_of(toks, config),
        )
}

/// Assembling the same source with the same configuration twice gives the
/// same bytes: either both runs fail, or both succeed with identical output.
pub proof fn lemma_idempotent(
    source: Seq<char>,
    config: Config,
    r1: Result<Vec<u8>, AsmError>,
    r2: Result<Vec<u8>, AsmError>,
)
    requires
        assembled(source, config, r1),
        assembled(source, config, r2),
    ensures
        r1 is Ok <==> r2 is Ok,
        r1 is Ok ==> r1->Ok_0@ == r2->Ok_0@,
{
    if lex_errors(lex_from(source, 0, 0, 0)).len() == 0 {
        let t1 = choose|toks: Seq<Token>|
            token_views(toks) == ok_tokens(lex_from(source, 0, 0, 0)) && result_matches(
                r1,
                #[trigger] outcome_of(toks, config),
            );
        let t2 = choose|toks: Seq<Token>|
            token_views(toks) == ok_tokens(lex_from(source, 0, 0, 0)) && result_matches(
                r2,
                #[trigger] outcome_of(toks, config),
            );
        lemma_outcome_congruent(t1, t2, config);
    }
}

} // verus!
