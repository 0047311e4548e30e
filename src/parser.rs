use crate::specs::Operand;
use crate::token::{Span, Token, TokenType};
use vstd::prelude::*;

verus! {

/// One logical source line after parsing.
#[derive(Debug, PartialEq, Eq)]
pub enum Line<'a> {
    /// Raw data: each number or label reference becomes one byte.
    Byte(Vec<&'a Token>),
    /// An instruction: its mnemonic and its operands, each tagged with its kind.
    Instruction { mnemonic: &'a Token, operands: Vec<(Operand, &'a Token)> },
}

/// A parsed line with its tokens as values.
pub enum LineView {
    Byte(Seq<Token>),
    Instruction(Token, Seq<(Operand, Token)>),
}

pub open spec fn deref_tokens<'a>(ts: Seq<&'a Token>) -> Seq<Token> {
    ts.map_values(|t: &'a Token| *t)
}

pub open spec fn deref_operands<'a>(ops: Seq<(Operand, &'a Token)>) -> Seq<(Operand, Token)> {
    ops.map_values(|p: (Operand, &'a Token)| (p.0, *p.1))
}

impl<'a> View for Line<'a> {
    type V = LineView;

    open spec fn view(&self) -> LineView {
        match self {
            Line::Byte(values) => LineView::Byte(deref_tokens(values@)),
            Line::Instruction { mnemonic, operands } => LineView::Instruction(
                **mnemonic,
                deref_operands(operands@),
            ),
        }
    }
}

/// What the parser looked for when it failed.
#[derive(Debug, PartialEq, Eq, Structural, Clone, Copy)]
pub enum Expected {
    NumberOrLabelRef,
    RightSquareBracket,
}

/// A syntax error, with the span of the token (or place) where it was found.
#[derive(Debug, PartialEq, Eq)]
pub enum ParserErr {
    /// A token of another kind stood where one was expected; holds its text.
    UnexpectedToken(Expected, String, Span),
    /// A line began with a token that is no mnemonic, `byte` or label; holds its text.
    UnexpectedLineBeginning(String, Span),
    /// The line or the input ended where a token was expected; the span is the last token's.
    EOF(Expected, Span),
}

/// Tokens that begin an operand: a register, a number, a label reference or `[`.
pub open spec fn is_operand_start(t: Token) -> bool {
    match t.token_type {
        TokenType::Register(_) | TokenType::Number(_) | TokenType::LabelRef(_)
        | TokenType::LeftSquareBracket => true,
        _ => false,
    }
}

pub open spec fn is_value(t: Token) -> bool {
    t.token_type is Number || t.token_type is LabelRef
}

/// There is a token at `pos`, on source line `line`.
pub open spec fn on_line(toks: Seq<Token>, pos: int, line: usize) -> bool {
    0 <= pos < toks.len() && toks[pos].span.line == line
}

/// The operand that starts at `pos` and the position after it; on failure,
/// the error and the position after the tokens it consumed.
pub open spec fn operand_at(toks: Seq<Token>, pos: int, line: usize) -> Result<
    ((Operand, Token), int),
    (ParserErr, int),
> {
    let t = toks[pos];
    match t.token_type {
        TokenType::Register(r) => Ok(((Operand::Register(r), t), pos + 1)),
        TokenType::Number(_) | TokenType::LabelRef(_) => Ok(((Operand::Const, t), pos + 1)),
        _ => if !on_line(toks, pos + 1, line) {
            Err((ParserErr::EOF(Expected::NumberOrLabelRef, t.span), pos + 1))
        } else if !is_value(toks[pos + 1]) {
            Err(
                (
                    ParserErr::UnexpectedToken(
                        Expected::NumberOrLabelRef,
                        toks[pos + 1].content,
                        toks[pos + 1].span,
                    ),
                    pos + 2,
                ),
            )
        } else if !on_line(toks, pos + 2, line) {
            Err((ParserErr::EOF(Expected::RightSquareBracket, toks[pos + 1].span), pos + 2))
        } else if toks[pos + 2].token_type is RightSquareBracket {
            Ok(((Operand::Mem16, toks[pos + 1]), pos + 3))
        } else {
            Err(
                (
                    ParserErr::UnexpectedToken(
                        Expected::RightSquareBracket,
                        toks[pos + 2].content,
                        toks[pos + 2].span,
                    ),
                    pos + 3,
                ),
            )
        },
    }
}

/// The operands on `line` from `pos` on, and the position after them.
pub open spec fn operands_from(toks: Seq<Token>, pos: int, line: usize) -> Result<
    (Seq<(Operand, Token)>, int),
    (ParserErr, int),
>
    decreases toks.len() - pos,
{
    if on_line(toks, pos, line) && is_operand_start(toks[pos]) {
        match operand_at(toks, pos, line) {
            Err(e) => Err(e),
            Ok((op, next)) => match operands_from(toks, next, line) {
                Err(e) => Err(e),
                Ok((ops, end)) => Ok((seq![op] + ops, end)),
            },
        }
    } else {
        Ok((Seq::empty(), pos))
    }
}

/// The values of a data line on `line` from `pos` on, and the position after them.
pub open spec fn values_from(toks: Seq<Token>, pos: int, line: usize) -> (Seq<Token>, int)
    decreases toks.len() - pos,
{
    if on_line(toks, pos, line) && is_value(toks[pos]) {
        let (vs, end) = values_from(toks, pos + 1, line);
        (seq![toks[pos]] + vs, end)
    } else {
        (Seq::empty(), pos)
    }
}

pub proof fn lemma_operands_from_advances(toks: Seq<Token>, pos: int, line: usize)
    requires
        0 <= pos <= toks.len(),
    ensures
        match operands_from(toks, pos, line) {
            Ok((_, end)) => pos <= end <= toks.len(),
            Err((_, end)) => pos < end <= toks.len(),
        },
    decreases toks.len() - pos,
{
    if on_line(toks, pos, line) && is_operand_start(toks[pos]) {
        match operand_at(toks, pos, line) {
            Err(_) => {},
            Ok((_, next)) => {
                lemma_operands_from_advances(toks, next, line);
            },
        }
    }
}

pub proof fn lemma_values_from_advances(toks: Seq<Token>, pos: int, line: usize)
    requires
        0 <= pos <= toks.len(),
    ensures
        pos <= values_from(toks, pos, line).1 <= toks.len(),
    decreases toks.len() - pos,
{
    if on_line(toks, pos, line) && is_value(toks[pos]) {
        lemma_values_from_advances(toks, pos + 1, line);
    }
}

/// The lines, errors and label declarations that parsing yields from `pos`
/// on, when `nlines` lines come before `pos`. A label declaration makes no
/// line: it is recorded with the number of lines that precede it. After an
/// error the parser skips tokens until one that can begin a line: a
/// mnemonic, `byte` or a label.
pub open spec fn parse_from(toks: Seq<Token>, pos: int, recovering: bool, nlines: int) -> (
    Seq<LineView>,
    Seq<ParserErr>,
    Seq<(Token, int)>,
)
    decreases toks.len() - pos,
    via parse_from_decreases
{
    if pos < 0 || pos >= toks.len() {
        (Seq::empty(), Seq::empty(), Seq::empty())
    } else {
        let t = toks[pos];
        match t.token_type {
            TokenType::Mnemonic(_) => match operands_from(toks, pos + 1, t.span.line) {
                Ok((ops, end)) => {
                    let (ls, es, lbs) = parse_from(toks, end, false, nlines + 1);
                    (seq![LineView::Instruction(t, ops)] + ls, es, lbs)
                },
                Err((e, end)) => {
                    let (ls, es, lbs) = parse_from(toks, end, true, nlines);
                    (ls, seq![e] + es, lbs)
                },
            },
            TokenType::Byte => {
                let (vs, end) = values_from(toks, pos + 1, t.span.line);
                let (ls, es, lbs) = parse_from(toks, end, false, nlines + 1);
                (seq![LineView::Byte(vs)] + ls, es, lbs)
            },
            TokenType::Label(_) => {
                let (ls, es, lbs) = parse_from(toks, pos + 1, false, nlines);
                (ls, es, seq![(t, nlines)] + lbs)
            },
            _ => {
                let (ls, es, lbs) = parse_from(toks, pos + 1, true, nlines);
                if recovering {
                    (ls, es, lbs)
                } else {
                    (ls, seq![ParserErr::UnexpectedLineBeginning(t.content, t.span)] + es, lbs)
                }
            },
        }
    }
}

#[via_fn]
proof fn parse_from_decreases(toks: Seq<Token>, pos: int, recovering: bool, nlines: int) {
    if 0 <= pos < toks.len() {
        let t = toks[pos];
        match t.token_type {
            TokenType::Mnemonic(_) => {
                lemma_operands_from_advances(toks, pos + 1, t.span.line);
            },
            TokenType::Byte => {
                lemma_values_from_advances(toks, pos + 1, t.span.line);
            },
            _ => {},
        }
    }
}

pub open spec fn views_of<'a>(lines: Seq<Line<'a>>) -> Seq<LineView> {
    lines.map_values(|l: Line<'a>| l@)
}

/// Label declarations with the number of lines before each.
pub open spec fn label_decls<'a>(labels: Seq<(&'a Token, usize)>) -> Seq<(Token, int)> {
    labels.map_values(|p: (&'a Token, usize)| (*p.0, p.1 as int))
}

struct Parser<'a> {
    tokens: &'a [Token],
    pos: usize,
}

impl<'a> Parser<'a> {
    fn new(tokens: &'a [Token]) -> (r: Self)
        ensures
            r.tokens@ == tokens@,
            r.pos == 0,
    {
        Self { tokens, pos: 0 }
    }

    fn peek(&self) -> (r: Option<&'a Token>)
        ensures
            self.pos < self.tokens@.len() ==> r == Some(&self.tokens@[self.pos as int]),
            self.pos >= self.tokens@.len() ==> r is None,
    {
        if self.pos < self.tokens.len() {
            Some(&self.tokens[self.pos])
        } else {
            None
        }
    }

    fn chop(&mut self) -> (r: Option<&'a Token>)
        ensures
            final(self).tokens@ == old(self).tokens@,
            old(self).pos < old(self).tokens@.len() ==> r == Some(
                &old(self).tokens@[old(self).pos as int],
            ) && final(self).pos == old(self).pos + 1,
            old(self).pos >= old(self).tokens@.len() ==> r is None && final(self).pos == old(self).pos,
    {
        if self.pos < self.tokens.len() {
            let t = &self.tokens[self.pos];
            self.pos = self.pos + 1;
            Some(t)
        } else {
            None
        }
    }

    /// The next token, if it stands on source line `line`.
    fn peek_on(&self, line: usize) -> (r: Option<&'a Token>)
        ensures
            on_line(self.tokens@, self.pos as int, line) ==> r == Some(
                &self.tokens@[self.pos as int],
            ),
            !on_line(self.tokens@, self.pos as int, line) ==> r is None,
    {
        match self.peek() {
            Some(t) => if t.span.line == line {
                Some(t)
            } else {
                None
            },
            None => None,
        }
    }

    /// Parses `'[' (NUMBER | LABELREF) ']'`, all on one line.
    fn memref(&mut self, line: usize) -> (r: Result<(Operand, &'a Token), ParserErr>)
        requires
            on_line(old(self).tokens@, old(self).pos as int, line),
            old(self).tokens@[old(self).pos as int].token_type is LeftSquareBracket,
        ensures
            final(self).tokens@ == old(self).tokens@,
            match operand_at(old(self).tokens@, old(self).pos as int, line) {
                Ok((op, next)) => r matches Ok(x) && (x.0, *x.1) == op && final(self).pos == next,
                Err((e, next)) => r == Err::<(Operand, &'a Token), ParserErr>(e) && final(self).pos == next,
            },
    {
        let n = self.tokens.len();
        let left_bracket = self.chop().unwrap();
        let token = match self.peek_on(line) {
            Some(t) => t,
            None => {
                return Err(ParserErr::EOF(Expected::NumberOrLabelRef, left_bracket.span.clone()));
            },
        };
        self.pos = self.pos + 1;
        match &token.token_type {
            TokenType::Number(_) | TokenType::LabelRef(_) => {},
            _ => {
                return Err(
                    ParserErr::UnexpectedToken(
                        Expected::NumberOrLabelRef,
                        token.content.clone(),
                        token.span.clone(),
                    ),
                );
            },
        }
        let right_bracket = match self.peek_on(line) {
            Some(t) => t,
            None => {
                return Err(ParserErr::EOF(Expected::RightSquareBracket, token.span.clone()));
            },
        };
        self.pos = self.pos + 1;
        match &right_bracket.token_type {
            TokenType::RightSquareBracket => Ok((Operand::Mem16, token)),
            _ => Err(
                ParserErr::UnexpectedToken(
                    Expected::RightSquareBracket,
                    right_bracket.content.clone(),
                    right_bracket.span.clone(),
                ),
            ),
        }
    }

    /// Parses one operand and tags it with its kind.
    fn operand(&mut self, line: usize) -> (r: Result<(Operand, &'a Token), ParserErr>)
        requires
            on_line(old(self).tokens@, old(self).pos as int, line),
            is_operand_start(old(self).tokens@[old(self).pos as int]),
        ensures
            final(self).tokens@ == old(self).tokens@,
            match operand_at(old(self).tokens@, old(self).pos as int, line) {
                Ok((op, next)) => r matches Ok(x) && (x.0, *x.1) == op && final(self).pos == next,
                Err((e, next)) => r == Err::<(Operand, &'a Token), ParserErr>(e) && final(self).pos == next,
            },
    {
        let token = &self.tokens[self.pos];
        match &token.token_type {
            TokenType::Register(reg) => {
                self.pos = self.pos + 1;
                Ok((Operand::Register(*reg), token))
            },
            TokenType::Number(_) | TokenType::LabelRef(_) => {
                self.pos = self.pos + 1;
                Ok((Operand::Const, token))
            },
            _ => self.memref(line),
        }
    }

    /// Parses a mnemonic and the operands that follow it on its line.
    fn instruction(&mut self) -> (r: Result<Line<'a>, ParserErr>)
        requires
            old(self).pos < old(self).tokens@.len(),
        ensures
            final(self).tokens@ == old(self).tokens@,
            ({
                let t = old(self).tokens@[old(self).pos as int];
                match operands_from(old(self).tokens@, old(self).pos + 1, t.span.line) {
                    Ok((ops, end)) => r matches Ok(l) && l@ == LineView::Instruction(t, ops)
                        && final(self).pos == end,
                    Err((e, end)) => r == Err::<Line<'a>, ParserErr>(e) && final(self).pos == end,
                }
            }),
    {
        let ghost toks = self.tokens@;
        let n = self.tokens.len();
        let mnemonic = self.chop().unwrap();
        let line = mnemonic.span.line;
        let ghost start = self.pos as int;
        let mut operands: Vec<(Operand, &'a Token)> = Vec::new();
        proof {
            assert(deref_operands(operands@) + operands_from(toks, start, line)->Ok_0.0
                =~= operands_from(toks, start, line)->Ok_0.0);
        }
        loop
            invariant
                self.tokens@ == toks,
                toks == old(self).tokens@,
                n == toks.len(),
                start == old(self).pos + 1,
                line == toks[old(self).pos as int].span.line,
                start <= self.pos <= toks.len(),
                operands_from(toks, start, line) == (match operands_from(toks, self.pos as int, line) {
                    Err(e) => Err(e),
                    Ok((ops, end)) => Ok((deref_operands(operands@) + ops, end)),
                }),
            ensures
                self.tokens@ == toks,
                toks == old(self).tokens@,
                n == toks.len(),
                start == old(self).pos + 1,
                line == toks[old(self).pos as int].span.line,
                start <= self.pos <= toks.len(),
                operands_from(toks, self.pos as int, line) == Ok::<
                    (Seq<(Operand, Token)>, int),
                    (ParserErr, int),
                >((Seq::empty(), self.pos as int)),
                operands_from(toks, start, line) == (match operands_from(toks, self.pos as int, line) {
                    Err(e) => Err(e),
                    Ok((ops, end)) => Ok((deref_operands(operands@) + ops, end)),
                }),
            decreases toks.len() - self.pos,
        {
            let next = match self.peek_on(line) {
                Some(t) => t,
                None => break,
            };
            match &next.token_type {
                TokenType::Register(_) | TokenType::Number(_) | TokenType::LabelRef(_)
                | TokenType::LeftSquareBracket => {},
                _ => break,
            }
            let ghost before = operands@;
            match self.operand(line) {
                Ok(op) => {
                    operands.push(op);
                    proof {
                        lemma_operands_from_advances(toks, self.pos as int, line);
                        assert(deref_operands(operands@) =~= deref_operands(before).push(
                            (op.0, *op.1),
                        ));
                        let rest = operands_from(toks, self.pos as int, line);
                        if rest is Ok {
                            assert(deref_operands(before) + (seq![(op.0, *op.1)] + rest->Ok_0.0)
                                =~= deref_operands(operands@) + rest->Ok_0.0);
                        }
                    }
                },
                Err(e) => {
                    return Err(e);
                },
            }
        }
        proof {
            assert(deref_operands(operands@) + Seq::<(Operand, Token)>::empty() =~= deref_operands(
                operands@,
            ));
        }
        Ok(Line::Instruction { mnemonic, operands })
    }

    /// Parses `byte` and the numbers and label references that follow it on its line.
    fn byte(&mut self) -> (r: Line<'a>)
        requires
            old(self).pos < old(self).tokens@.len(),
        ensures
            final(self).tokens@ == old(self).tokens@,
            ({
                let t = old(self).tokens@[old(self).pos as int];
                let (vs, end) = values_from(old(self).tokens@, old(self).pos + 1, t.span.line);
                r@ == LineView::Byte(vs) && final(self).pos == end
            }),
    {
        let ghost toks = self.tokens@;
        let n = self.tokens.len();
        let keyword = self.chop().unwrap();
        let line = keyword.span.line;
        let ghost start = self.pos as int;
        let mut values: Vec<&'a Token> = Vec::new();
        proof {
            assert(deref_tokens(values@) + values_from(toks, start, line).0 =~= values_from(
                toks,
                start,
                line,
            ).0);
        }
        loop
            invariant
                self.tokens@ == toks,
                toks == old(self).tokens@,
                n == toks.len(),
                start == old(self).pos + 1,
                line == toks[old(self).pos as int].span.line,
                start <= self.pos <= toks.len(),
                values_from(toks, start, line) == (
                    deref_tokens(values@) + values_from(toks, self.pos as int, line).0,
                    values_from(toks, self.pos as int, line).1,
                ),
            ensures
                self.tokens@ == toks,
                toks == old(self).tokens@,
                n == toks.len(),
                start == old(self).pos + 1,
                line == toks[old(self).pos as int].span.line,
                start <= self.pos <= toks.len(),
                values_from(toks, self.pos as int, line) == (Seq::<Token>::empty(), self.pos as int),
                values_from(toks, start, line) == (
                    deref_tokens(values@) + values_from(toks, self.pos as int, line).0,
                    values_from(toks, self.pos as int, line).1,
                ),
            decreases toks.len() - self.pos,
        {
            let next = match self.peek_on(line) {
                Some(t) => t,
                None => break,
            };
            match &next.token_type {
                TokenType::Number(_) | TokenType::LabelRef(_) => {},
                _ => break,
            }
            let ghost before = values@;
            self.pos = self.pos + 1;
            values.push(next);
            proof {
                assert(deref_tokens(values@) =~= deref_tokens(before).push(*next));
                let rest = values_from(toks, self.pos as int, line).0;
                assert(deref_tokens(before) + (seq![*next] + rest) =~= deref_tokens(values@)
                    + rest);
            }
        }
        proof {
            assert(deref_tokens(values@) + Seq::<Token>::empty() =~= deref_tokens(values@));
        }
        Line::Byte(values)
    }

    /// Parses every line, recording each error and carrying on after it, and
    /// records each label declaration with the number of lines before it.
    fn parse(&mut self) -> (r: (Vec<Line<'a>>, Vec<ParserErr>, Vec<(&'a Token, usize)>))
        requires
            old(self).pos == 0,
        ensures
            views_of(r.0@) == parse_from(old(self).tokens@, 0, false, 0).0,
            r.1@ == parse_from(old(self).tokens@, 0, false, 0).1,
            label_decls(r.2@) == parse_from(old(self).tokens@, 0, false, 0).2,
    {
        let ghost toks = self.tokens@;
        let n = self.tokens.len();
        let mut lines: Vec<Line<'a>> = Vec::new();
        let mut errors: Vec<ParserErr> = Vec::new();
        let mut labels: Vec<(&'a Token, usize)> = Vec::new();
        let mut error_recovery = false;
        proof {
            let all = parse_from(toks, 0, false, 0);
            assert(views_of(lines@) + all.0 =~= all.0);
            assert(errors@ + all.1 =~= all.1);
            assert(label_decls(labels@) + all.2 =~= all.2);
        }
        while self.pos < n
            invariant
                self.tokens@ == toks,
                toks == old(self).tokens@,
                n == toks.len(),
                self.pos <= toks.len(),
                parse_from(toks, 0, false, 0) == (
                    views_of(lines@) + parse_from(
                        toks,
                        self.pos as int,
                        error_recovery,
                        lines@.len() as int,
                    ).0,
                    errors@ + parse_from(toks, self.pos as int, error_recovery, lines@.len() as int).1,
                    label_decls(labels@) + parse_from(
                        toks,
                        self.pos as int,
                        error_recovery,
                        lines@.len() as int,
                    ).2,
                ),
            decreases toks.len() - self.pos,
        {
            let ghost pos0 = self.pos as int;
            let ghost lines0 = lines@;
            let ghost errors0 = errors@;
            let ghost labels0 = labels@;
            let ghost k = lines@.len() as int;
            let token = self.peek().unwrap();
            match &token.token_type {
                TokenType::Mnemonic(_) => {
                    proof {
                        lemma_operands_from_advances(toks, pos0 + 1, token.span.line);
                    }
                    match self.instruction() {
                        Ok(line) => {
                            error_recovery = false;
                            lines.push(line);
                            proof {
                                let rest = parse_from(toks, self.pos as int, false, k + 1);
                                assert(views_of(lines@) =~= views_of(lines0).push(line@));
                                assert(views_of(lines0) + (seq![line@] + rest.0) =~= views_of(
                                    lines@,
                                ) + rest.0);
                            }
                        },
                        Err(err) => {
                            error_recovery = true;
                            errors.push(err);
                            proof {
                                let rest = parse_from(toks, self.pos as int, true, k);
                                assert(errors0 + (seq![err] + rest.1) =~= errors@ + rest.1);
                            }
                        },
                    }
                },
                TokenType::Byte => {
                    proof {
                        lemma_values_from_advances(toks, pos0 + 1, token.span.line);
                    }
                    let line = self.byte();
                    error_recovery = false;
                    lines.push(line);
                    proof {
                        let rest = parse_from(toks, self.pos as int, false, k + 1);
                        assert(views_of(lines@) =~= views_of(lines0).push(line@));
                        assert(views_of(lines0) + (seq![line@] + rest.0) =~= views_of(lines@)
                            + rest.0);
                    }
                },
                TokenType::Label(_) => {
                    self.pos = self.pos + 1;
                    error_recovery = false;
                    labels.push((token, lines.len()));
                    proof {
                        let rest = parse_from(toks, self.pos as int, false, k);
                        assert(label_decls(labels@) =~= label_decls(labels0).push((*token, k)));
                        assert(label_decls(labels0) + (seq![(*token, k)] + rest.2) =~= label_decls(
                            labels@,
                        ) + rest.2);
                    }
                },
                _ => {
                    if !error_recovery {
                        let err = ParserErr::UnexpectedLineBeginning(
                            token.content.clone(),
                            token.span.clone(),
                        );
                        errors.push(err);
                        proof {
                            let rest = parse_from(toks, pos0 + 1, true, k);
                            assert(errors0 + (seq![err] + rest.1) =~= errors@ + rest.1);
                        }
                    }
                    error_recovery = true;
                    self.pos = self.pos + 1;
                },
            }
        }
        proof {
            assert(views_of(lines@) + Seq::<LineView>::empty() =~= views_of(lines@));
            assert(errors@ + Seq::<ParserErr>::empty() =~= errors@);
            assert(label_decls(labels@) + Seq::<(Token, int)>::empty() =~= label_decls(labels@));
        }
        (lines, errors, labels)
    }
}

/// Parses a token stream into its lines, the syntax errors of the lines that
/// could not be parsed (parsing goes on after each error), and its label
/// declarations, each with the number of lines before it.
pub fn parse_lines<'a>(tokens: &'a [Token]) -> (r: (
    Vec<Line<'a>>,
    Vec<ParserErr>,
    Vec<(&'a Token, usize)>,
))
    ensures
        views_of(r.0@) == parse_from(tokens@, 0, false, 0).0,
        r.1@ == parse_from(tokens@, 0, false, 0).1,
        label_decls(r.2@) == parse_from(tokens@, 0, false, 0).2,
{
    let mut parser = Parser::new(tokens);
    parser.parse()
}

/// Parses a token stream: all its lines, or every syntax error found. Label
/// declarations make no line; `parse_lines` returns them.
pub fn parse<'a>(tokens: &'a [Token]) -> (r: Result<Vec<Line<'a>>, Vec<ParserErr>>)
    ensures
        parse_from(tokens@, 0, false, 0).1.len() == 0 ==> (r matches Ok(ls) && views_of(ls@)
            == parse_from(tokens@, 0, false, 0).0),
        parse_from(tokens@, 0, false, 0).1.len() > 0 ==> (r matches Err(es) && es@
            == parse_from(tokens@, 0, false, 0).1),
{
    let (lines, errors, _labels) = parse_lines(tokens);
    if errors.len() == 0 {
        Ok(lines)
    } else {
        Err(errors)
    }
}

} // verus!
