use crate::specs::{is_mnemonic_name, register_named, str_eq, Mnemonic, Register};
use crate::token::{Span, Token, TokenKind, TokenType, TokenView};
use core::ops::Range;
use vstd::prelude::*;

verus! {

/// Unicode's White_Space property, which `char::is_whitespace` tests: tab
/// to carriage return, space, next line, no-break space, ogham space mark,
/// en quad to hair space, line and paragraph separators, narrow no-break
/// space, medium mathematical space and ideographic space.
pub open spec fn whitespace(c: char) -> bool {
    let u = c as u32;
    ||| 0x09 <= u <= 0x0D
    ||| u == 0x20
    ||| u == 0x85
    ||| u == 0xA0
    ||| u == 0x1680
    ||| 0x2000 <= u <= 0x200A
    ||| u == 0x2028
    ||| u == 0x2029
    ||| u == 0x202F
    ||| u == 0x205F
    ||| u == 0x3000
}

/// What `char::is_alphabetic` returns for a character.
pub uninterp spec fn alphabetic(c: char) -> bool;

/// What `char::is_alphanumeric` returns for a character.
pub uninterp spec fn alphanumeric(c: char) -> bool;

/// Whether a character has Unicode's White_Space property.
fn is_whitespace(c: char) -> (r: bool)
    ensures
        r == whitespace(c),
{
    let u = c as u32;
    (0x09 <= u && u <= 0x0D) || u == 0x20 || u == 0x85 || u == 0xA0 || u == 0x1680 || (0x2000
        <= u && u <= 0x200A) || u == 0x2028 || u == 0x2029 || u == 0x202F || u == 0x205F || u
        == 0x3000
}

pub open spec fn is_ascii_letter(c: char) -> bool {
    ('a' <= c <= 'z') || ('A' <= c <= 'Z')
}

/// ASCII characters that the lexer gives a meaning of their own: digits,
/// punctuation and whitespace, none of which is a letter.
pub open spec fn is_ascii_mark(c: char) -> bool {
    ||| c == '[' || c == ']' || c == '#' || c == ';' || c == ':' || c == '-'
    ||| c == ' ' || c == '\t' || c == '\n' || c == '\r'
}

/// Relies on `char::is_alphabetic`, which depends on the character alone:
/// ASCII letters have Unicode's Alphabetic property, ASCII digits, spaces and
/// the punctuation of `is_ascii_mark` do not.
#[verifier::external_body]
fn is_alphabetic(c: char) -> (r: bool)
    ensures
        r == alphabetic(c),
        is_ascii_letter(c) ==> r,
        ('0' <= c <= '9') || is_ascii_mark(c) ==> !r,
{
    c.is_alphabetic()
}

/// Relies on `char::is_alphanumeric` (Alphabetic or Numeric), which depends
/// on the character alone: ASCII letters and digits have it, spaces and the
/// punctuation of `is_ascii_mark` do not.
#[verifier::external_body]
fn is_alphanumeric(c: char) -> (r: bool)
    ensures
        r == alphanumeric(c),
        is_ascii_letter(c) || ('0' <= c <= '9') ==> r,
        is_ascii_mark(c) ==> !r,
{
    c.is_alphanumeric()
}

/// Relies on `String::push`: appends one character.
#[verifier::external_body]
pub(crate) fn push_char(s: &mut String, c: char)
    ensures
        final(s)@ == old(s)@.push(c),
{
    s.push(c)
}

/// Why the lexer could not produce a token, with the span of the offending text.
#[derive(Debug, PartialEq, Eq)]
pub enum LexerErr {
    /// Text that is no token; holds the text.
    UnknownToken(String, Span),
    /// A digit sequence that does not fit its radix or a 64-bit integer; holds the text.
    NumberParseError(String, Span),
    /// A label declaration that does not begin its line; holds the label's name.
    LabelParseError(String, Span),
}

/// A lexer error seen through the characters of its text.
pub enum LexErrView {
    UnknownToken(Seq<char>, Span),
    NumberParseError(Seq<char>, Span),
    LabelParseError(Seq<char>, Span),
}

impl View for LexerErr {
    type V = LexErrView;

    open spec fn view(&self) -> LexErrView {
        match self {
            LexerErr::UnknownToken(s, sp) => LexErrView::UnknownToken(s@, *sp),
            LexerErr::NumberParseError(s, sp) => LexErrView::NumberParseError(s@, *sp),
            LexerErr::LabelParseError(s, sp) => LexErrView::LabelParseError(s@, *sp),
        }
    }
}

pub open spec fn is_digit(c: char) -> bool {
    '0' <= c <= '9'
}

pub open spec fn is_hex_digit(c: char) -> bool {
    ||| '0' <= c <= '9'
    ||| 'a' <= c <= 'f'
    ||| 'A' <= c <= 'F'
}

pub open spec fn digit_value(c: char) -> nat {
    if '0' <= c <= '9' {
        (c as nat - '0' as nat) as nat
    } else if 'a' <= c <= 'f' {
        (c as nat - 'a' as nat + 10) as nat
    } else if 'A' <= c <= 'F' {
        (c as nat - 'A' as nat + 10) as nat
    } else {
        16
    }
}

/// A non-empty sequence of digits of the radix.
pub open spec fn digits_valid(ds: Seq<char>, radix: nat) -> bool {
    &&& ds.len() > 0
    &&& forall|i: int| 0 <= i < ds.len() ==> #[trigger] digit_value(ds[i]) < radix
}

/// The value of a digit sequence in a radix, most significant digit first.
pub open spec fn digits_value(ds: Seq<char>, radix: nat) -> nat
    decreases ds.len(),
{
    if ds.len() == 0 {
        0
    } else {
        digits_value(ds.drop_last(), radix) * radix + digit_value(ds.last())
    }
}

/// The radix of a literal without sign, and where its digits begin: `0x` is
/// hexadecimal, `0b` binary, a leading `0` octal (the `0` counts as a digit),
/// anything else decimal.
pub open spec fn radix_of(u: Seq<char>) -> (nat, int) {
    if u.len() >= 2 && u[0] == '0' && u[1] == 'x' {
        (16, 2)
    } else if u.len() >= 2 && u[0] == '0' && u[1] == 'b' {
        (2, 2)
    } else if u.len() >= 1 && u[0] == '0' {
        (8, 0)
    } else {
        (10, 0)
    }
}

/// The value of a number literal: an optional `-`, a radix prefix and digits.
pub open spec fn literal_value(t: Seq<char>) -> Option<int> {
    let neg = t.len() > 0 && t[0] == '-';
    let u = if neg {
        t.drop_first()
    } else {
        t
    };
    let (radix, start) = radix_of(u);
    let ds = u.subrange(start, u.len() as int);
    if digits_valid(ds, radix) {
        Some(
            if neg {
                -digits_value(ds, radix)
            } else {
                digits_value(ds, radix) as int
            },
        )
    } else {
        None
    }
}

/// The value of a number literal, where it fits in an `i64`.
pub open spec fn number_literal(t: Seq<char>) -> Option<i64> {
    match literal_value(t) {
        Some(v) => if i64::MIN <= v <= i64::MAX {
            Some(v as i64)
        } else {
            None
        },
        None => None,
    }
}

proof fn lemma_digits_value_grows(ds: Seq<char>, radix: nat, i: int)
    requires
        0 <= i <= ds.len(),
        radix >= 1,
    ensures
        digits_value(ds.subrange(0, i), radix) <= digits_value(ds, radix),
    decreases ds.len() - i,
{
    if i < ds.len() {
        lemma_digits_value_grows(ds, radix, i + 1);
        let a = ds.subrange(0, i + 1);
        assert(a.drop_last() =~= ds.subrange(0, i));
        let v = digits_value(ds.subrange(0, i), radix);
        assert(v * radix >= v) by (nonlinear_arith)
            requires
                radix >= 1,
        ;
    } else {
        assert(ds.subrange(0, i) =~= ds);
    }
}

fn digit_of(c: char) -> (r: u32)
    ensures
        r == digit_value(c),
{
    if '0' <= c && c <= '9' {
        (c as u32) - ('0' as u32)
    } else if 'a' <= c && c <= 'f' {
        (c as u32) - ('a' as u32) + 10
    } else if 'A' <= c && c <= 'F' {
        (c as u32) - ('A' as u32) + 10
    } else {
        16
    }
}

/// Parses a number literal: an optional `-`, then `0x` for hexadecimal, `0b`
/// for binary, a leading `0` for octal, or decimal digits.
pub fn parse_number(s: &str) -> (r: Option<i64>)
    ensures
        r == number_literal(s@),
{
    let n = s.unicode_len();
    let neg = n > 0 && s.get_char(0) == '-';
    let b: usize = if neg {
        1
    } else {
        0
    };
    let ghost u = if neg {
        s@.drop_first()
    } else {
        s@
    };
    proof {
        assert(u =~= s@.subrange(b as int, n as int));
    }
    let (radix, skip): (u32, usize) = if n >= b + 2 && s.get_char(b) == '0' && s.get_char(b + 1)
        == 'x' {
        (16, 2)
    } else if n >= b + 2 && s.get_char(b) == '0' && s.get_char(b + 1) == 'b' {
        (2, 2)
    } else if n >= b + 1 && s.get_char(b) == '0' {
        (8, 0)
    } else {
        (10, 0)
    };
    let start = b + skip;
    let ghost ds = u.subrange(skip as int, u.len() as int);
    proof {
        assert(radix_of(u) == (radix as nat, skip as int));
        assert(ds =~= s@.subrange(start as int, n as int));
    }
    if start >= n {
        return None;
    }
    let limit: u128 = 0x8000_0000_0000_0000;
    let mut acc: u128 = 0;
    let mut i: usize = start;
    proof {
        assert(ds.subrange(0, 0) =~= Seq::<char>::empty());
    }
    while i < n
        invariant
            n == s@.len(),
            start <= i <= n,
            start < n,
            2 <= radix <= 16,
            limit == 0x8000_0000_0000_0000,
            neg == (n > 0 && s@[0] == '-'),
            u == (if neg {
                s@.drop_first()
            } else {
                s@
            }),
            radix_of(u) == (radix as nat, skip as int),
            ds == u.subrange(skip as int, u.len() as int),
            ds =~= s@.subrange(start as int, n as int),
            acc == digits_value(ds.subrange(0, i - start), radix as nat),
            acc <= limit,
            forall|k: int| 0 <= k < i - start ==> #[trigger] digit_value(ds[k]) < radix,
        decreases n - i,
    {
        let d = digit_of(s.get_char(i));
        if d >= radix {
            proof {
                assert(ds[i - start] == s@[i as int]);
                assert(!digits_valid(ds, radix as nat));
            }
            return None;
        }
        proof {
            let pre = ds.subrange(0, i - start);
            let next = ds.subrange(0, i + 1 - start);
            assert(next.drop_last() =~= pre);
            assert(next.last() == s@[i as int]);
            assert((acc as int) * (radix as int) <= 0x8000_0000_0000_0000 * 16) by (nonlinear_arith)
                requires
                    acc <= 0x8000_0000_0000_0000,
                    radix <= 16,
            ;
        }
        acc = acc * (radix as u128) + (d as u128);
        if acc > limit {
            proof {
                lemma_digits_value_grows(ds, radix as nat, i + 1 - start);
            }
            return None;
        }
        i = i + 1;
    }
    proof {
        assert(ds.subrange(0, n - start) =~= ds);
    }
    if neg {
        Some((0 - (acc as i128)) as i64)
    } else if acc < limit {
        Some(acc as i64)
    } else {
        None
    }
}

/// The classes of characters whose maximal runs the lexer consumes.
#[derive(Debug, PartialEq, Eq, Structural, Clone, Copy)]
pub enum CharClass {
    Alphabetic,
    Alphanumeric,
    HexDigit,
    NotNewline,
}

pub open spec fn in_class(k: CharClass, c: char) -> bool {
    match k {
        CharClass::Alphabetic => alphabetic(c),
        CharClass::Alphanumeric => alphanumeric(c),
        CharClass::HexDigit => is_hex_digit(c),
        CharClass::NotNewline => c != '\n',
    }
}

/// The end of the maximal run of characters of class `k` that starts at `i`.
pub open spec fn run_end(s: Seq<char>, i: int, k: CharClass) -> int
    decreases s.len() - i,
{
    if 0 <= i < s.len() && in_class(k, s[i]) {
        run_end(s, i + 1, k)
    } else {
        i
    }
}

proof fn lemma_run_end(s: Seq<char>, i: int, k: CharClass)
    requires
        0 <= i <= s.len(),
    ensures
        i <= run_end(s, i, k) <= s.len(),
        i < s.len() && in_class(k, s[i]) ==> run_end(s, i, k) > i,
    decreases s.len() - i,
{
    if i < s.len() && in_class(k, s[i]) {
        lemma_run_end(s, i + 1, k);
    }
}

/// Where whitespace and `;` comments starting at `pos` end, with the line and
/// column there.
pub open spec fn skip(s: Seq<char>, pos: int, line: int, col: int) -> (int, int, int)
    decreases s.len() - pos,
    via skip_decreases
{
    if pos < 0 || pos >= s.len() {
        (pos, line, col)
    } else if whitespace(s[pos]) {
        if s[pos] == '\n' {
            skip(s, pos + 1, line + 1, 0)
        } else {
            skip(s, pos + 1, line, col + 1)
        }
    } else if s[pos] == ';' {
        let e = run_end(s, pos, CharClass::NotNewline);
        skip(s, e, line, col + (e - pos))
    } else {
        (pos, line, col)
    }
}

#[via_fn]
proof fn skip_decreases(s: Seq<char>, pos: int, line: int, col: int) {
    if 0 <= pos < s.len() && !whitespace(s[pos]) && s[pos] == ';' {
        lemma_run_end(s, pos, CharClass::NotNewline);
    }
}

proof fn lemma_skip(s: Seq<char>, pos: int, line: int, col: int)
    requires
        0 <= pos <= s.len(),
        0 <= line <= pos,
        0 <= col <= pos,
    ensures
        pos <= skip(s, pos, line, col).0 <= s.len(),
        0 <= skip(s, pos, line, col).1 <= skip(s, pos, line, col).0,
        0 <= skip(s, pos, line, col).2 <= skip(s, pos, line, col).0,
    decreases s.len() - pos,
{
    if pos < s.len() {
        if whitespace(s[pos]) {
            if s[pos] == '\n' {
                lemma_skip(s, pos + 1, line + 1, 0);
            } else {
                lemma_skip(s, pos + 1, line, col + 1);
            }
        } else if s[pos] == ';' {
            lemma_run_end(s, pos, CharClass::NotNewline);
            let e = run_end(s, pos, CharClass::NotNewline);
            lemma_skip(s, e, line, col + (e - pos));
        }
    }
}

pub open spec fn span_of(line: int, col: int, width: int) -> Span {
    Span { line: line as usize, chars: Range { start: col as usize, end: (col + width) as usize } }
}

pub open spec fn starts_number(s: Seq<char>, p: int) -> bool {
    ||| is_digit(s[p])
    ||| (s[p] == '-' && p + 1 < s.len() && is_digit(s[p + 1]))
}

/// Where a number literal that starts at `p` ends: after its sign, its radix
/// prefix and the maximal run of hexadecimal digits that follows.
pub open spec fn number_end(s: Seq<char>, p: int) -> int {
    let q = if s[p] == '-' {
        p + 1
    } else {
        p
    };
    run_end(s, q + radix_of(s.subrange(q, s.len() as int)).1, CharClass::HexDigit)
}

pub open spec fn token_view(kind: TokenKind, text: Seq<char>, span: Span) -> Result<
    TokenView,
    LexErrView,
> {
    Ok(TokenView { kind, content: text, span })
}

/// The token that starts at `p` (on `line`, at column `col`), and where it ends.
pub open spec fn token_at(s: Seq<char>, p: int, line: int, col: int) -> (
    Result<TokenView, LexErrView>,
    int,
) {
    let c = s[p];
    if starts_number(s, p) {
        let e = number_end(s, p);
        let text = s.subrange(p, e);
        let sp = span_of(line, col, e - p);
        match number_literal(text) {
            Some(v) => (token_view(TokenKind::Number(v), text, sp), e),
            None => (Err(LexErrView::NumberParseError(text, sp)), e),
        }
    } else if alphabetic(c) {
        let e = run_end(s, p, CharClass::Alphabetic);
        let w = s.subrange(p, e);
        let sp = span_of(line, col, e - p);
        if w == "byte"@ {
            (token_view(TokenKind::Byte, w, sp), e)
        } else if e < s.len() && s[e] == ':' {
            let lsp = span_of(line, col, e + 1 - p);
            if col != 0 {
                (Err(LexErrView::LabelParseError(w, lsp)), e + 1)
            } else {
                (token_view(TokenKind::Label(w), w, lsp), e + 1)
            }
        } else if is_mnemonic_name(w) {
            (token_view(TokenKind::Mnemonic(w), w, sp), e)
        } else {
            match register_named(w) {
                Some(r) => (token_view(TokenKind::Register(r), w, sp), e),
                None => (Err(LexErrView::UnknownToken(w, sp)), e),
            }
        }
    } else if c == '[' {
        (token_view(TokenKind::LeftSquareBracket, seq![c], span_of(line, col, 1)), p + 1)
    } else if c == ']' {
        (token_view(TokenKind::RightSquareBracket, seq![c], span_of(line, col, 1)), p + 1)
    } else if c == '#' {
        let e = run_end(s, p + 1, CharClass::Alphanumeric);
        let name = s.subrange(p + 1, e);
        (token_view(TokenKind::LabelRef(name), name, span_of(line, col, e - p)), e)
    } else {
        (Err(LexErrView::UnknownToken(seq![c], span_of(line, col, 1))), p + 1)
    }
}

proof fn lemma_token_at(s: Seq<char>, p: int, line: int, col: int)
    requires
        0 <= p < s.len(),
    ensures
        p < token_at(s, p, line, col).1 <= s.len(),
{
    let c = s[p];
    if starts_number(s, p) {
        let q = if s[p] == '-' {
            p + 1
        } else {
            p
        };
        let u = s.subrange(q, s.len() as int);
        assert(u[0] == s[q]);
        if u.len() >= 2 {
            assert(u[1] == s[q + 1]);
        }
        lemma_run_end(s, q + radix_of(u).1, CharClass::HexDigit);
    } else if alphabetic(c) {
        lemma_run_end(s, p, CharClass::Alphabetic);
    } else if c == '#' {
        lemma_run_end(s, p + 1, CharClass::Alphanumeric);
    }
}

/// One call of the lexer from a state: nothing at the end of the input, else
/// the next token (or error) and the state after it.
pub open spec fn lex_step(s: Seq<char>, pos: int, line: int, col: int) -> Option<
    (Result<TokenView, LexErrView>, (int, int, int)),
> {
    let (p, l, c) = skip(s, pos, line, col);
    if p < 0 || p >= s.len() {
        None
    } else {
        let (r, e) = token_at(s, p, l, c);
        Some((r, (e, l, c + (e - p))))
    }
}

/// Everything the lexer yields from a state on.
pub open spec fn lex_from(s: Seq<char>, pos: int, line: int, col: int) -> Seq<
    Result<TokenView, LexErrView>,
>
    decreases s.len() - pos,
    via lex_from_decreases
{
    if pos < 0 || pos > s.len() || line < 0 || line > pos || col < 0 || col > pos {
        Seq::empty()
    } else {
        match lex_step(s, pos, line, col) {
            None => Seq::empty(),
            Some((r, (e, l, c))) => seq![r] + lex_from(s, e, l, c),
        }
    }
}

#[via_fn]
proof fn lex_from_decreases(s: Seq<char>, pos: int, line: int, col: int) {
    if 0 <= pos <= s.len() && 0 <= line <= pos && 0 <= col <= pos {
        lemma_skip(s, pos, line, col);
        let (p, l, c) = skip(s, pos, line, col);
        if 0 <= p < s.len() {
            lemma_token_at(s, p, l, c);
        }
    }
}

pub open spec fn result_view(r: Result<Token, LexerErr>) -> Result<TokenView, LexErrView> {
    match r {
        Ok(t) => Ok(t@),
        Err(e) => Err(e@),
    }
}

/// A scanner over source characters that yields one token per call.
pub struct Lexer<'a> {
    content: &'a [char],
    pos: usize,
    current_line: usize,
    current_char: usize,
}

fn in_class_exec(k: CharClass, c: char) -> (r: bool)
    ensures
        r == in_class(k, c),
{
    match k {
        CharClass::Alphabetic => is_alphabetic(c),
        CharClass::Alphanumeric => is_alphanumeric(c),
        CharClass::HexDigit => ('0' <= c && c <= '9') || ('a' <= c && c <= 'f') || ('A' <= c
            && c <= 'F'),
        CharClass::NotNewline => c != '\n',
    }
}

impl<'a> Lexer<'a> {
    /// The characters being scanned.
    pub closed spec fn source(&self) -> Seq<char> {
        self.content@
    }

    /// Position, line and column of the next character.
    pub closed spec fn state(&self) -> (int, int, int) {
        (self.pos as int, self.current_line as int, self.current_char as int)
    }

    pub closed spec fn wf(&self) -> bool {
        &&& self.pos <= self.content@.len()
        &&& self.current_line <= self.pos
        &&& self.current_char <= self.pos
    }

    pub fn new(content: &'a [char]) -> (r: Self)
        ensures
            r.wf(),
            r.source() == content@,
            r.state() == (0int, 0int, 0int),
    {
        Self { content, pos: 0, current_line: 0, current_char: 0 }
    }

    fn peek(&self, offset: usize) -> (r: Option<char>)
        ensures
            self.pos + offset < self.content@.len() ==> r == Some(
                self.content@[self.pos + offset],
            ),
            self.pos + offset >= self.content@.len() ==> r is None,
    {
        let n = self.content.len();
        if self.pos >= n || offset >= n - self.pos {
            return None;
        }
        Some(self.content[self.pos + offset])
    }

    /// The end of the run of characters of class `k` that starts at `i`.
    fn run_end(&self, i: usize, k: CharClass) -> (r: usize)
        requires
            i <= self.content@.len(),
        ensures
            r == run_end(self.content@, i as int, k),
    {
        let n = self.content.len();
        let mut j = i;
        while j < n && in_class_exec(k, self.content[j])
            invariant
                n == self.content@.len(),
                i <= j <= n,
                run_end(self.content@, i as int, k) == run_end(self.content@, j as int, k),
            decreases n - j,
        {
            j = j + 1;
        }
        j
    }

    /// Consumes the characters up to `end` on the current line and returns them.
    fn chop(&mut self, end: usize) -> (r: String)
        requires
            old(self).wf(),
            old(self).pos <= end <= old(self).content@.len(),
        ensures
            final(self).wf(),
            final(self).content@ == old(self).content@,
            r@ == old(self).content@.subrange(old(self).pos as int, end as int),
            final(self).state() == (
                end as int,
                old(self).current_line as int,
                old(self).current_char + (end - old(self).pos),
            ),
    {
        let mut lexeme = String::new();
        let start = self.pos;
        while self.pos < end
            invariant
                self.wf(),
                self.content@ == old(self).content@,
                self.current_line == old(self).current_line,
                start == old(self).pos,
                start <= self.pos <= end,
                end <= self.content@.len(),
                self.current_char == old(self).current_char + (self.pos - start),
                lexeme@ == self.content@.subrange(start as int, self.pos as int),
            decreases end - self.pos,
        {
            push_char(&mut lexeme, self.content[self.pos]);
            proof {
                assert(self.content@.subrange(start as int, self.pos + 1) =~= self.content@.subrange(
                    start as int,
                    self.pos as int,
                ).push(self.content@[self.pos as int]));
            }
            self.pos = self.pos + 1;
            self.current_char = self.current_char + 1;
        }
        lexeme
    }

    /// Skips whitespace and comments, keeping track of lines and columns.
    fn trim_while(&mut self)
        requires
            old(self).wf(),
        ensures
            final(self).wf(),
            final(self).content@ == old(self).content@,
            final(self).state() == skip(
                old(self).content@,
                old(self).pos as int,
                old(self).current_line as int,
                old(self).current_char as int,
            ),
    {
        let n = self.content.len();
        while self.pos < n
            invariant
                self.wf(),
                n == self.content@.len(),
                self.content@ == old(self).content@,
                skip(
                    self.content@,
                    old(self).pos as int,
                    old(self).current_line as int,
                    old(self).current_char as int,
                ) == skip(
                    self.content@,
                    self.pos as int,
                    self.current_line as int,
                    self.current_char as int,
                ),
            ensures
                self.wf(),
                self.content@ == old(self).content@,
                skip(
                    self.content@,
                    old(self).pos as int,
                    old(self).current_line as int,
                    old(self).current_char as int,
                ) == self.state(),
            decreases n - self.pos,
        {
            let c = self.content[self.pos];
            if is_whitespace(c) {
                if c == '\n' {
                    self.current_line = self.current_line + 1;
                    self.current_char = 0;
                } else {
                    self.current_char = self.current_char + 1;
                }
                self.pos = self.pos + 1;
            } else if c == ';' {
                let e = self.run_end(self.pos, CharClass::NotNewline);
                proof {
                    lemma_run_end(self.content@, self.pos as int, CharClass::NotNewline);
                }
                self.current_char = self.current_char + (e - self.pos);
                self.pos = e;
            } else {
                break;
            }
        }
    }

    /// Scans a number literal: sign, radix prefix, then hexadecimal digits.
    fn parse_number(&mut self) -> (r: Result<Token, LexerErr>)
        requires
            old(self).wf(),
            old(self).pos < old(self).content@.len(),
            starts_number(old(self).content@, old(self).pos as int),
        ensures
            final(self).wf(),
            final(self).content@ == old(self).content@,
            ({
                let (t, e) = token_at(
                    old(self).content@,
                    old(self).pos as int,
                    old(self).current_line as int,
                    old(self).current_char as int,
                );
                &&& result_view(r) == t
                &&& final(self).state() == (
                    e,
                    old(self).current_line as int,
                    old(self).current_char + (e - old(self).pos),
                )
            }),
    {
        let ghost s = self.content@;
        let start = self.current_char;
        let p = self.pos;
        let q = if self.content[p] == '-' {
            p + 1
        } else {
            p
        };
        let ghost u = s.subrange(q as int, s.len() as int);
        proof {
            assert(u[0] == s[q as int]);
            if u.len() >= 2 {
                assert(u[1] == s[q + 1]);
            }
        }
        let n = self.content.len();
        let skip: usize = if q + 1 < n && self.content[q] == '0' && (self.content[q + 1] == 'x'
            || self.content[q + 1] == 'b') {
            2
        } else {
            0
        };
        proof {
            assert(radix_of(u).1 == skip);
        }
        let e = self.run_end(q + skip, CharClass::HexDigit);
        proof {
            lemma_run_end(s, (q + skip) as int, CharClass::HexDigit);
        }
        let text = self.chop(e);
        let sp = Span::new(self.current_line, Range { start, end: self.current_char });
        match parse_number(text.as_str()) {
            Some(number) => Ok(Token { token_type: TokenType::Number(number), content: text, span: sp }),
            None => Err(LexerErr::NumberParseError(text, sp)),
        }
    }

    /// Finishes a label declaration whose name was just scanned; the `:` follows.
    fn parse_label(&mut self, start: usize, str: String) -> (r: Result<Token, LexerErr>)
        requires
            old(self).wf(),
            old(self).pos < old(self).content@.len(),
        ensures
            final(self).wf(),
            final(self).content@ == old(self).content@,
            final(self).state() == (
                old(self).pos + 1,
                old(self).current_line as int,
                old(self).current_char + 1,
            ),
            ({
                let sp = Span {
                    line: old(self).current_line,
                    chars: Range { start, end: (old(self).current_char + 1) as usize },
                };
                if start != 0 {
                    result_view(r) == Err::<TokenView, LexErrView>(LexErrView::LabelParseError(str@, sp))
                } else {
                    result_view(r) == token_view(TokenKind::Label(str@), str@, sp)
                }
            }),
    {
        let n = self.content.len();
        let _colon = self.chop(self.pos + 1);
        let sp = Span::new(self.current_line, Range { start, end: self.current_char });
        if start != 0 {
            return Err(LexerErr::LabelParseError(str, sp));
        }
        Ok(Token { token_type: TokenType::Label(str.clone()), content: str, span: sp })
    }

    /// Scans the next token. Returns `None` at the end of the input; an error
    /// consumes the offending text, so that scanning can go on after it.
    pub fn next_token(&mut self) -> (r: Option<Result<Token, LexerErr>>)
        requires
            old(self).wf(),
        ensures
            final(self).wf(),
            final(self).source() == old(self).source(),
            match lex_step(old(self).source(), old(self).state().0, old(self).state().1, old(self).state().2) {
                None => r is None && final(self).state() == skip(
                    old(self).source(),
                    old(self).state().0,
                    old(self).state().1,
                    old(self).state().2,
                ),
                Some((t, st)) => r matches Some(x) && result_view(x) == t && final(self).state() == st,
            },
    {
        self.trim_while();
        let ghost s = self.content@;
        let n = self.content.len();
        if self.pos >= n {
            return None;
        }
        let start = self.current_char;
        let p = self.pos;
        let initial_character = self.content[p];
        if ('0' <= initial_character && initial_character <= '9') || (initial_character == '-'
            && p + 1 < n && '0' <= self.content[p + 1] && self.content[p + 1] <= '9') {
            return Some(self.parse_number());
        }
        if is_alphabetic(initial_character) {
            let e = self.run_end(p, CharClass::Alphabetic);
            proof {
                lemma_run_end(s, p as int, CharClass::Alphabetic);
            }
            let str = self.chop(e);
            let sp = Span::new(self.current_line, Range { start, end: self.current_char });
            if str_eq(str.as_str(), "byte") {
                return Some(Ok(Token { token_type: TokenType::Byte, content: str, span: sp }));
            }
            if self.peek(0) == Some(':') {
                return Some(self.parse_label(start, str));
            }
            if let Ok(mnemonic) = Mnemonic::from_str(str.as_str()) {
                return Some(
                    Ok(Token { token_type: TokenType::Mnemonic(mnemonic), content: str, span: sp }),
                );
            }
            if let Ok(register) = Register::from_str(str.as_str()) {
                return Some(
                    Ok(Token { token_type: TokenType::Register(register), content: str, span: sp }),
                );
            }
            return Some(Err(LexerErr::UnknownToken(str, sp)));
        }
        if initial_character == '[' || initial_character == ']' {
            let str = self.chop(p + 1);
            proof {
                assert(str@ =~= seq![initial_character]);
            }
            let sp = Span::new(self.current_line, Range { start, end: self.current_char });
            let token_type = if initial_character == '[' {
                TokenType::LeftSquareBracket
            } else {
                TokenType::RightSquareBracket
            };
            return Some(Ok(Token { token_type, content: str, span: sp }));
        }
        if initial_character == '#' {
            let _hash = self.chop(p + 1);
            let e = self.run_end(p + 1, CharClass::Alphanumeric);
            proof {
                lemma_run_end(s, p + 1, CharClass::Alphanumeric);
            }
            let str = self.chop(e);
            let sp = Span::new(self.current_line, Range { start, end: self.current_char });
            return Some(
                Ok(Token { token_type: TokenType::LabelRef(str.clone()), content: str, span: sp }),
            );
        }
        let str = self.chop(p + 1);
        proof {
            assert(str@ =~= seq![initial_character]);
        }
        let sp = Span::new(self.current_line, Range { start, end: self.current_char });
        Some(Err(LexerErr::UnknownToken(str, sp)))
    }
}

/// The tokens among lexer results, in order.
pub open spec fn ok_tokens(rs: Seq<Result<TokenView, LexErrView>>) -> Seq<TokenView>
    decreases rs.len(),
{
    if rs.len() == 0 {
        Seq::empty()
    } else {
        match rs.last() {
            Ok(t) => ok_tokens(rs.drop_last()).push(t),
            Err(_) => ok_tokens(rs.drop_last()),
        }
    }
}

/// The errors among lexer results, in order.
pub open spec fn lex_errors(rs: Seq<Result<TokenView, LexErrView>>) -> Seq<LexErrView>
    decreases rs.len(),
{
    if rs.len() == 0 {
        Seq::empty()
    } else {
        match rs.last() {
            Ok(_) => lex_errors(rs.drop_last()),
            Err(e) => lex_errors(rs.drop_last()).push(e),
        }
    }
}

pub open spec fn token_views(ts: Seq<Token>) -> Seq<TokenView> {
    ts.map_values(|t: Token| t@)
}

pub open spec fn error_views(es: Seq<LexerErr>) -> Seq<LexErrView> {
    es.map_values(|e: LexerErr| e@)
}

/// Scans the whole input: all its tokens, or every lexical error in it.
pub fn tokenize(content: &[char]) -> (r: Result<Vec<Token>, Vec<LexerErr>>)
    ensures
        lex_errors(lex_from(content@, 0, 0, 0)).len() == 0 ==> (r matches Ok(ts) && token_views(
            ts@,
        ) == ok_tokens(lex_from(content@, 0, 0, 0))),
        lex_errors(lex_from(content@, 0, 0, 0)).len() > 0 ==> (r matches Err(es) && error_views(
            es@,
        ) == lex_errors(lex_from(content@, 0, 0, 0))),
{
    let ghost s = content@;
    let n = content.len();
    let mut lexer = Lexer::new(content);
    let mut tokens: Vec<Token> = Vec::new();
    let mut errors: Vec<LexerErr> = Vec::new();
    let ghost mut seen: Seq<Result<TokenView, LexErrView>> = Seq::empty();
    proof {
        assert(seen + lex_from(s, 0, 0, 0) =~= lex_from(s, 0, 0, 0));
    }
    loop
        invariant_except_break
            lex_from(s, 0, 0, 0) == seen + lex_from(
                s,
                lexer.state().0,
                lexer.state().1,
                lexer.state().2,
            ),
        invariant
            lexer.wf(),
            lexer.source() == s,
            n == s.len(),
            token_views(tokens@) == ok_tokens(seen),
            error_views(errors@) == lex_errors(seen),
        ensures
            lex_from(s, 0, 0, 0) == seen,
            token_views(tokens@) == ok_tokens(seen),
            error_views(errors@) == lex_errors(seen),
        decreases n - lexer.state().0,
    {
        let ghost st = lexer.state();
        proof {
            lemma_skip(s, st.0, st.1, st.2);
            let (p, l, c) = skip(s, st.0, st.1, st.2);
            if 0 <= p < s.len() {
                lemma_token_at(s, p, l, c);
            }
        }
        match lexer.next_token() {
            None => {
                proof {
                    assert(seen + Seq::<Result<TokenView, LexErrView>>::empty() =~= seen);
                }
                break;
            },
            Some(result) => {
                let ghost rv = result_view(result);
                proof {
                    assert(seen.push(rv).drop_last() =~= seen);
                    assert(seen + (seq![rv] + lex_from(
                        s,
                        lexer.state().0,
                        lexer.state().1,
                        lexer.state().2,
                    )) =~= seen.push(rv) + lex_from(
                        s,
                        lexer.state().0,
                        lexer.state().1,
                        lexer.state().2,
                    ));
                }
                match result {
                    Ok(t) => {
                        let ghost before = tokens@;
                        tokens.push(t);
                        proof {
                            assert(token_views(tokens@) =~= token_views(before).push(t@));
                        }
                    },
                    Err(e) => {
                        let ghost before = errors@;
                        errors.push(e);
                        proof {
                            assert(error_views(errors@) =~= error_views(before).push(e@));
                        }
                    },
                }
                proof {
                    seen = seen.push(rv);
                }
            },
        }
    }
    if errors.len() == 0 {
        Ok(tokens)
    } else {
        Err(errors)
    }
}

} // verus!
