use crate::lexer::LexerErr;
use crate::token::Span;
use std::path::PathBuf;
use vstd::prelude::*;

verus! {

/// A path in the file system, carried through diagnostics unchanged.
#[verifier::external_type_specification]
#[verifier::external_body]
pub struct ExPathBuf(PathBuf);

/// An I/O error, carried through diagnostics unchanged.
#[verifier::external_type_specification]
#[verifier::external_body]
pub struct ExIoError(std::io::Error);

/// A place in a source file: zero-based line and column.
#[derive(PartialEq, Eq, Structural, Debug, Clone, Copy)]
pub struct SrcFileLoc {
    pub line: usize,
    pub column: usize,
}

impl SrcFileLoc {
    pub fn at(line: usize, column: usize) -> (r: Self)
        ensures
            r.line == line,
            r.column == column,
    {
        SrcFileLoc { line, column }
    }

    /// The place where a span begins.
    pub fn of_span(span: &Span) -> (r: Self)
        ensures
            r.line == span.line,
            r.column == span.chars.start,
    {
        SrcFileLoc { line: span.line, column: span.chars.start }
    }
}

/// Where a diagnostic points: a file, a place, both or neither.
#[derive(Debug)]
pub struct SrcFileInfo {
    pub loc: Option<SrcFileLoc>,
    pub file: Option<PathBuf>,
}

impl SrcFileInfo {
    pub fn new_with_loc(loc: SrcFileLoc) -> (r: Self)
        ensures
            r.loc == Some(loc),
            r.file is None,
    {
        Self { loc: Some(loc), file: None }
    }

    pub fn new(file: PathBuf, loc: SrcFileLoc) -> (r: Self)
        ensures
            r.loc == Some(loc),
            r.file == Some(file),
    {
        Self { loc: Some(loc), file: Some(file) }
    }

    /// The same place, in the given file.
    pub fn with_filename(self, file: PathBuf) -> (r: Self)
        ensures
            r.loc == self.loc,
            r.file == Some(file),
    {
        Self { loc: self.loc, file: Some(file) }
    }
}

impl Default for SrcFileInfo {
    fn default() -> (r: Self)
        ensures
            r.loc is None,
            r.file is None,
    {
        Self { loc: None, file: None }
    }
}

/// The separator between a location prefix and a message: a space when
/// there is a prefix.
pub fn space(info: &SrcFileInfo) -> (r: &'static str)
    ensures
        r@ == (if info.file is Some || info.loc is Some {
            " "@
        } else {
            ""@
        }),
{
    if info.file.is_some() || info.loc.is_some() {
        " "
    } else {
        ""
    }
}

/// An error with the place it points at.
#[derive(Debug)]
pub struct InnerError<E> {
    pub error: E,
    pub info: SrcFileInfo,
}

/// The span that a lexer error carries.
pub open spec fn lexer_err_span(e: LexerErr) -> Span {
    match e {
        LexerErr::UnknownToken(_, sp) => sp,
        LexerErr::NumberParseError(_, sp) => sp,
        LexerErr::LabelParseError(_, sp) => sp,
    }
}

impl From<LexerErr> for InnerError<LexerErr> {
    /// Places a lexer error at the start of its span.
    fn from(value: LexerErr) -> (r: Self) {
        let loc = match &value {
            LexerErr::UnknownToken(_, sp) => SrcFileLoc::of_span(sp),
            LexerErr::NumberParseError(_, sp) => SrcFileLoc::of_span(sp),
            LexerErr::LabelParseError(_, sp) => SrcFileLoc::of_span(sp),
        };
        InnerError { error: value, info: SrcFileInfo::new_with_loc(loc) }
    }
}

impl vstd::std_specs::convert::FromSpecImpl<LexerErr> for InnerError<LexerErr> {
    open spec fn obeys_from_spec() -> bool {
        true
    }

    open spec fn from_spec(value: LexerErr) -> Self {
        InnerError {
            error: value,
            info: SrcFileInfo {
                loc: Some(
                    SrcFileLoc {
                        line: lexer_err_span(value).line,
                        column: lexer_err_span(value).chars.start,
                    },
                ),
                file: None,
            },
        }
    }
}

/// A diagnostic of a run: an I/O failure or a lexical error, with its place.
#[derive(Debug)]
pub enum Error {
    Io(InnerError<std::io::Error>),
    Lexer(InnerError<LexerErr>),
}

impl Error {
    /// The same diagnostic, pointing into the given file.
    pub fn with_filename(self, pb: PathBuf) -> (r: Self)
        ensures
            match (self, r) {
                (Error::Io(a), Error::Io(b)) => b.error == a.error && b.info.loc == a.info.loc
                    && b.info.file == Some(pb),
                (Error::Lexer(a), Error::Lexer(b)) => b.error == a.error && b.info.loc
                    == a.info.loc && b.info.file == Some(pb),
                _ => false,
            },
    {
        match self {
            Error::Io(inner) => Error::Io(
                InnerError { error: inner.error, info: inner.info.with_filename(pb) },
            ),
            Error::Lexer(inner) => Error::Lexer(
                InnerError { error: inner.error, info: inner.info.with_filename(pb) },
            ),
        }
    }
}

/// Splits results into the successes, when there is no failure, or else the
/// failures, each in order.
pub fn result_split<T, E>(results: Vec<Result<T, E>>) -> (r: Result<Vec<T>, Vec<E>>)
    ensures
        errs_of(results@).len() == 0 ==> (r matches Ok(ts) && ts@ == oks_of(results@)),
        errs_of(results@).len() > 0 ==> (r matches Err(es) && es@ == errs_of(results@)),
{
    let n = results.len();
    let mut pending = results;
    let ghost all = pending@;
    let mut reversed: Vec<Result<T, E>> = Vec::new();
    while pending.len() > 0
        invariant
            pending@.len() + reversed@.len() == n,
            n == all.len(),
            forall|i: int| 0 <= i < pending@.len() ==> pending@[i] == all[i],
            forall|i: int| 0 <= i < reversed@.len() ==> reversed@[i] == all[n - 1 - i],
        decreases pending@.len(),
    {
        let x = pending.pop().unwrap();
        reversed.push(x);
    }
    let mut oks: Vec<T> = Vec::new();
    let mut errs: Vec<E> = Vec::new();
    let mut i: usize = 0;
    while i < n
        invariant
            n == all.len(),
            i <= n,
            reversed@.len() == n - i,
            forall|k: int| 0 <= k < reversed@.len() ==> reversed@[k] == all[n - 1 - k],
            oks@ == oks_of(all.subrange(0, i as int)),
            errs@ == errs_of(all.subrange(0, i as int)),
        decreases n - i,
    {
        let x = reversed.pop().unwrap();
        proof {
            assert(all.subrange(0, i + 1).drop_last() =~= all.subrange(0, i as int));
            assert(all.subrange(0, i + 1).last() == all[i as int]);
        }
        match x {
            Ok(t) => oks.push(t),
            Err(e) => errs.push(e),
        }
        i = i + 1;
    }
    proof {
        assert(all.subrange(0, n as int) =~= all);
    }
    if errs.len() == 0 {
        Ok(oks)
    } else {
        Err(errs)
    }
}

/// The successes among results, in order.
pub open spec fn oks_of<T, E>(rs: Seq<Result<T, E>>) -> Seq<T>
    decreases rs.len(),
{
    if rs.len() == 0 {
        Seq::empty()
    } else {
        match rs.last() {
            Ok(t) => oks_of(rs.drop_last()).push(t),
            Err(_) => oks_of(rs.drop_last()),
        }
    }
}

/// The failures among results, in order.
pub open spec fn errs_of<T, E>(rs: Seq<Result<T, E>>) -> Seq<E>
    decreases rs.len(),
{
    if rs.len() == 0 {
        Seq::empty()
    } else {
        match rs.last() {
            Ok(_) => errs_of(rs.drop_last()),
            Err(e) => errs_of(rs.drop_last()).push(e),
        }
    }
}

/// Splits a collection of results into its successes or its failures.
pub trait ResultSplit<T, E> {
    fn result_split(self) -> Result<Vec<T>, Vec<E>>;
}

impl<T, E> ResultSplit<T, E> for Vec<Result<T, E>> {
    fn result_split(self) -> Result<Vec<T>, Vec<E>> {
        result_split(self)
    }
}

/// Attaches a file name to the error of a result.
pub trait CustomizeResult {
    type Type;

    fn with_filename(self, path: PathBuf) -> Result<Self::Type, Error>;
}

impl<T> CustomizeResult for Result<T, Error> {
    type Type = T;

    fn with_filename(self, path: PathBuf) -> Result<T, Error> {
        match self {
            Ok(t) => Ok(t),
            Err(err) => Err(err.with_filename(path)),
        }
    }
}

/// Turns the lexer error of a result into a diagnostic placed at its span.
pub trait MapError {
    type Type;

    fn map_error(self) -> Result<Self::Type, Error>;
}

impl<T> MapError for Result<T, LexerErr> {
    type Type = T;

    fn map_error(self) -> Result<T, Error> {
        match self {
            Ok(t) => Ok(t),
            Err(err) => Err(Error::Lexer(InnerError::from(err))),
        }
    }
}

} // verus!
