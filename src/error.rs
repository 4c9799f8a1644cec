//! Failure kinds, parse failures, and the outcome model that parser contracts use.
use vstd::prelude::*;
use crate::span::{span_after, Span, SpanView};

verus! {

/// Low-level grammar mismatches: what a parser expected and did not find.
#[derive(Clone, Copy, Debug, PartialEq, Eq, Structural)]
pub enum GrammarKind {
    /// A fixed piece of text.
    Tag,
    /// A single expected character.
    Char,
    /// A digit.
    Digit,
    /// An identifier.
    Ident,
    /// The end of the input, where more text remained.
    Eof,
    /// A literal that ends before its closing delimiter.
    Complete,
    /// A character literal with nothing between its quotes.
    EscapedTransform,
    /// A literal whose decoded content is not allowed.
    Verify,
    /// A decimal numeral whose value does not fit in 32 bits.
    MapRes,
    /// No alternative matched: an operand was expected.
    Alt,
}

/// The closed set of failure kinds.
#[derive(Clone, Copy, Debug, PartialEq, Eq, Structural)]
pub enum ErrorKind {
    Default(GrammarKind),
    InvalidBinaryString,
    InvalidHexString,
    InvalidRegister,
    UnrecognizedInstruction,
    InvalidCharacterEscape,
}

/// A failure kind together with the span at which it happened.
#[derive(Clone, Copy, Debug)]
pub struct MIPSLangError<'a> {
    pub kind: ErrorKind,
    /// Location that caused the error.
    pub input: Span<'a>,
}

/// A failed parse. An `Error` means that the input did not match and an
/// enclosing alternative may try something else; a `Failure` means that the
/// input started a construct and then broke it, so no alternative is tried.
#[derive(Clone, Copy, Debug)]
pub enum ParseErr<'a> {
    Error(MIPSLangError<'a>),
    Failure(MIPSLangError<'a>),
}

/// On success, the span that remains and the value that was read.
pub type IResult<'a, O> = Result<(Span<'a>, O), ParseErr<'a>>;

impl<'a> MIPSLangError<'a> {
    pub fn from_error_kind(input: Span<'a>, kind: ErrorKind) -> (r: Self)
        ensures
            r.kind == kind,
            r.input == input,
    {
        MIPSLangError { kind, input }
    }

    /// Adding context to an error keeps the error that was found first.
    pub fn append(input: Span<'a>, kind: ErrorKind, other: Self) -> (r: Self)
        ensures
            r == other,
    {
        other
    }
}

/// Reclassification of a failure at a context boundary.
pub trait ChangeErrorKind: Sized {
    spec fn with_kind_spec(self, kind: ErrorKind) -> Self;

    /// The same failure, at the same span, with its kind replaced by `kind`.
    fn change_error_kind(self, kind: ErrorKind) -> (r: Self)
        ensures
            r == self.with_kind_spec(kind),
    ;
}

impl<'a> ChangeErrorKind for ParseErr<'a> {
    /// A recoverable error takes the new kind; a failure is left as it is.
    open spec fn with_kind_spec(self, kind: ErrorKind) -> Self {
        match self {
            ParseErr::Error(e) => ParseErr::Error(MIPSLangError { kind, input: e.input }),
            ParseErr::Failure(e) => ParseErr::Failure(e),
        }
    }

    fn change_error_kind(self, kind: ErrorKind) -> (r: Self) {
        match self {
            ParseErr::Error(e) => ParseErr::Error(MIPSLangError { kind, input: e.input }),
            ParseErr::Failure(e) => ParseErr::Failure(e),
        }
    }
}

/// What a parser does with its input, counted in characters from the start
/// of the input span: it consumes `len` characters and reads `value`, or it
/// fails with `kind` at `at` characters in, recoverably or not.
pub enum Outcome<T> {
    Done { len: nat, value: T },
    Fail { hard: bool, kind: ErrorKind, at: nat },
}

/// The result `r` of a parser run on `input` is the outcome `o` (the value
/// read is compared through its view).
pub open spec fn is_outcome<'a, T: View>(input: SpanView, r: IResult<'a, T>, o: Outcome<T::V>) -> bool {
    match o {
        Outcome::Done { len, value } => {
            &&& len <= input.fragment.len()
            &&& r is Ok
            &&& r->Ok_0.0@ == span_after(input, len)
            &&& r->Ok_0.1@ == value
        },
        Outcome::Fail { hard, kind, at } => {
            &&& at <= input.fragment.len()
            &&& r is Err
            &&& fails_with(r->Err_0, hard, kind, span_after(input, at))
        },
    }
}

/// `e` is a failure of the given severity and kind at span `at`.
pub open spec fn fails_with<'a>(e: ParseErr<'a>, hard: bool, kind: ErrorKind, at: SpanView) -> bool {
    match e {
        ParseErr::Error(x) => !hard && x.kind == kind && x.input@ == at,
        ParseErr::Failure(x) => hard && x.kind == kind && x.input@ == at,
    }
}

} // verus!
