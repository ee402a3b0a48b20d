//! The error families of the crate: parse-time errors with a byte
//! position, evaluation-time errors with reproduction context, and a
//! single storage error kind with a wrapped cause.

use vstd::prelude::*;

verus! {

/// What went wrong while parsing policy source text.
#[derive(Debug, Clone, Copy, PartialEq, Eq, Structural)]
pub enum ParseErrorKind {
    /// Input ended inside an unfinished form.
    UnexpectedEof,
    /// A character that no production allows at this point.
    UnexpectedChar,
    /// A string literal was still open at the end of input.
    UnterminatedString,
    /// A backslash escape that the language does not define.
    InvalidEscape,
    /// A numeric literal that does not fit a signed 64-bit integer,
    /// or is malformed.
    InvalidNumber,
    /// A closing parenthesis without a matching opening one, or input
    /// after a complete expression.
    Unbalanced,
    /// An opening parenthesis immediately followed by a closing one.
    EmptyList,
}

/// A parse error: its kind, and the byte offset at which it was noticed.
#[derive(Debug, Clone, Copy, PartialEq, Eq, Structural)]
pub struct ParseError {
    /// What was wrong.
    pub kind: ParseErrorKind,
    /// Byte offset into the UTF-8 input text.
    pub position: usize,
}

/// Ghost model of an evaluation error.
#[verifier::ext_equal]
pub enum EvalErrorS {
    /// An identifier with no binding in the environment.
    Unbound(Seq<char>),
    /// Operator, expected operand family, observed operand family.
    TypeMismatch(Seq<char>, Seq<char>, Seq<char>),
    /// Operator, expected argument count, observed argument count.
    Arity(Seq<char>, int, int),
    /// An identifier in head position that names no operator.
    UnknownOp(Seq<char>),
    /// Division by zero.
    DivByZero,
    /// Integer arithmetic outside the 64-bit range.
    Overflow,
    /// A head position that is not an identifier.
    MalformedHead,
}

/// What went wrong while evaluating a policy expression.
#[derive(Debug, PartialEq, Eq)]
pub enum EvalError {
    /// An identifier with no binding in the environment.
    Unbound(String),
    /// An operand family other than the operator expects.
    TypeMismatch {
        /// The operator.
        op: String,
        /// The operand family the operator wants.
        want: String,
        /// The operand family it got.
        got: String,
    },
    /// A wrong number of arguments.
    Arity {
        /// The operator.
        op: String,
        /// The argument count the operator wants.
        want: u64,
        /// The argument count it got.
        got: u64,
    },
    /// An identifier in head position that names no operator.
    UnknownOp(String),
    /// Division by zero.
    DivByZero,
    /// Integer arithmetic outside the 64-bit range.
    Overflow,
    /// A head position that is not an identifier.
    MalformedHead,
}

impl View for EvalError {
    type V = EvalErrorS;

    open spec fn view(&self) -> EvalErrorS {
        match self {
            EvalError::Unbound(s) => EvalErrorS::Unbound(s@),
            EvalError::TypeMismatch { op, want, got } => EvalErrorS::TypeMismatch(
                op@,
                want@,
                got@,
            ),
            EvalError::Arity { op, want, got } => EvalErrorS::Arity(op@, *want as int, *got as int),
            EvalError::UnknownOp(s) => EvalErrorS::UnknownOp(s@),
            EvalError::DivByZero => EvalErrorS::DivByZero,
            EvalError::Overflow => EvalErrorS::Overflow,
            EvalError::MalformedHead => EvalErrorS::MalformedHead,
        }
    }
}

/// A storage failure, wrapping a description of its cause.
#[derive(Debug)]
pub struct StorageError {
    /// Human-readable description of the underlying failure.
    pub cause: String,
}

impl View for StorageError {
    type V = Seq<char>;

    open spec fn view(&self) -> Seq<char> {
        self.cause@
    }
}

} // verus!
