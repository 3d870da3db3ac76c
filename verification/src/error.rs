//! The two kinds of failure: of the reader and of the evaluator.

use crate::expr::Builtin;
use vstd::prelude::*;
use vstd::string::StringExecFns;

verus! {

/// Why a text is not an expression.
#[derive(Clone, Copy, Debug, PartialEq, Eq, Structural)]
pub enum ParseError {
    /// The tokens ran out before the expression was complete.
    UnexpectedEof,
    /// A `)` stands where an expression has to start.
    UnmatchedCloseParen,
}

/// The special forms.
#[derive(Clone, Copy, Debug, PartialEq, Eq, Structural)]
pub enum Form {
    Quote,
    If,
    Define,
    Lambda,
}

/// Why an expression has no value.
#[derive(Debug, PartialEq, Eq)]
pub enum EvalError {
    /// No frame of the environment binds the symbol.
    UndefinedSymbol(String),
    /// The head of an application is neither a primitive nor a closure.
    NotAProcedure,
    /// A primitive was given a number of arguments that it does not take.
    WrongArgumentCount(Builtin),
    /// A primitive was given an argument of a kind that it does not take.
    WrongArgumentKind(Builtin),
    /// A special form lacks an operand that it needs.
    MissingOperand(Form),
    /// The name of a `define` is not a symbol, or the parameters of a
    /// `lambda` are not a list.
    Malformed(Form),
    /// A parameter of a `lambda` is not a symbol.
    ParameterNotSymbol,
    /// The evaluation nests deeper than the caller allowed.
    TooDeep,
}

/// An evaluation failure, apart from how it is laid out in memory.
pub enum EvalErrorModel {
    UndefinedSymbol(Seq<char>),
    NotAProcedure,
    WrongArgumentCount(Builtin),
    WrongArgumentKind(Builtin),
    MissingOperand(Form),
    Malformed(Form),
    ParameterNotSymbol,
    TooDeep,
}

impl View for EvalError {
    type V = EvalErrorModel;

    open spec fn view(&self) -> EvalErrorModel {
        match *self {
            EvalError::UndefinedSymbol(name) => EvalErrorModel::UndefinedSymbol(name@),
            EvalError::NotAProcedure => EvalErrorModel::NotAProcedure,
            EvalError::WrongArgumentCount(b) => EvalErrorModel::WrongArgumentCount(b),
            EvalError::WrongArgumentKind(b) => EvalErrorModel::WrongArgumentKind(b),
            EvalError::MissingOperand(f) => EvalErrorModel::MissingOperand(f),
            EvalError::Malformed(f) => EvalErrorModel::Malformed(f),
            EvalError::ParameterNotSymbol => EvalErrorModel::ParameterNotSymbol,
            EvalError::TooDeep => EvalErrorModel::TooDeep,
        }
    }
}

/// The name under which the root environment binds a primitive.
pub open spec fn builtin_name(b: Builtin) -> Seq<char> {
    match b {
        Builtin::Add => "+"@,
        Builtin::Sub => "-"@,
        Builtin::Mul => "*"@,
        Builtin::Div => "/"@,
        Builtin::Less => "<"@,
        Builtin::Greater => ">"@,
        Builtin::Equal => "="@,
        Builtin::List => "list"@,
        Builtin::Car => "car"@,
        Builtin::Cdr => "cdr"@,
    }
}

/// What a primitive asks for when it is given the wrong number of arguments.
pub open spec fn count_complaint(b: Builtin) -> Seq<char> {
    match b {
        Builtin::Less | Builtin::Greater | Builtin::Equal => " requires 2 arguments"@,
        _ => " requires arguments"@,
    }
}

/// What a primitive asks for when it is given the wrong kind of argument.
pub open spec fn kind_complaint(b: Builtin) -> Seq<char> {
    match b {
        Builtin::Car | Builtin::Cdr => " requires non-empty list"@,
        _ => " requires numbers"@,
    }
}

/// The name of a special form.
pub open spec fn form_name(f: Form) -> Seq<char> {
    match f {
        Form::Quote => "quote"@,
        Form::If => "if"@,
        Form::Define => "define"@,
        Form::Lambda => "lambda"@,
    }
}

/// What a special form asks for when one of its operands has the wrong shape.
pub open spec fn shape_complaint(f: Form) -> Seq<char> {
    match f {
        Form::Lambda => " requires parameter list"@,
        _ => " requires symbol"@,
    }
}

impl EvalErrorModel {
    /// The text that reports the failure.
    pub open spec fn message(self) -> Seq<char> {
        match self {
            EvalErrorModel::UndefinedSymbol(name) => "undefined symbol: "@ + name,
            EvalErrorModel::NotAProcedure => "not a procedure"@,
            EvalErrorModel::WrongArgumentCount(b) => builtin_name(b) + count_complaint(b),
            EvalErrorModel::WrongArgumentKind(b) => builtin_name(b) + kind_complaint(b),
            EvalErrorModel::MissingOperand(f) => form_name(f) + " requires more operands"@,
            EvalErrorModel::Malformed(f) => form_name(f) + shape_complaint(f),
            EvalErrorModel::ParameterNotSymbol => "lambda parameters must be symbols"@,
            EvalErrorModel::TooDeep => "evaluation nests too deeply"@,
        }
    }
}

impl Builtin {
    /// The name under which the root environment binds the primitive.
    pub fn name(&self) -> (r: &'static str)
        ensures
            r@ == builtin_name(*self),
    {
        match self {
            Builtin::Add => "+",
            Builtin::Sub => "-",
            Builtin::Mul => "*",
            Builtin::Div => "/",
            Builtin::Less => "<",
            Builtin::Greater => ">",
            Builtin::Equal => "=",
            Builtin::List => "list",
            Builtin::Car => "car",
            Builtin::Cdr => "cdr",
        }
    }
}

impl Form {
    /// The symbol that introduces the form.
    pub fn name(&self) -> (r: &'static str)
        ensures
            r@ == form_name(*self),
    {
        match self {
            Form::Quote => "quote",
            Form::If => "if",
            Form::Define => "define",
            Form::Lambda => "lambda",
        }
    }
}

impl ParseError {
    /// The text that reports the failure.
    pub fn message(&self) -> (r: String)
        ensures
            r@ == match *self {
                ParseError::UnexpectedEof => "unexpected EOF"@,
                ParseError::UnmatchedCloseParen => "unexpected ')'"@,
            },
    {
        match self {
            ParseError::UnexpectedEof => String::from_str("unexpected EOF"),
            ParseError::UnmatchedCloseParen => String::from_str("unexpected ')'"),
        }
    }
}

impl EvalError {
    /// The text that reports the failure.
    pub fn message(&self) -> (r: String)
        ensures
            r@ == self@.message(),
    {
        match self {
            EvalError::UndefinedSymbol(name) => {
                String::from_str("undefined symbol: ").concat(name.as_str())
            },
            EvalError::NotAProcedure => String::from_str("not a procedure"),
            EvalError::WrongArgumentCount(b) => {
                let complaint = match b {
                    Builtin::Less | Builtin::Greater | Builtin::Equal => " requires 2 arguments",
                    _ => " requires arguments",
                };
                String::from_str(b.name()).concat(complaint)
            },
            EvalError::WrongArgumentKind(b) => {
                let complaint = match b {
                    Builtin::Car | Builtin::Cdr => " requires non-empty list",
                    _ => " requires numbers",
                };
                String::from_str(b.name()).concat(complaint)
            },
            EvalError::MissingOperand(f) => {
                String::from_str(f.name()).concat(" requires more operands")
            },
            EvalError::Malformed(f) => {
                let complaint = match f {
                    Form::Lambda => " requires parameter list",
                    _ => " requires symbol",
                };
                String::from_str(f.name()).concat(complaint)
            },
            EvalError::ParameterNotSymbol => String::from_str("lambda parameters must be symbols"),
            EvalError::TooDeep => String::from_str("evaluation nests too deeply"),
        }
    }
}

} // verus!
