//! What the interpreter asks of its host, what it is answered, and how a run
//! ends when it cannot go on.
//!
//! The interpreter itself does no input, output, floating-point arithmetic or
//! foreign calls. When it needs one of them it stops with a [`Request`]. The
//! host performs the request, appends the [`Reply`] to the [`Transcript`] and
//! runs the evaluation again from the same starting point; the evaluation then
//! reads the earlier replies in order instead of asking again.
use vstd::prelude::*;
use crate::ffi::CType;
use crate::value::{SVal, Value};

verus! {

/// A floating-point operation.
#[derive(Debug, Clone, Copy, PartialEq, Eq, Structural)]
pub enum FloatOp {
    Add,
    Sub,
    Mul,
    Div,
}

/// An integer operation that may overflow.
#[derive(Debug, Clone, Copy, PartialEq, Eq, Structural)]
pub enum ArithOp {
    Add,
    Sub,
    Mul,
}

/// One argument of a foreign call, with the C type it is passed as:
/// `Int` as a 64-bit integer, `Float` as a C `float` whose storage holds the
/// given binary64 bits, `Double` as a C `double`, `Str` as a C string.
#[derive(Debug)]
pub enum ForeignArg {
    Int(i64),
    Float(u64),
    Double(u64),
    Str(String),
}

/// A call of `symbol` in the shared library `library`.
#[derive(Debug)]
pub struct ForeignCall {
    pub library: String,
    pub symbol: String,
    pub args: Vec<ForeignArg>,
    pub ret: CType,
}

/// Work that only the host can do.
#[derive(Debug)]
pub enum Request {
    /// Write the text to standard output.
    Print(String),
    /// Write the text and a newline to standard output.
    PrintLine(String),
    /// Write the text and a newline to standard error.
    ErrorLine(String),
    /// Read a whole file: `Text` with its contents, or `Missing`.
    ReadFile(String),
    /// Parse a decimal floating-point literal: `Bits`, or `Missing`.
    ParseFloat(String),
    /// Apply the operation to two binary64 numbers: `Bits`.
    FloatArith(FloatOp, u64, u64),
    /// Divide the two integers as binary64 numbers: `Bits`.
    IntQuotient(i64, i64),
    /// Whether the first number is greater than the second: `Flag`.
    FloatGreater(u64, u64),
    /// Whether the two numbers are equal: `Flag`.
    FloatEqual(u64, u64),
    /// The text of a binary64 number as Rust displays it: `Text`.
    FloatText(u64),
    /// Open the library and find the symbol in it: `Unit`.
    OpenForeign(String, String),
    /// Make the call: `Int`, `Bits` or `Text`, by the return type.
    CallForeign(ForeignCall),
}

/// The host's answer to a [`Request`].
#[derive(Debug, Clone, PartialEq, Eq)]
pub enum Reply {
    Unit,
    Int(i64),
    Bits(u64),
    Flag(bool),
    Text(String),
    Missing,
}

/// Why an evaluation stopped without a value.
#[derive(Debug)]
pub enum Fault {
    /// Operands of the wrong types.
    TypeError,
    /// An index at or past the length (length, index).
    IndexOutOfBounds(usize, usize),
    /// A looked-up element or entry that is absent.
    UnwrapNone,
    /// An integer result outside the range of `i64`.
    Overflow(ArithOp),
    /// `>` on operands that cannot be compared.
    InvalidComparison(Value, Value),
    /// A foreign-call argument that does not fit its declared type.
    UnsupportedConversion(Value, CType),
    /// A string argument of a foreign call that holds a NUL character.
    NulInString(String),
    /// A foreign function declared to return `Char`.
    UnsupportedReturnType,
    /// A foreign call with as many arguments as declared types.
    ArgumentCountMismatch,
    /// A type name that names no C type.
    UnknownCType(String),
    /// A type in a foreign declaration that is not an atom.
    UnpackNonAtom,
    /// A dictionary key that is not a string.
    DictKeyNotString,
    /// `setq` on something other than an atom.
    SetqNameNotAtom,
    /// `ifel` on a condition that is not a boolean.
    ConditionNotBool,
    /// `inc` outside the global scope.
    IncludeNotGlobal,
    /// `inc` of a name that is not a string.
    IncludeNameNotString,
    /// `inc` of a file that cannot be read.
    IncludeUnreadable(String),
    FfiNeedsArgumentList,
    FfiNeedsFileName,
    FfiNeedsFunctionName,
    FfiNeedsReturnType,
    /// An integer literal that `i64` cannot hold.
    IntLiteral(String),
    /// A floating-point literal that does not parse.
    FloatLiteral(String),
    /// The program is to end with this exit status.
    Exit(i32),
    /// The evaluation ran out of steps.
    OutOfFuel,
    /// A reply that does not answer the request it stands for.
    UnexpectedReply,
}

/// How an evaluation ended.
#[derive(Debug)]
pub enum Outcome<T> {
    Done(T),
    Fail(Fault),
    Need(Request),
}

/// The replies to the requests of one evaluation, and how many have been read.
#[derive(Debug)]
pub struct Transcript {
    pub(crate) replies: Vec<Reply>,
    pub(crate) cursor: usize,
}

/// Model of a [`ForeignArg`].
pub enum SForeignArg {
    Int(i64),
    Float(u64),
    Double(u64),
    Str(Seq<char>),
}

/// Model of a [`Request`].
pub enum SRequest {
    Print(Seq<char>),
    PrintLine(Seq<char>),
    ErrorLine(Seq<char>),
    ReadFile(Seq<char>),
    ParseFloat(Seq<char>),
    FloatArith(FloatOp, u64, u64),
    IntQuotient(i64, i64),
    FloatGreater(u64, u64),
    FloatEqual(u64, u64),
    FloatText(u64),
    OpenForeign(Seq<char>, Seq<char>),
    CallForeign(Seq<char>, Seq<char>, Seq<SForeignArg>, CType),
}

/// Model of a [`Fault`].
pub enum SFault {
    TypeError,
    IndexOutOfBounds(usize, usize),
    UnwrapNone,
    Overflow(ArithOp),
    InvalidComparison(SVal, SVal),
    UnsupportedConversion(SVal, CType),
    NulInString(Seq<char>),
    UnsupportedReturnType,
    ArgumentCountMismatch,
    UnknownCType(Seq<char>),
    UnpackNonAtom,
    DictKeyNotString,
    SetqNameNotAtom,
    ConditionNotBool,
    IncludeNotGlobal,
    IncludeNameNotString,
    IncludeUnreadable(Seq<char>),
    FfiNeedsArgumentList,
    FfiNeedsFileName,
    FfiNeedsFunctionName,
    FfiNeedsReturnType,
    IntLiteral(Seq<char>),
    FloatLiteral(Seq<char>),
    Exit(i32),
    OutOfFuel,
    UnexpectedReply,
}

/// Model of an [`Outcome`].
#[verifier::ext_equal]
pub enum Res<T> {
    Done(T),
    Fail(SFault),
    Need(SRequest),
}

impl View for ForeignArg {
    type V = SForeignArg;

    open spec fn view(&self) -> SForeignArg {
        match self {
            ForeignArg::Int(i) => SForeignArg::Int(*i),
            ForeignArg::Float(b) => SForeignArg::Float(*b),
            ForeignArg::Double(b) => SForeignArg::Double(*b),
            ForeignArg::Str(s) => SForeignArg::Str(s@),
        }
    }
}

impl View for Request {
    type V = SRequest;

    open spec fn view(&self) -> SRequest {
        match self {
            Request::Print(s) => SRequest::Print(s@),
            Request::PrintLine(s) => SRequest::PrintLine(s@),
            Request::ErrorLine(s) => SRequest::ErrorLine(s@),
            Request::ReadFile(s) => SRequest::ReadFile(s@),
            Request::ParseFloat(s) => SRequest::ParseFloat(s@),
            Request::FloatArith(op, a, b) => SRequest::FloatArith(*op, *a, *b),
            Request::IntQuotient(a, b) => SRequest::IntQuotient(*a, *b),
            Request::FloatGreater(a, b) => SRequest::FloatGreater(*a, *b),
            Request::FloatEqual(a, b) => SRequest::FloatEqual(*a, *b),
            Request::FloatText(a) => SRequest::FloatText(*a),
            Request::OpenForeign(l, s) => SRequest::OpenForeign(l@, s@),
            Request::CallForeign(c) => SRequest::CallForeign(
                c.library@,
                c.symbol@,
                Seq::new(c.args@.len(), |i: int| c.args@[i]@),
                c.ret,
            ),
        }
    }
}

impl View for Fault {
    type V = SFault;

    open spec fn view(&self) -> SFault {
        match self {
            Fault::TypeError => SFault::TypeError,
            Fault::IndexOutOfBounds(l, i) => SFault::IndexOutOfBounds(*l, *i),
            Fault::UnwrapNone => SFault::UnwrapNone,
            Fault::Overflow(op) => SFault::Overflow(*op),
            Fault::InvalidComparison(a, b) => SFault::InvalidComparison(a@, b@),
            Fault::UnsupportedConversion(v, t) => SFault::UnsupportedConversion(v@, *t),
            Fault::NulInString(s) => SFault::NulInString(s@),
            Fault::UnsupportedReturnType => SFault::UnsupportedReturnType,
            Fault::ArgumentCountMismatch => SFault::ArgumentCountMismatch,
            Fault::UnknownCType(s) => SFault::UnknownCType(s@),
            Fault::UnpackNonAtom => SFault::UnpackNonAtom,
            Fault::DictKeyNotString => SFault::DictKeyNotString,
            Fault::SetqNameNotAtom => SFault::SetqNameNotAtom,
            Fault::ConditionNotBool => SFault::ConditionNotBool,
            Fault::IncludeNotGlobal => SFault::IncludeNotGlobal,
            Fault::IncludeNameNotString => SFault::IncludeNameNotString,
            Fault::IncludeUnreadable(s) => SFault::IncludeUnreadable(s@),
            Fault::FfiNeedsArgumentList => SFault::FfiNeedsArgumentList,
            Fault::FfiNeedsFileName => SFault::FfiNeedsFileName,
            Fault::FfiNeedsFunctionName => SFault::FfiNeedsFunctionName,
            Fault::FfiNeedsReturnType => SFault::FfiNeedsReturnType,
            Fault::IntLiteral(s) => SFault::IntLiteral(s@),
            Fault::FloatLiteral(s) => SFault::FloatLiteral(s@),
            Fault::Exit(c) => SFault::Exit(*c),
            Fault::OutOfFuel => SFault::OutOfFuel,
            Fault::UnexpectedReply => SFault::UnexpectedReply,
        }
    }
}

/// The model of an outcome, given the model of its value.
pub open spec fn res_of<T, U>(o: Outcome<T>, f: spec_fn(T) -> U) -> Res<U> {
    match o {
        Outcome::Done(v) => Res::Done(f(v)),
        Outcome::Fail(e) => Res::Fail(e@),
        Outcome::Need(r) => Res::Need(r@),
    }
}

/// The reply at position `pos`, if the host has given one.
pub open spec fn reply_at(rs: Seq<Reply>, pos: nat) -> Option<Reply> {
    if pos < rs.len() {
        Some(rs[pos as int])
    } else {
        None
    }
}

impl Reply {
    /// A copy of this reply.
    pub fn copy(&self) -> (r: Reply)
        ensures
            r == *self,
    {
        match self {
            Reply::Unit => Reply::Unit,
            Reply::Int(i) => Reply::Int(*i),
            Reply::Bits(b) => Reply::Bits(*b),
            Reply::Flag(b) => Reply::Flag(*b),
            Reply::Text(s) => Reply::Text(s.clone()),
            Reply::Missing => Reply::Missing,
        }
    }
}

impl Transcript {
    /// The replies the host has given, in order.
    pub closed spec fn answers(&self) -> Seq<Reply> {
        self.replies@
    }

    /// How many replies have been read.
    pub closed spec fn position(&self) -> nat {
        self.cursor as nat
    }

    /// Reading never passes the last reply.
    #[verifier::type_invariant]
    pub open spec fn inv(&self) -> bool {
        self.position() <= self.answers().len()
    }

    /// A transcript holding `replies`, none of them read.
    pub fn new(replies: Vec<Reply>) -> (r: Transcript)
        ensures
            r.answers() == replies@,
            r.position() == 0,
    {
        Transcript { replies, cursor: 0 }
    }

    /// How many replies have been read.
    pub fn cursor(&self) -> (r: usize)
        ensures
            r == self.position(),
    {
        self.cursor
    }

    /// The next unread reply, which is then read; `None` when all have been read.
    pub fn next_reply(&mut self) -> (r: Option<Reply>)
        ensures
            r == reply_at(old(self).answers(), old(self).position()),
            final(self).answers() == old(self).answers(),
            final(self).position() == (if r is Some { old(self).position() + 1 } else { old(self).position() }),
    {
        proof {
            use_type_invariant(&*self);
        }
        if self.cursor < self.replies.len() {
            let r = self.replies[self.cursor].copy();
            self.cursor = self.cursor + 1;
            Some(r)
        } else {
            None
        }
    }
}

} // verus!
