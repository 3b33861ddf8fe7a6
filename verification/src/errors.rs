//! The build-time error taxonomy: reading a formula's text, binding its
//! names, and linking the graph each have their own kinds.
use crate::lex::ParseError;
use crate::num::u64_dec;
use crate::num::u64_to_string;
use vstd::prelude::*;

verus! {

/// An error found while binding a formula against the registry.
#[derive(Debug)]
pub enum BindError {
    /// A call names a function that is not registered.
    UnknownFunction(String),
    /// A call has the wrong number of arguments.
    ArityMismatch { expected: usize, got: usize },
    /// A binary operation was applied to two values that are not both
    /// numbers.
    TypeMismatch(String),
    /// A pure function was called at build time on value arguments and
    /// produced nothing.
    PureReturnedNone(String),
    /// A `&name` reference names no formula.
    UnresolvedRef(String),
}

/// The spec-level image of a binding error.
pub enum BindErrorV {
    UnknownFunction(Seq<char>),
    ArityMismatch { expected: int, got: int },
    TypeMismatch(Seq<char>),
    PureReturnedNone(Seq<char>),
    UnresolvedRef(Seq<char>),
}

/// The spec-level image of a binding error.
pub open spec fn bind_error_view(e: BindError) -> BindErrorV {
    match e {
        BindError::UnknownFunction(s) => BindErrorV::UnknownFunction(s@),
        BindError::ArityMismatch { expected, got } => BindErrorV::ArityMismatch {
            expected: expected as int,
            got: got as int,
        },
        BindError::TypeMismatch(s) => BindErrorV::TypeMismatch(s@),
        BindError::PureReturnedNone(s) => BindErrorV::PureReturnedNone(s@),
        BindError::UnresolvedRef(s) => BindErrorV::UnresolvedRef(s@),
    }
}

/// An error found while assembling the execution graph.
#[derive(Debug)]
pub enum GraphError {
    /// The reference edges close a cycle; the payload names one edge that
    /// could not be ordered.
    CyclicReference { from: String, to: String },
    /// No formula is free of dependencies, so evaluation has nowhere to
    /// start.
    EmptyRootSet,
}

/// Any error that aborts the construction of an interpreter.
#[derive(Debug)]
pub enum Error {
    Parse(ParseError),
    Bind(BindError),
    Graph(GraphError),
}

impl Error {
    /// Whether this is a parse error.
    pub fn is_parse(&self) -> (r: bool)
        ensures
            r == (self is Parse),
    {
        match self {
            Error::Parse(_) => true,
            _ => false,
        }
    }

    /// Whether this is a graph error.
    pub fn is_graph(&self) -> (r: bool)
        ensures
            r == (self is Graph),
    {
        match self {
            Error::Graph(_) => true,
            _ => false,
        }
    }
}


/// The human-readable form of a parse error: its kind and its offset.
pub open spec fn parse_error_msg(e: ParseError) -> Seq<char> {
    match e {
        ParseError::UnexpectedToken(p) => "unexpected token at offset "@ + u64_dec(p as u64),
        ParseError::MissingRParen(p) => "missing right parenthesis at offset "@ + u64_dec(
            p as u64,
        ),
        ParseError::MissingArgument(p) => "missing argument at offset "@ + u64_dec(p as u64),
        ParseError::InvalidNumber(p) => "invalid number at offset "@ + u64_dec(p as u64),
        ParseError::UnterminatedRef(p) => "unterminated reference at offset "@ + u64_dec(
            p as u64,
        ),
    }
}

impl ParseError {
    /// Writes the error out for a reader: its kind and its offset.
    pub fn describe(&self) -> (r: String)
        ensures
            r@ == parse_error_msg(*self),
    {
        let (head, p) = match self {
            ParseError::UnexpectedToken(p) => ("unexpected token at offset ", *p),
            ParseError::MissingRParen(p) => ("missing right parenthesis at offset ", *p),
            ParseError::MissingArgument(p) => ("missing argument at offset ", *p),
            ParseError::InvalidNumber(p) => ("invalid number at offset ", *p),
            ParseError::UnterminatedRef(p) => ("unterminated reference at offset ", *p),
        };
        let mut s = String::from_str(head);
        s.append(u64_to_string(p as u64).as_str());
        proof {
            assert(s@ =~= parse_error_msg(*self));
        }
        s
    }
}

/// The human-readable form of a binding error.
pub open spec fn bind_error_msg(e: BindError) -> Seq<char> {
    match e {
        BindError::UnknownFunction(n) => "unknown function "@ + n@,
        BindError::ArityMismatch { expected, got } => "arity mismatch: expected "@ + u64_dec(
            expected as u64,
        ) + ", got "@ + u64_dec(got as u64),
        BindError::TypeMismatch(m) => m@,
        BindError::PureReturnedNone(n) => "pure function "@ + n@ + " returned nothing"@,
        BindError::UnresolvedRef(n) => "unresolved reference "@ + n@,
    }
}

impl BindError {
    /// Writes the error out for a reader: its kind and what it names.
    pub fn describe(&self) -> (r: String)
        ensures
            r@ == bind_error_msg(*self),
    {
        match self {
            BindError::UnknownFunction(n) => {
                let mut s = String::from_str("unknown function ");
                s.append(n.as_str());
                proof {
                    assert(s@ =~= bind_error_msg(*self));
                }
                s
            },
            BindError::ArityMismatch { expected, got } => {
                let mut s = String::from_str("arity mismatch: expected ");
                s.append(u64_to_string(*expected as u64).as_str());
                s.append(", got ");
                s.append(u64_to_string(*got as u64).as_str());
                proof {
                    assert(s@ =~= bind_error_msg(*self));
                }
                s
            },
            BindError::TypeMismatch(m) => m.clone(),
            BindError::PureReturnedNone(n) => {
                let mut s = String::from_str("pure function ");
                s.append(n.as_str());
                s.append(" returned nothing");
                proof {
                    assert(s@ =~= bind_error_msg(*self));
                }
                s
            },
            BindError::UnresolvedRef(n) => {
                let mut s = String::from_str("unresolved reference ");
                s.append(n.as_str());
                proof {
                    assert(s@ =~= bind_error_msg(*self));
                }
                s
            },
        }
    }
}

/// The human-readable form of a graph error.
pub open spec fn graph_error_msg(e: GraphError) -> Seq<char> {
    match e {
        GraphError::CyclicReference { from, to } => "cyclic reference from "@ + from@ + " to "@
            + to@,
        GraphError::EmptyRootSet => "the root set is empty"@,
    }
}

impl GraphError {
    /// Writes the error out for a reader.
    pub fn describe(&self) -> (r: String)
        ensures
            r@ == graph_error_msg(*self),
    {
        match self {
            GraphError::CyclicReference { from, to } => {
                let mut s = String::from_str("cyclic reference from ");
                s.append(from.as_str());
                s.append(" to ");
                s.append(to.as_str());
                proof {
                    assert(s@ =~= graph_error_msg(*self));
                }
                s
            },
            GraphError::EmptyRootSet => String::from_str("the root set is empty"),
        }
    }
}

/// The human-readable form of a build error.
pub open spec fn error_msg(e: Error) -> Seq<char> {
    match e {
        Error::Parse(pe) => parse_error_msg(pe),
        Error::Bind(be) => bind_error_msg(be),
        Error::Graph(ge) => graph_error_msg(ge),
    }
}

impl Error {
    /// Writes the error out for a reader: its kind and what it names.
    pub fn describe(&self) -> (r: String)
        ensures
            r@ == error_msg(*self),
    {
        match self {
            Error::Parse(pe) => pe.describe(),
            Error::Bind(be) => be.describe(),
            Error::Graph(ge) => ge.describe(),
        }
    }
}

} // verus!
