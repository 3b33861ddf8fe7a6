//! The runtime value sort and the contract between the evaluator and
//! host-supplied functions.
use vstd::prelude::*;

verus! {

/// One tick of time-series data. The two fields are doubles, carried as
/// IEEE-754 bit patterns.
#[derive(Debug, PartialEq, Eq, Structural, Clone, Copy)]
pub struct TimeStep {
    pub price: u64,
    pub time: u64,
}

/// A runtime value: every argument handed to a host function and every
/// formula result is one of these. `Number` carries the IEEE-754 bit
/// pattern of a double. `Nil` denotes the absence of an output from a call
/// that cannot yet produce a value.
#[derive(Debug)]
pub enum Type {
    Number(u64),
    String(String),
    Collection(Vec<TimeStep>),
    TimeStep(TimeStep),
    Function(usize),
    Nil,
}

/// The spec-level image of a runtime value: text as a character sequence,
/// a collection as a sequence of its steps.
pub enum TypeV {
    Number(u64),
    String(Seq<char>),
    Collection(Seq<TimeStep>),
    TimeStep(TimeStep),
    Function(int),
    Nil,
}

/// The spec-level image of a runtime value.
pub open spec fn type_view(t: Type) -> TypeV {
    match t {
        Type::Number(b) => TypeV::Number(b),
        Type::String(s) => TypeV::String(s@),
        Type::Collection(c) => TypeV::Collection(c@),
        Type::TimeStep(ts) => TypeV::TimeStep(ts),
        Type::Function(i) => TypeV::Function(i as int),
        Type::Nil => TypeV::Nil,
    }
}

/// Structural equality of two values; `String` and `Collection` compare by
/// contents.
pub open spec fn type_eq(a: Type, b: Type) -> bool {
    type_view(a) == type_view(b)
}

fn timestep_vec_eq(a: &Vec<TimeStep>, b: &Vec<TimeStep>) -> (r: bool)
    ensures
        r == (a@ == b@),
{
    if a.len() != b.len() {
        assert(a@ != b@) by {
            assert(a@.len() != b@.len());
        }
        return false;
    }
    let n = a.len();
    let mut i: usize = 0;
    while i < n
        invariant
            n == a.len() == b.len(),
            i <= n,
            forall|j: int| 0 <= j < i ==> a@[j] == b@[j],
        decreases n - i,
    {
        if a[i] != b[i] {
            return false;
        }
        i = i + 1;
    }
    assert(a@ =~= b@);
    true
}

impl PartialEq for Type {
    fn eq(&self, other: &Type) -> (r: bool) {
        match (self, other) {
            (Type::Number(x), Type::Number(y)) => x == y,
            (Type::String(x), Type::String(y)) => *x == *y,
            (Type::Collection(x), Type::Collection(y)) => timestep_vec_eq(x, y),
            (Type::TimeStep(x), Type::TimeStep(y)) => *x == *y,
            (Type::Function(x), Type::Function(y)) => x == y,
            (Type::Nil, Type::Nil) => true,
            _ => false,
        }
    }
}

impl vstd::std_specs::cmp::PartialEqSpecImpl for Type {
    open spec fn obeys_eq_spec() -> bool {
        true
    }

    open spec fn eq_spec(&self, other: &Type) -> bool {
        type_eq(*self, *other)
    }
}

impl Clone for Type {
    /// A copy with the same image.
    fn clone(&self) -> (r: Self)
        ensures
            type_view(r) == type_view(*self),
    {
        match self {
            Type::Number(b) => Type::Number(*b),
            Type::String(s) => Type::String(s.clone()),
            Type::Collection(c) => {
                let mut v: Vec<TimeStep> = Vec::new();
                let n = c.len();
                let mut i: usize = 0;
                while i < n
                    invariant
                        i <= n,
                        n == c.len(),
                        v@ == c@.subrange(0, i as int),
                    decreases n - i,
                {
                    v.push(c[i]);
                    i = i + 1;
                    assert(v@ =~= c@.subrange(0, i as int));
                }
                assert(v@ =~= c@);
                Type::Collection(v)
            },
            Type::TimeStep(ts) => Type::TimeStep(*ts),
            Type::Function(i) => Type::Function(*i),
            Type::Nil => Type::Nil,
        }
    }
}

impl Type {
    /// The bit pattern of the number this value holds, when it holds one.
    pub fn as_number(&self) -> (r: Option<u64>)
        ensures
            r == (match *self {
                Type::Number(b) => Some(b),
                _ => None::<u64>,
            }),
    {
        match self {
            Type::Number(b) => Some(*b),
            _ => None,
        }
    }

    /// Whether this value holds a number.
    pub fn is_number(&self) -> (r: bool)
        ensures
            r == (self is Number),
    {
        match self {
            Type::Number(_) => true,
            _ => false,
        }
    }
}

/// How a host function may be treated by the build-time passes.
/// `Pure` calls are deterministic and may be evaluated early when all their
/// arguments are values; `Const` calls must be evaluated at build time;
/// `Stateful` calls may carry memory across ticks and are never folded.
#[derive(Debug, PartialEq, Eq, Structural, Clone, Copy)]
pub enum CallableType {
    Stateful,
    Const,
    Pure,
}

/// The contract between the interpreter and a host-supplied function.
/// Implementations live with the host; the library promises nothing about
/// what `call` returns and states all its guarantees conditionally on it.
pub trait Callable: Sized {
    /// The function's name, for diagnostics.
    fn name(&self) -> String;

    /// How many arguments the function expects.
    fn argcnt(&self) -> usize;

    /// The purity class, which picks the optimization path.
    fn of_type(&self) -> CallableType;

    /// Called once at build time with the lowered argument list and a
    /// read-only view of the registered constants, before the first tick.
    fn init(&mut self, args: &Vec<Type>, consts: &Vec<(String, u64)>);

    /// One invocation on evaluated arguments; `None` means the call cannot
    /// yet produce a value.
    fn call(&mut self, args: &Vec<Type>) -> Option<Type>;
}

} // verus!
