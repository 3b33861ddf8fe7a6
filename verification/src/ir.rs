//! The intermediate representation: the lowered form of a formula, whose
//! call sites hold resolved registry handles and whose references hold
//! links into the formula graph.
use crate::ast::Operation;
use crate::num::u64_dec;
use crate::num::u64_to_string;
use crate::types::TimeStep;
use crate::types::CallableType;
use crate::types::Type;
use crate::types::TypeV;
use crate::types::type_view;
use vstd::prelude::*;

verus! {

broadcast use vstd::seq::axiom_seq_index_decreases, vstd::std_specs::vec::axiom_vec_decreases_to_view;

/// A named handle to another formula; `target` is the formula's slot in the
/// interpreter's node list once the graph is bound, `None` until then.
#[derive(Debug)]
pub struct FormulaLink {
    pub name: String,
    pub target: Option<usize>,
}

/// The spec-level image of a link.
pub struct LinkV {
    pub name: Seq<char>,
    pub target: Option<int>,
}

/// The spec-level image of a link.
pub open spec fn link_view(l: FormulaLink) -> LinkV {
    LinkV {
        name: l.name@,
        target: match l.target {
            Some(j) => Some(j as int),
            None => None,
        },
    }
}

impl FormulaLink {
    /// A fresh, unresolved link to the named formula.
    pub fn new(name: &str) -> (l: FormulaLink)
        ensures
            link_view(l) == (LinkV { name: name@, target: None }),
    {
        FormulaLink { name: name.to_owned(), target: None }
    }

    /// Whether the link has been bound to a formula.
    pub fn is_resolved(&self) -> (r: bool)
        ensures
            r == (link_view(*self).target is Some),
    {
        match self.target {
            Some(_) => true,
            None => false,
        }
    }

    /// Binds the link to the formula in slot `idx`.
    pub fn link_with(&mut self, idx: usize)
        ensures
            link_view(*final(self)) == (LinkV {
                name: link_view(*old(self)).name,
                target: Some(idx as int),
            }),
    {
        self.target = Some(idx);
    }

    /// The slot of the linked formula, if bound.
    pub fn link(&self) -> (r: Option<usize>)
        ensures
            (match r {
                Some(j) => link_view(*self).target == Some(j as int),
                None => link_view(*self).target is None,
            }),
    {
        self.target
    }
}

impl Clone for FormulaLink {
    /// A copy with the same image.
    fn clone(&self) -> (r: Self)
        ensures
            link_view(r) == link_view(*self),
    {
        FormulaLink { name: self.name.clone(), target: self.target }
    }
}

/// A node of the lowered form: a constant value, a reference to another
/// formula, a call of a registered function (its slot in the registry, its
/// purity class, and its argument nodes), or an operation.
#[derive(Debug)]
pub enum IRNode {
    Value(Type),
    Ref(FormulaLink),
    Call(usize, CallableType, Vec<IRNode>),
    BinOp(Box<IRNode>, Box<IRNode>, Operation),
    UnOp(Box<IRNode>, Operation),
}

/// The spec-level image of an IR node.
pub enum IRV {
    Value(TypeV),
    Ref(LinkV),
    Call(int, CallableType, Seq<IRV>),
    BinOp(Box<IRV>, Box<IRV>, Operation),
    UnOp(Box<IRV>, Operation),
}

/// The spec-level image of an IR node.
pub open spec fn ir_view(ir: IRNode) -> IRV
    decreases ir,
{
    match ir {
        IRNode::Value(t) => IRV::Value(type_view(t)),
        IRNode::Ref(l) => IRV::Ref(link_view(l)),
        IRNode::Call(i, p, args) => IRV::Call(i as int, p, irs_view(args@)),
        IRNode::BinOp(l, r, op) => IRV::BinOp(Box::new(ir_view(*l)), Box::new(ir_view(*r)), op),
        IRNode::UnOp(r, op) => IRV::UnOp(Box::new(ir_view(*r)), op),
    }
}

/// The images of a list of argument nodes.
pub open spec fn irs_view(s: Seq<IRNode>) -> Seq<IRV>
    decreases s,
{
    if s.len() == 0 {
        Seq::empty()
    } else {
        seq![ir_view(s[0])] + irs_view(s.drop_first())
    }
}

/// `irs_view` maps each element to its image.
pub proof fn lemma_irs_view(s: Seq<IRNode>)
    ensures
        irs_view(s).len() == s.len(),
        forall|i: int| 0 <= i < s.len() ==> irs_view(s)[i] == ir_view(s[i]),
    decreases s,
{
    if s.len() > 0 {
        lemma_irs_view(s.drop_first());
    }
}

/// The node contains no call site.
pub open spec fn call_free(ir: IRV) -> bool
    decreases ir,
{
    match ir {
        IRV::Value(_) => true,
        IRV::Ref(_) => true,
        IRV::Call(_, _, _) => false,
        IRV::BinOp(l, r, _) => call_free(*l) && call_free(*r),
        IRV::UnOp(r, _) => call_free(*r),
    }
}

/// The slots of the formulas this node refers to, through resolved links.
pub open spec fn ir_refs(ir: IRV) -> Set<int>
    decreases ir,
{
    match ir {
        IRV::Value(_) => Set::empty(),
        IRV::Ref(l) => match l.target {
            Some(j) => Set::empty().insert(j),
            None => Set::empty(),
        },
        IRV::Call(_, _, args) => irs_refs(args),
        IRV::BinOp(l, r, _) => ir_refs(*l).union(ir_refs(*r)),
        IRV::UnOp(r, _) => ir_refs(*r),
    }
}

/// The union of the reference targets of a list of nodes.
pub open spec fn irs_refs(s: Seq<IRV>) -> Set<int>
    decreases s,
{
    if s.len() == 0 {
        Set::empty()
    } else {
        ir_refs(s[0]).union(irs_refs(s.drop_first()))
    }
}

/// The node can be evaluated against a graph of `nnodes` formulas and a
/// registry of `nfns` functions: every link is resolved and in range, and
/// every call handle is in range.
pub open spec fn ir_runtime_wf(ir: IRV, nfns: int, nnodes: int) -> bool
    decreases ir,
{
    match ir {
        IRV::Value(_) => true,
        IRV::Ref(l) => match l.target {
            Some(j) => 0 <= j < nnodes,
            None => false,
        },
        IRV::Call(i, _, args) => 0 <= i < nfns && irs_runtime_wf(args, nfns, nnodes),
        IRV::BinOp(l, r, _) => ir_runtime_wf(*l, nfns, nnodes) && ir_runtime_wf(*r, nfns, nnodes),
        IRV::UnOp(r, _) => ir_runtime_wf(*r, nfns, nnodes),
    }
}

/// Runtime well-formedness of a list of argument nodes.
pub open spec fn irs_runtime_wf(s: Seq<IRV>, nfns: int, nnodes: int) -> bool
    decreases s,
{
    if s.len() == 0 {
        true
    } else {
        ir_runtime_wf(s[0], nfns, nnodes) && irs_runtime_wf(s.drop_first(), nfns, nnodes)
    }
}

/// The value of a call-free node, read against the formulas' result slots:
/// a constant is itself; a reference reads its target's slot without
/// recursing; an operation coerces its operands to numbers, yielding
/// nothing on a non-number operand or an undefined operation.
pub open spec fn eval_pure(ir: IRV, results: Seq<Option<TypeV>>) -> Option<TypeV>
    decreases ir,
{
    match ir {
        IRV::Value(v) => Some(v),
        IRV::Ref(l) => match l.target {
            Some(j) => if 0 <= j < results.len() {
                results[j]
            } else {
                None
            },
            None => None,
        },
        IRV::Call(_, _, _) => None,
        IRV::BinOp(l, r, op) => match (eval_pure(*l, results), eval_pure(*r, results)) {
            (Some(TypeV::Number(a)), Some(TypeV::Number(b))) => match op.spec_eval(a, b) {
                Some(v) => Some(TypeV::Number(v)),
                None => None,
            },
            _ => None,
        },
        IRV::UnOp(r, op) => match eval_pure(*r, results) {
            Some(TypeV::Number(a)) => Some(TypeV::Number(op.spec_unary_eval(a))),
            _ => None,
        },
    }
}

impl Clone for IRNode {
    /// A deep copy: the image of the copy is the image of the original.
    #[verifier::loop_isolation(false)]
    fn clone(&self) -> (r: Self)
        ensures
            ir_view(r) == ir_view(*self),
        decreases *self,
    {
        match self {
            IRNode::Value(t) => IRNode::Value(t.clone()),
            IRNode::Ref(l) => IRNode::Ref(l.clone()),
            IRNode::Call(i, p, args) => {
                let mut copied: Vec<IRNode> = Vec::new();
                let n = args.len();
                let mut j: usize = 0;
                proof {
                    lemma_irs_view(args@);
                }
                while j < n
                    invariant
                        n == args.len(),
                        j <= n,
                        copied@.len() == j,
                        forall|m: int| 0 <= m < j ==> ir_view(copied@[m]) == irs_view(args@)[m],
                    decreases n - j,
                {
                    copied.push(args[j].clone());
                    j = j + 1;
                }
                proof {
                    lemma_irs_view(copied@);
                    assert(irs_view(copied@) =~= irs_view(args@));
                }
                IRNode::Call(*i, *p, copied)
            },
            IRNode::BinOp(l, r, op) => IRNode::BinOp(
                Box::new((**l).clone()),
                Box::new((**r).clone()),
                *op,
            ),
            IRNode::UnOp(r, op) => IRNode::UnOp(Box::new((**r).clone()), *op),
        }
    }
}

/// Equality of IR nodes as the original graph passes use it: values, links,
/// operators and argument lists are compared structurally, while the
/// registry handle and purity of a call site are not inspected.
pub open spec fn ir_loose_eq(a: IRV, b: IRV) -> bool
    decreases a,
{
    match (a, b) {
        (IRV::Value(x), IRV::Value(y)) => x == y,
        (IRV::Ref(x), IRV::Ref(y)) => x == y,
        (IRV::Call(_, _, a1), IRV::Call(_, _, a2)) => irs_loose_eq(a1, a2),
        (IRV::BinOp(l1, r1, o1), IRV::BinOp(l2, r2, o2)) => o1 == o2 && ir_loose_eq(*l1, *l2)
            && ir_loose_eq(*r1, *r2),
        (IRV::UnOp(r1, o1), IRV::UnOp(r2, o2)) => o1 == o2 && ir_loose_eq(*r1, *r2),
        _ => false,
    }
}

/// Elementwise loose equality of argument lists.
pub open spec fn irs_loose_eq(a: Seq<IRV>, b: Seq<IRV>) -> bool
    decreases a,
{
    if a.len() != b.len() {
        false
    } else if a.len() == 0 {
        true
    } else {
        ir_loose_eq(a[0], b[0]) && irs_loose_eq(a.drop_first(), b.drop_first())
    }
}

proof fn lemma_irs_loose_eq(a: Seq<IRV>, b: Seq<IRV>)
    requires
        a.len() == b.len(),
        forall|i: int| 0 <= i < a.len() ==> ir_loose_eq(a[i], b[i]),
    ensures
        irs_loose_eq(a, b),
    decreases a,
{
    if a.len() > 0 {
        lemma_irs_loose_eq(a.drop_first(), b.drop_first());
    }
}

fn type_eq_exec(a: &Type, b: &Type) -> (r: bool)
    ensures
        r == (type_view(*a) == type_view(*b)),
{
    *a == *b
}

#[verifier::loop_isolation(false)]
fn ir_eq(a: &IRNode, b: &IRNode) -> (r: bool)
    ensures
        r == ir_loose_eq(ir_view(*a), ir_view(*b)),
    decreases *a,
{
    match (a, b) {
        (IRNode::Value(x), IRNode::Value(y)) => type_eq_exec(x, y),
        (IRNode::Ref(x), IRNode::Ref(y)) => {
            let names_eq = x.name == y.name;
            let targets_eq = match (x.target, y.target) {
                (Some(i), Some(j)) => i == j,
                (None, None) => true,
                _ => false,
            };
            names_eq && targets_eq
        },
        (IRNode::Call(_, _, a1), IRNode::Call(_, _, a2)) => {
            if a1.len() != a2.len() {
                proof {
                    lemma_irs_view(a1@);
                    lemma_irs_view(a2@);
                    assert(irs_view(a1@).len() != irs_view(a2@).len());
                    assert(!irs_loose_eq(irs_view(a1@), irs_view(a2@)));
                }
                return false;
            }
            let n = a1.len();
            let mut i: usize = 0;
            proof {
                lemma_irs_view(a1@);
                lemma_irs_view(a2@);
            }
            while i < n
                invariant
                    forall|j: int| 0 <= j < i ==> ir_loose_eq(irs_view(a1@)[j], irs_view(a2@)[j]),
                decreases n - i,
            {
                if !ir_eq(&a1[i], &a2[i]) {
                    proof {
                        lemma_irs_loose_eq_counter(irs_view(a1@), irs_view(a2@), i as int);
                    }
                    return false;
                }
                i = i + 1;
            }
            proof {
                lemma_irs_loose_eq(irs_view(a1@), irs_view(a2@));
            }
            true
        },
        (IRNode::BinOp(l1, r1, o1), IRNode::BinOp(l2, r2, o2)) => {
            *o1 == *o2 && ir_eq(l1, l2) && ir_eq(r1, r2)
        },
        (IRNode::UnOp(r1, o1), IRNode::UnOp(r2, o2)) => *o1 == *o2 && ir_eq(r1, r2),
        _ => false,
    }
}

proof fn lemma_irs_loose_eq_counter(a: Seq<IRV>, b: Seq<IRV>, i: int)
    requires
        a.len() == b.len(),
        0 <= i < a.len(),
        !ir_loose_eq(a[i], b[i]),
    ensures
        !irs_loose_eq(a, b),
    decreases a,
{
    if i > 0 {
        lemma_irs_loose_eq_counter(a.drop_first(), b.drop_first(), i - 1);
    }
}

impl PartialEq for IRNode {
    fn eq(&self, other: &IRNode) -> (r: bool) {
        ir_eq(self, other)
    }
}

impl vstd::std_specs::cmp::PartialEqSpecImpl for IRNode {
    open spec fn obeys_eq_spec() -> bool {
        true
    }

    open spec fn eq_spec(&self, other: &IRNode) -> bool {
        ir_loose_eq(ir_view(*self), ir_view(*other))
    }
}


/// The printed form of an operator inside a fingerprint.
pub open spec fn op_fp(op: Operation) -> Seq<char> {
    match op {
        Operation::Plus => "+"@,
        Operation::Minus => "-"@,
        Operation::Times => "*"@,
        Operation::Divide => "/"@,
        Operation::Power => "**"@,
        Operation::Factorial => "!"@,
    }
}

/// The printed form of one time step inside a fingerprint.
pub open spec fn step_fp(ts: TimeStep) -> Seq<char> {
    "("@ + u64_dec(ts.price) + ","@ + u64_dec(ts.time) + ")"@
}

/// The printed form of a collection's steps inside a fingerprint.
pub open spec fn steps_fp(c: Seq<TimeStep>) -> Seq<char>
    decreases c,
{
    if c.len() == 0 {
        Seq::empty()
    } else {
        step_fp(c[0]) + steps_fp(c.drop_first())
    }
}

/// The printed form of a value inside a fingerprint. Numbers print their
/// bit patterns in decimal; the other sorts carry a tag and their
/// contents.
pub open spec fn value_fp(tv: TypeV) -> Seq<char> {
    match tv {
        TypeV::Number(b) => u64_dec(b),
        TypeV::String(s) => s,
        TypeV::Collection(c) => "#coll"@ + steps_fp(c),
        TypeV::TimeStep(ts) => "#ts"@ + step_fp(ts),
        TypeV::Function(i) => "#fn"@ + u64_dec(if 0 <= i <= u64::MAX {
            i as u64
        } else {
            0
        }),
        TypeV::Nil => "#nil"@,
    }
}

/// The registered name in slot `i`, or nothing when out of range.
pub open spec fn name_at(names: Seq<Seq<char>>, i: int) -> Seq<char> {
    if 0 <= i < names.len() {
        names[i]
    } else {
        Seq::empty()
    }
}

/// The structural fingerprint of a node, which keys the sharing of
/// stateful calls across formulas: subtrees built alike print the same
/// fingerprint, and every operation parenthesizes its operands, so two
/// operations that group the same operands differently never merge.
pub open spec fn fp_ir(ir: IRV, names: Seq<Seq<char>>) -> Seq<char>
    decreases ir,
{
    match ir {
        IRV::Value(tv) => value_fp(tv),
        IRV::Ref(l) => "&"@ + l.name,
        IRV::Call(i, _, args) => name_at(names, i) + "("@ + fp_args(args, names) + ")"@,
        IRV::BinOp(l, r, op) => "("@ + fp_ir(*l, names) + op_fp(op) + fp_ir(*r, names) + ")"@,
        IRV::UnOp(r, op) => "("@ + op_fp(op) + fp_ir(*r, names) + ")"@,
    }
}

/// The fingerprints of an argument list, each followed by a comma.
pub open spec fn fp_args(s: Seq<IRV>, names: Seq<Seq<char>>) -> Seq<char>
    decreases s,
{
    if s.len() == 0 {
        Seq::empty()
    } else {
        fp_ir(s[0], names) + ","@ + fp_args(s.drop_first(), names)
    }
}

/// The name given to the formula hoisted for a call: its fingerprint
/// behind a reserved prefix.
pub open spec fn mangled(s: Seq<char>) -> Seq<char> {
    "__"@ + s
}

/// The spec-level image of the registered names.
pub open spec fn names_view(v: Seq<String>) -> Seq<Seq<char>> {
    v.map_values(|s: String| s@)
}

fn step_fp_exec(ts: &TimeStep) -> (r: String)
    ensures
        r@ == step_fp(*ts),
{
    let mut s = String::from_str("(");
    s.append(u64_to_string(ts.price).as_str());
    s.append(",");
    s.append(u64_to_string(ts.time).as_str());
    s.append(")");
    proof {
        assert(s@ =~= step_fp(*ts));
    }
    s
}

fn value_fp_exec(t: &Type) -> (r: String)
    ensures
        r@ == value_fp(type_view(*t)),
{
    match t {
        Type::Number(b) => u64_to_string(*b),
        Type::String(st) => st.clone(),
        Type::Collection(c) => {
            let mut s = String::from_str("#coll");
            let n = c.len();
            let mut i: usize = 0;
            while i < n
                invariant
                    i <= n,
                    n == c.len(),
                    s@ == "#coll"@ + steps_fp(c@.subrange(0, i as int)),
                decreases n - i,
            {
                let ghost pre = s@;
                s.append(step_fp_exec(&c[i]).as_str());
                i = i + 1;
                proof {
                    lemma_steps_fp_snoc(c@.subrange(0, i as int));
                    assert(c@.subrange(0, i as int).drop_last() =~= c@.subrange(0, i - 1));
                    assert(s@ =~= "#coll"@ + steps_fp(c@.subrange(0, i as int)));
                }
            }
            proof {
                assert(c@.subrange(0, n as int) =~= c@);
            }
            s
        },
        Type::TimeStep(ts) => {
            let mut s = String::from_str("#ts");
            s.append(step_fp_exec(ts).as_str());
            proof {
                assert(s@ =~= "#ts"@ + step_fp(*ts));
            }
            s
        },
        Type::Function(i) => {
            let mut s = String::from_str("#fn");
            s.append(u64_to_string(*i as u64).as_str());
            proof {
                assert(s@ =~= value_fp(type_view(*t)));
            }
            s
        },
        Type::Nil => String::from_str("#nil"),
    }
}

/// A list's printed steps grow one step at a time.
proof fn lemma_steps_fp_snoc(c: Seq<TimeStep>)
    requires
        c.len() > 0,
    ensures
        steps_fp(c) == steps_fp(c.drop_last()) + step_fp(c.last()),
    decreases c,
{
    if c.len() == 1 {
        assert(c.drop_last() =~= Seq::<TimeStep>::empty());
        assert(steps_fp(c.drop_first()) =~= Seq::<char>::empty());
        assert(steps_fp(c) =~= steps_fp(c.drop_last()) + step_fp(c.last()));
    } else {
        lemma_steps_fp_snoc(c.drop_first());
        assert(c.drop_first().drop_last() =~= c.drop_last().drop_first());
        assert(c.drop_first().last() == c.last());
        assert(c.drop_last()[0] == c[0]);
        assert(steps_fp(c) =~= steps_fp(c.drop_last()) + step_fp(c.last()));
    }
}

/// Fingerprints of a prefix grow one argument at a time.
proof fn lemma_fp_args_snoc(s: Seq<IRV>, names: Seq<Seq<char>>)
    requires
        s.len() > 0,
    ensures
        fp_args(s, names) == fp_args(s.drop_last(), names) + fp_ir(s.last(), names) + ","@,
    decreases s,
{
    if s.len() == 1 {
        assert(s.drop_last() =~= Seq::<IRV>::empty());
        assert(fp_args(s.drop_first(), names) =~= Seq::<char>::empty());
        assert(fp_args(s, names) =~= fp_args(s.drop_last(), names) + fp_ir(s.last(), names)
            + ","@);
    } else {
        lemma_fp_args_snoc(s.drop_first(), names);
        assert(s.drop_first().drop_last() =~= s.drop_last().drop_first());
        assert(s.drop_first().last() == s.last());
        assert(s.drop_last()[0] == s[0]);
        assert(fp_args(s, names) =~= fp_args(s.drop_last(), names) + fp_ir(s.last(), names)
            + ","@);
    }
}

fn op_fp_exec(op: Operation) -> (r: &'static str)
    ensures
        r@ == op_fp(op),
{
    match op {
        Operation::Plus => "+",
        Operation::Minus => "-",
        Operation::Times => "*",
        Operation::Divide => "/",
        Operation::Power => "**",
        Operation::Factorial => "!",
    }
}

/// Prints the structural fingerprint of a node, as `fp_ir` describes it.
#[verifier::loop_isolation(false)]
pub fn fingerprint(ir: &IRNode, names: &Vec<String>) -> (r: String)
    ensures
        r@ == fp_ir(ir_view(*ir), names_view(names@)),
    decreases *ir,
{
    match ir {
        IRNode::Value(t) => value_fp_exec(t),
        IRNode::Ref(l) => {
            let mut s = String::from_str("&");
            s.append(l.name.as_str());
            proof {
                assert(s@ =~= "&"@ + l.name@);
            }
            s
        },
        IRNode::Call(i, _, args) => {
            let mut s = if *i < names.len() {
                names[*i].clone()
            } else {
                String::new()
            };
            s.append("(");
            let n = args.len();
            let mut j: usize = 0;
            proof {
                lemma_irs_view(args@);
                assert(irs_view(args@).subrange(0, 0) =~= Seq::<IRV>::empty());
            }
            while j < n
                invariant
                    j <= n,
                    n == args.len(),
                    s@ == name_at(names_view(names@), *i as int) + "("@ + fp_args(
                        irs_view(args@).subrange(0, j as int),
                        names_view(names@),
                    ),
                decreases n - j,
            {
                s.append(fingerprint(&args[j], names).as_str());
                s.append(",");
                j = j + 1;
                proof {
                    let pref = irs_view(args@).subrange(0, j as int);
                    lemma_fp_args_snoc(pref, names_view(names@));
                    assert(pref.drop_last() =~= irs_view(args@).subrange(0, j - 1));
                    assert(pref.last() == ir_view(args@[j - 1]));
                    assert(s@ =~= name_at(names_view(names@), *i as int) + "("@ + fp_args(
                        pref,
                        names_view(names@),
                    ));
                }
            }
            s.append(")");
            proof {
                assert(irs_view(args@).subrange(0, n as int) =~= irs_view(args@));
                assert(s@ =~= fp_ir(ir_view(*ir), names_view(names@)));
            }
            s
        },
        IRNode::BinOp(l, r, op) => {
            let mut s = String::from_str("(");
            s.append(fingerprint(l, names).as_str());
            s.append(op_fp_exec(*op));
            s.append(fingerprint(r, names).as_str());
            s.append(")");
            proof {
                assert(s@ =~= fp_ir(ir_view(*ir), names_view(names@)));
            }
            s
        },
        IRNode::UnOp(r, op) => {
            let mut s = String::from_str("(");
            s.append(op_fp_exec(*op));
            s.append(fingerprint(r, names).as_str());
            s.append(")");
            proof {
                assert(s@ =~= fp_ir(ir_view(*ir), names_view(names@)));
            }
            s
        },
    }
}

/// Prints the hoisted-formula name for a call: its fingerprint behind the
/// reserved prefix.
pub fn mangled_name(ir: &IRNode, names: &Vec<String>) -> (r: String)
    ensures
        r@ == mangled(fp_ir(ir_view(*ir), names_view(names@))),
{
    let mut s = String::from_str("__");
    s.append(fingerprint(ir, names).as_str());
    proof {
        assert(s@ =~= mangled(fp_ir(ir_view(*ir), names_view(names@))));
    }
    s
}

} // verus!
