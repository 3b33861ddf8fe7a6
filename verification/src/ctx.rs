//! The evaluation context: the registries of host functions and named
//! constants, and the lowering pass that binds an expression tree against
//! them to produce an IR tree.
use crate::ast::ExprV;
use crate::ast::Operation;
use crate::ast::Expression;
use crate::ast::Literal;
use crate::ast::LiteralV;
use crate::ast::lit_view;
use crate::ast::expr_view;
use crate::ast::exprs_view;
use crate::ast::lemma_exprs_view;
use crate::errors::BindError;
use crate::errors::BindErrorV;
use crate::errors::bind_error_view;
use crate::ir::IRNode;
use crate::ir::IRV;
use crate::ir::LinkV;
use crate::ir::FormulaLink;
use crate::ir::ir_view;
use crate::ir::irs_view;
use crate::ir::lemma_irs_view;
use crate::types::Callable;
use crate::types::CallableType;
use crate::types::Type;
use crate::types::TypeV;
use crate::types::type_view;
use vstd::prelude::*;
use vstd::pervasive::VecAdditionalExecFns;

verus! {

broadcast use vstd::seq::axiom_seq_index_decreases, vstd::std_specs::vec::axiom_vec_decreases_to_view;

/// One registered host function: its name, its cached argument count and
/// purity class (asked of it once, at registration), and the callable
/// itself.
pub struct FnEntry<C> {
    pub name: String,
    pub argcnt: usize,
    pub purity: CallableType,
    pub f: C,
}

/// The registry facts lowering relies on: name, argument count, purity.
pub type FnMeta = (Seq<char>, int, CallableType);

/// Holds evaluation context information: the host functions and the named
/// constants a formula may use. Mutated only at build time.
pub struct Context<C> {
    pub ns_fn: Vec<FnEntry<C>>,
    pub ns_const: Vec<(String, u64)>,
}

/// The spec-level image of the constant registry.
pub open spec fn consts_view(v: Seq<(String, u64)>) -> Seq<(Seq<char>, u64)> {
    v.map_values(|p: (String, u64)| (p.0@, p.1))
}

impl<C> Context<C> {
    /// The spec-level image of the constant registry.
    pub open spec fn consts_m(&self) -> Seq<(Seq<char>, u64)> {
        consts_view(self.ns_const@)
    }

    /// The spec-level image of the function registry's cached facts.
    pub open spec fn fns_m(&self) -> Seq<FnMeta> {
        self.ns_fn@.map_values(
            |e: FnEntry<C>| (e.name@, e.argcnt as int, e.purity),
        )
    }
}

/// The value of the first constant with the given name, if any.
pub open spec fn find_const(cs: Seq<(Seq<char>, u64)>, name: Seq<char>) -> Option<u64>
    decreases cs,
{
    if cs.len() == 0 {
        None
    } else if cs[0].0 == name {
        Some(cs[0].1)
    } else {
        find_const(cs.drop_first(), name)
    }
}

/// The slot of the first constant with the given name, if any.
pub open spec fn find_const_idx(cs: Seq<(Seq<char>, u64)>, name: Seq<char>) -> Option<int>
    decreases cs,
{
    if cs.len() == 0 {
        None
    } else if cs[0].0 == name {
        Some(0)
    } else {
        match find_const_idx(cs.drop_first(), name) {
            Some(i) => Some(i + 1),
            None => None,
        }
    }
}

/// The slot of the first function with the given name, if any.
pub open spec fn find_fn_idx(fs: Seq<FnMeta>, name: Seq<char>) -> Option<int>
    decreases fs,
{
    if fs.len() == 0 {
        None
    } else if fs[0].0 == name {
        Some(0)
    } else {
        match find_fn_idx(fs.drop_first(), name) {
            Some(i) => Some(i + 1),
            None => None,
        }
    }
}

proof fn lemma_find_const_idx(cs: Seq<(Seq<char>, u64)>, name: Seq<char>)
    ensures
        (match find_const_idx(cs, name) {
            Some(i) => 0 <= i < cs.len() && cs[i].0 == name && find_const(cs, name) == Some(
                cs[i].1,
            ),
            None => find_const(cs, name) is None,
        }),
    decreases cs,
{
    if cs.len() > 0 && cs[0].0 != name {
        lemma_find_const_idx(cs.drop_first(), name);
    }
}

proof fn lemma_find_fn_idx(fs: Seq<FnMeta>, name: Seq<char>)
    ensures
        (match find_fn_idx(fs, name) {
            Some(i) => 0 <= i < fs.len() && fs[i].0 == name,
            None => true,
        }),
    decreases fs,
{
    if fs.len() > 0 && fs[0].0 != name {
        lemma_find_fn_idx(fs.drop_first(), name);
    }
}

impl<C: Callable> Context<C> {
    /// Constructs a new, empty context.
    pub fn new() -> (r: Context<C>)
        ensures
            r.consts_m() == Seq::<(Seq<char>, u64)>::empty(),
            r.fns_m() == Seq::<FnMeta>::empty(),
    {
        let r = Context { ns_fn: Vec::new(), ns_const: Vec::new() };
        proof {
            assert(r.consts_m() =~= Seq::<(Seq<char>, u64)>::empty());
            assert(r.fns_m() =~= Seq::<FnMeta>::empty());
        }
        r
    }

    /// Registers the named constant; a constant already registered under
    /// the same name is replaced.
    #[verifier::loop_isolation(false)]
    pub fn register_constant(&mut self, name: &str, value: u64)
        ensures
            final(self).fns_m() == old(self).fns_m(),
            (match find_const_idx(old(self).consts_m(), name@) {
                Some(j) => final(self).consts_m() == old(self).consts_m().update(
                    j,
                    (name@, value),
                ),
                None => final(self).consts_m() == old(self).consts_m().push((name@, value)),
            }),
    {
        let ghost old_cs = self.consts_m();
        let name_s = name.to_owned();
        let n = self.ns_const.len();
        let mut i: usize = 0;
        while i < n
            invariant
                i <= n,
                *self == *old(self),
                forall|j: int| 0 <= j < i ==> old_cs[j].0 != name@,
            decreases n - i,
        {
            if string_eq(&self.ns_const[i].0, &name_s) {
                self.ns_const.set(i, (name.to_owned(), value));
                proof {
                    lemma_find_idx_at(old_cs, name@, i as int);
                    assert(self.consts_m() =~= old_cs.update(i as int, (name@, value)));
                    assert(self.fns_m() =~= old(self).fns_m());
                }
                return ;
            }
            i = i + 1;
        }
        self.ns_const.push((name.to_owned(), value));
        proof {
            lemma_find_idx_none(old_cs, name@);
            assert(self.consts_m() =~= old_cs.push((name@, value)));
            assert(self.fns_m() =~= old(self).fns_m());
        }
    }
}

/// Whether the two strings hold the same characters.
fn string_eq(a: &String, b: &String) -> (r: bool)
    ensures
        r == (a@ == b@),
{
    *a == *b
}

/// If the first `i` entries miss the name and entry `i` bears it, then `i`
/// is the first slot with that name.
proof fn lemma_find_idx_at(cs: Seq<(Seq<char>, u64)>, name: Seq<char>, i: int)
    requires
        0 <= i < cs.len(),
        forall|j: int| 0 <= j < i ==> cs[j].0 != name,
        cs[i].0 == name,
    ensures
        find_const_idx(cs, name) == Some(i),
    decreases i,
{
    if i > 0 {
        lemma_find_idx_at(cs.drop_first(), name, i - 1);
    }
}

/// If no entry bears the name, the search misses.
proof fn lemma_find_idx_none(cs: Seq<(Seq<char>, u64)>, name: Seq<char>)
    requires
        forall|j: int| 0 <= j < cs.len() ==> cs[j].0 != name,
    ensures
        find_const_idx(cs, name) is None,
    decreases cs,
{
    if cs.len() > 0 {
        lemma_find_idx_none(cs.drop_first(), name);
    }
}


/// How the function registry changes when a name is registered: the first
/// entry with that name is replaced, or a new entry is appended; all other
/// entries stay. The argument count and purity of the new entry are
/// whatever the callable reported.
pub open spec fn registered_fn(old_fs: Seq<FnMeta>, new_fs: Seq<FnMeta>, name: Seq<char>) -> bool {
    match find_fn_idx(old_fs, name) {
        Some(j) => new_fs.len() == old_fs.len() && new_fs[j].0 == name && (forall|m: int|
            0 <= m < old_fs.len() && m != j ==> new_fs[m] == old_fs[m]),
        None => new_fs.len() == old_fs.len() + 1 && new_fs[old_fs.len() as int].0 == name && (
        forall|m: int| 0 <= m < old_fs.len() ==> new_fs[m] == old_fs[m]),
    }
}

/// If the first `i` entries miss the name and entry `i` bears it, then `i`
/// is the first function slot with that name.
proof fn lemma_find_fn_at(fs: Seq<FnMeta>, name: Seq<char>, i: int)
    requires
        0 <= i < fs.len(),
        forall|j: int| 0 <= j < i ==> fs[j].0 != name,
        fs[i].0 == name,
    ensures
        find_fn_idx(fs, name) == Some(i),
    decreases i,
{
    if i > 0 {
        lemma_find_fn_at(fs.drop_first(), name, i - 1);
    }
}

/// If no function entry bears the name, the search misses.
proof fn lemma_find_fn_none(fs: Seq<FnMeta>, name: Seq<char>)
    requires
        forall|j: int| 0 <= j < fs.len() ==> fs[j].0 != name,
    ensures
        find_fn_idx(fs, name) is None,
    decreases fs,
{
    if fs.len() > 0 {
        lemma_find_fn_none(fs.drop_first(), name);
    }
}

impl<C: Callable> Context<C> {
    /// Registers the callable under the given name, recording its argument
    /// count and purity class as it reports them now; a function already
    /// registered under the same name is replaced.
    #[verifier::loop_isolation(false)]
    pub fn register_function(&mut self, name: &str, exp_fn: C)
        ensures
            final(self).consts_m() == old(self).consts_m(),
            registered_fn(old(self).fns_m(), final(self).fns_m(), name@),
    {
        let ghost old_fs = self.fns_m();
        let argcnt = exp_fn.argcnt();
        let purity = exp_fn.of_type();
        let name_s = name.to_owned();
        let entry = FnEntry { name: name_s, argcnt, purity, f: exp_fn };
        let n = self.ns_fn.len();
        let mut i: usize = 0;
        while i < n
            invariant
                i <= n,
                *self == *old(self),
                forall|j: int| 0 <= j < i ==> old_fs[j].0 != name@,
            decreases n - i,
        {
            let same = string_eq(&self.ns_fn[i].name, &entry.name);
            if same {
                self.ns_fn.set(i, entry);
                proof {
                    lemma_find_fn_at(old_fs, name@, i as int);
                    assert(self.consts_m() =~= old(self).consts_m());
                }
                return ;
            }
            i = i + 1;
        }
        self.ns_fn.push(entry);
        proof {
            lemma_find_fn_none(old_fs, name@);
            assert(self.consts_m() =~= old(self).consts_m());
        }
    }

    /// Looks the named constant up, yielding the value registered first
    /// under that name.
    #[verifier::loop_isolation(false)]
    pub fn find_constant(&self, name: &str) -> (r: Option<u64>)
        ensures
            r == find_const(self.consts_m(), name@),
    {
        let name_s = name.to_owned();
        let n = self.ns_const.len();
        let mut i: usize = 0;
        while i < n
            invariant
                i <= n,
                forall|j: int| 0 <= j < i ==> self.consts_m()[j].0 != name@,
            decreases n - i,
        {
            if string_eq(&self.ns_const[i].0, &name_s) {
                proof {
                    lemma_find_idx_at(self.consts_m(), name@, i as int);
                    lemma_find_const_idx(self.consts_m(), name@);
                }
                return Some(self.ns_const[i].1);
            }
            i = i + 1;
        }
        proof {
            lemma_find_idx_none(self.consts_m(), name@);
            lemma_find_const_idx(self.consts_m(), name@);
        }
        None
    }

    /// Looks the named function up, yielding its registry slot.
    #[verifier::loop_isolation(false)]
    pub fn find_function(&self, name: &str) -> (r: Option<usize>)
        ensures
            (match r {
                Some(i) => find_fn_idx(self.fns_m(), name@) == Some(i as int) && i
                    < self.ns_fn.len() && self.fns_m()[i as int].0 == name@,
                None => find_fn_idx(self.fns_m(), name@) is None,
            }),
    {
        let name_s = name.to_owned();
        let n = self.ns_fn.len();
        let mut i: usize = 0;
        while i < n
            invariant
                i <= n,
                forall|j: int| 0 <= j < i ==> self.fns_m()[j].0 != name@,
            decreases n - i,
        {
            if string_eq(&self.ns_fn[i].name, &name_s) {
                proof {
                    lemma_find_fn_at(self.fns_m(), name@, i as int);
                }
                return Some(i);
            }
            i = i + 1;
        }
        proof {
            lemma_find_fn_none(self.fns_m(), name@);
        }
        None
    }

    /// The cached argument count of the function in the given slot.
    pub fn argcnt_of(&self, i: usize) -> (r: usize)
        requires
            i < self.ns_fn.len(),
        ensures
            r as int == self.fns_m()[i as int].1,
    {
        self.ns_fn[i].argcnt
    }

    /// The cached purity class of the function in the given slot.
    pub fn purity_of(&self, i: usize) -> (r: CallableType)
        requires
            i < self.ns_fn.len(),
        ensures
            r == self.fns_m()[i as int].2,
    {
        self.ns_fn[i].purity
    }

    /// The registered name of the function in the given slot.
    pub fn fn_name_of(&self, i: usize) -> (r: String)
        requires
            i < self.ns_fn.len(),
        ensures
            r@ == self.fns_m()[i as int].0,
    {
        self.ns_fn[i].name.clone()
    }

    /// Hands the function in the given slot its one build-time `init`
    /// call, with its lowered arguments and a view of the constants.
    pub fn init_fn(&mut self, i: usize, args: &Vec<Type>)
        requires
            i < old(self).ns_fn.len(),
        ensures
            final(self).fns_m() == old(self).fns_m(),
            final(self).consts_m() == old(self).consts_m(),
    {
        self.ns_fn[i].f.init(args, &self.ns_const);
        proof {
            assert(self.fns_m() =~= old(self).fns_m());
        }
    }

    /// Invokes the function in the given slot on the evaluated arguments.
    /// What comes back is the host's to decide; the registry facts are
    /// unchanged.
    pub fn call_fn(&mut self, i: usize, args: &Vec<Type>) -> (r: Option<Type>)
        requires
            i < old(self).ns_fn.len(),
        ensures
            final(self).fns_m() == old(self).fns_m(),
            final(self).consts_m() == old(self).consts_m(),
    {
        let r = self.ns_fn[i].f.call(args);
        proof {
            assert(self.fns_m() =~= old(self).fns_m());
        }
        r
    }
}


/// The expression contains no call.
pub open spec fn no_funcs(e: ExprV) -> bool
    decreases e,
{
    match e {
        ExprV::Const(_) => true,
        ExprV::Function { .. } => false,
        ExprV::BinOp(l, r, _) => no_funcs(*l) && no_funcs(*r),
        ExprV::UnOp(_, x) => no_funcs(*x),
    }
}

/// The diagnostic text of a type mismatch found while lowering.
pub open spec fn type_mismatch_msg() -> Seq<char> {
    "binary operation between non-numeric values"@
}

/// How a binary operation is lowered once its sides are: two numbers fold
/// (unless the operation is undefined on them), two values of any other
/// sort are an error, and anything else stays a `BinOp` node.
pub open spec fn lower_binop(lv: IRV, rv: IRV, op: Operation) -> Result<IRV, BindErrorV> {
    if lv is Value && rv is Value {
        match (lv, rv) {
            (IRV::Value(TypeV::Number(a)), IRV::Value(TypeV::Number(b))) => match op.spec_eval(
                a,
                b,
            ) {
                Some(v) => Ok(IRV::Value(TypeV::Number(v))),
                None => Ok(IRV::BinOp(Box::new(lv), Box::new(rv), op)),
            },
            _ => Err(BindErrorV::TypeMismatch(type_mismatch_msg())),
        }
    } else {
        Ok(IRV::BinOp(Box::new(lv), Box::new(rv), op))
    }
}

/// How a unary operation is lowered: a number folds, anything else stays.
pub open spec fn lower_unop(xv: IRV, op: Operation) -> IRV {
    match xv {
        IRV::Value(TypeV::Number(a)) => IRV::Value(TypeV::Number(op.spec_unary_eval(a))),
        _ => IRV::UnOp(Box::new(xv), op),
    }
}

/// What lowering yields on an expression without calls: numbers and known
/// constants become values, an unknown identifier becomes a string value,
/// a reference becomes an unresolved link, and operations fold over
/// values. (The call case of this function is never consulted.)
pub open spec fn lower_pure(cs: Seq<(Seq<char>, u64)>, e: ExprV) -> Result<IRV, BindErrorV>
    decreases e,
{
    match e {
        ExprV::Const(LiteralV::Number(b)) => Ok(IRV::Value(TypeV::Number(b))),
        ExprV::Const(LiteralV::Ident(id)) => match find_const(cs, id) {
            Some(v) => Ok(IRV::Value(TypeV::Number(v))),
            None => Ok(IRV::Value(TypeV::String(id))),
        },
        ExprV::Const(LiteralV::Ref(n)) => Ok(IRV::Ref(LinkV { name: n, target: None })),
        ExprV::Function { .. } => arbitrary(),
        ExprV::BinOp(l, r, op) => match lower_pure(cs, *l) {
            Ok(lv) => match lower_pure(cs, *r) {
                Ok(rv) => lower_binop(lv, rv, op),
                Err(e2) => Err(e2),
            },
            Err(e2) => Err(e2),
        },
        ExprV::UnOp(op, x) => match lower_pure(cs, *x) {
            Ok(xv) => Ok(lower_unop(xv, op)),
            Err(e2) => Err(e2),
        },
    }
}

/// The shape of any IR tree that lowering emits: links are unresolved;
/// every call site carries its registry slot, the registered purity, and
/// exactly the registered number of arguments; no operation node sits on
/// operands it would have folded or rejected.
pub open spec fn wf_lowered(ir: IRV, fs: Seq<FnMeta>) -> bool
    decreases ir,
{
    match ir {
        IRV::Value(_) => true,
        IRV::Ref(l) => l.target is None,
        IRV::Call(i, p, args) => 0 <= i < fs.len() && p == fs[i].2 && args.len() == fs[i].1
            && wf_lowered_list(args, fs),
        IRV::BinOp(l, r, op) => wf_lowered(*l, fs) && wf_lowered(*r, fs) && ((*l is Value && *r
            is Value) ==> (match (*l, *r) {
            (IRV::Value(TypeV::Number(a)), IRV::Value(TypeV::Number(b))) => op.spec_eval(a, b)
                is None,
            _ => false,
        })),
        IRV::UnOp(r, _) => wf_lowered(*r, fs) && !(*r matches IRV::Value(TypeV::Number(_))),
    }
}

/// Well-formedness of each node of an argument list.
pub open spec fn wf_lowered_list(s: Seq<IRV>, fs: Seq<FnMeta>) -> bool
    decreases s,
{
    if s.len() == 0 {
        true
    } else {
        wf_lowered(s[0], fs) && wf_lowered_list(s.drop_first(), fs)
    }
}

proof fn lemma_wf_lowered_list(s: Seq<IRV>, fs: Seq<FnMeta>)
    requires
        forall|i: int| 0 <= i < s.len() ==> wf_lowered(s[i], fs),
    ensures
        wf_lowered_list(s, fs),
    decreases s,
{
    if s.len() > 0 {
        lemma_wf_lowered_list(s.drop_first(), fs);
    }
}

fn is_value(ir: &IRNode) -> (r: bool)
    ensures
        r == (ir_view(*ir) is Value),
{
    match ir {
        IRNode::Value(_) => true,
        _ => false,
    }
}

fn value_number(ir: &IRNode) -> (r: Option<u64>)
    ensures
        (match r {
            Some(b) => ir_view(*ir) == IRV::Value(TypeV::Number(b)),
            None => !(ir_view(*ir) matches IRV::Value(TypeV::Number(_))),
        }),
{
    match ir {
        IRNode::Value(Type::Number(b)) => Some(*b),
        _ => None,
    }
}

/// Lowers a binary operation whose sides are already lowered.
fn lower_binop_exec(l: IRNode, r: IRNode, op: Operation) -> (res: Result<IRNode, BindError>)
    ensures
        (match res {
            Ok(ir) => lower_binop(ir_view(l), ir_view(r), op) == Ok::<IRV, BindErrorV>(
                ir_view(ir),
            ) && (forall|fs: Seq<FnMeta>|
                wf_lowered(ir_view(l), fs) && wf_lowered(ir_view(r), fs) ==> wf_lowered(
                    ir_view(ir),
                    fs,
                )),
            Err(e) => lower_binop(ir_view(l), ir_view(r), op) == Err::<IRV, BindErrorV>(
                bind_error_view(e),
            ),
        }),
{
    if is_value(&l) && is_value(&r) {
        match (value_number(&l), value_number(&r)) {
            (Some(a), Some(b)) => match op.eval(a, b) {
                Some(v) => Ok(IRNode::Value(Type::Number(v))),
                None => Ok(IRNode::BinOp(Box::new(l), Box::new(r), op)),
            },
            _ => Err(
                BindError::TypeMismatch(
                    String::from_str("binary operation between non-numeric values"),
                ),
            ),
        }
    } else {
        Ok(IRNode::BinOp(Box::new(l), Box::new(r), op))
    }
}

/// Lowers a unary operation whose operand is already lowered.
fn lower_unop_exec(x: IRNode, op: Operation) -> (res: IRNode)
    ensures
        ir_view(res) == lower_unop(ir_view(x), op),
        forall|fs: Seq<FnMeta>| wf_lowered(ir_view(x), fs) ==> wf_lowered(ir_view(res), fs),
{
    match value_number(&x) {
        Some(a) => IRNode::Value(Type::Number(op.unary_eval(a))),
        None => IRNode::UnOp(Box::new(x), op),
    }
}

/// Takes the plain values out of an argument list; `None` when any
/// argument is not yet a value.
fn extract_values(irs: &Vec<IRNode>) -> (r: Option<Vec<Type>>)
    ensures
        (r is Some) == (forall|j: int|
            0 <= j < irs@.len() ==> #[trigger] ir_view(irs@[j]) is Value),
{
    let n = irs.len();
    let mut vals: Vec<Type> = Vec::new();
    let mut i: usize = 0;
    while i < n
        invariant
            i <= n,
            n == irs.len(),
            forall|j: int| 0 <= j < i ==> #[trigger] ir_view(irs@[j]) is Value,
        decreases n - i,
    {
        match &irs[i] {
            IRNode::Value(t) => {
                vals.push(t.clone());
            },
            _ => {
                proof {
                    assert(!(ir_view(irs@[i as int]) is Value));
                }
                return None;
            },
        }
        i = i + 1;
    }
    Some(vals)
}

impl<C: Callable> Context<C> {
    /// Lowers an expression tree against this context. On an expression
    /// without calls the result is exactly `lower_pure`; any result has
    /// the `wf_lowered` shape; the registry facts are unchanged (though a
    /// host function consulted for folding may advance its own state).
    #[verifier::loop_isolation(false)]
    pub fn lower(&mut self, expr: &Expression) -> (r: Result<IRNode, BindError>)
        ensures
            final(self).fns_m() == old(self).fns_m(),
            final(self).consts_m() == old(self).consts_m(),
            (match r {
                Ok(ir) => (no_funcs(expr_view(*expr)) ==> lower_pure(
                    old(self).consts_m(),
                    expr_view(*expr),
                ) == Ok::<IRV, BindErrorV>(ir_view(ir))) && wf_lowered(
                    ir_view(ir),
                    old(self).fns_m(),
                ),
                Err(e) => no_funcs(expr_view(*expr)) ==> lower_pure(
                    old(self).consts_m(),
                    expr_view(*expr),
                ) == Err::<IRV, BindErrorV>(bind_error_view(e)),
            }),
            all_calls_stateful(old(self).fns_m(), expr_view(*expr)) ==> (match r {
                Ok(ir) => lower_stateful(
                    old(self).fns_m(),
                    old(self).consts_m(),
                    expr_view(*expr),
                ) == Ok::<IRV, BindErrorV>(ir_view(ir)),
                Err(e) => lower_stateful(
                    old(self).fns_m(),
                    old(self).consts_m(),
                    expr_view(*expr),
                ) == Err::<IRV, BindErrorV>(bind_error_view(e)),
            }),
        decreases *expr,
    {
        match expr {
            Expression::Const(lit) => match lit {
                Literal::Number(b) => Ok(IRNode::Value(Type::Number(*b))),
                Literal::Ident(id) => match self.find_constant(id.as_str()) {
                    Some(v) => Ok(IRNode::Value(Type::Number(v))),
                    None => Ok(IRNode::Value(Type::String(id.clone()))),
                },
                Literal::Ref(n) => Ok(IRNode::Ref(FormulaLink::new(n.as_str()))),
            },
            Expression::BinOp(l, r, op) => {
                let lv = match self.lower(l) {
                    Ok(x) => x,
                    Err(e) => {
                        return Err(e);
                    },
                };
                let rv = match self.lower(r) {
                    Ok(x) => x,
                    Err(e) => {
                        return Err(e);
                    },
                };
                lower_binop_exec(lv, rv, *op)
            },
            Expression::UnOp(op, x) => {
                let xv = match self.lower(x) {
                    Ok(v) => v,
                    Err(e) => {
                        return Err(e);
                    },
                };
                Ok(lower_unop_exec(xv, *op))
            },
            Expression::Function { name, args } => {
                let ghost fs = old(self).fns_m();
                let ghost cs = old(self).consts_m();
                let ghost ev = expr_view(*expr);
                proof {
                    lemma_exprs_view(args@);
                }
                let n = args.len();
                let mut lowered: Vec<IRNode> = Vec::new();
                let mut i: usize = 0;
                while i < n
                    invariant
                        i <= n,
                        n == args@.len(),
                        lowered@.len() == i,
                        self.fns_m() == old(self).fns_m(),
                        self.consts_m() == old(self).consts_m(),
                        forall|j: int|
                            0 <= j < i ==> wf_lowered(
                                #[trigger] ir_view(lowered@[j]),
                                old(self).fns_m(),
                            ),
                        all_calls_stateful(fs, ev) ==> forall|j: int|
                            0 <= j < i ==> lower_stateful(fs, cs, exprs_view(args@)[j]) == Ok::<
                                IRV,
                                BindErrorV,
                            >(#[trigger] ir_view(lowered@[j])),
                    decreases n - i,
                {
                    proof {
                        if all_calls_stateful(fs, ev) {
                            lemma_all_list_stateful_elt(fs, exprs_view(args@), i as int);
                            assert(exprs_view(args@)[i as int] == expr_view(args@[i as int]));
                        }
                    }
                    match self.lower(&args[i]) {
                        Ok(ir) => {
                            lowered.push(ir);
                        },
                        Err(e) => {
                            proof {
                                if all_calls_stateful(fs, ev) {
                                    assert forall|m: int| 0 <= m < i implies lower_stateful(
                                        fs,
                                        cs,
                                        #[trigger] exprs_view(args@)[m],
                                    ) is Ok by {
                                        assert(lower_stateful(fs, cs, exprs_view(args@)[m])
                                            == Ok::<IRV, BindErrorV>(ir_view(lowered@[m])));
                                    }
                                    lemma_lower_list_err(
                                        fs,
                                        cs,
                                        exprs_view(args@),
                                        i as int,
                                        bind_error_view(e),
                                    );
                                }
                            }
                            return Err(e);
                        },
                    }
                    i = i + 1;
                }
                proof {
                    lemma_irs_view(lowered@);
                    lemma_wf_lowered_list(irs_view(lowered@), old(self).fns_m());
                    if all_calls_stateful(fs, ev) {
                        assert forall|m: int|
                            0 <= m < n implies lower_stateful(fs, cs, exprs_view(args@)[m])
                            == Ok::<IRV, BindErrorV>(#[trigger] irs_view(lowered@)[m]) by {
                            assert(irs_view(lowered@)[m] == ir_view(lowered@[m]));
                        }
                        lemma_lower_list_ok(fs, cs, exprs_view(args@), irs_view(lowered@));
                    }
                }
                let idx = match self.find_function(name.as_str()) {
                    Some(i2) => i2,
                    None => {
                        return Err(BindError::UnknownFunction(name.clone()));
                    },
                };
                let expected = self.argcnt_of(idx);
                if expected != args.len() {
                    return Err(BindError::ArityMismatch { expected, got: args.len() });
                }
                let purity = self.purity_of(idx);
                match purity {
                    CallableType::Stateful => Ok(IRNode::Call(idx, purity, lowered)),
                    _ => {
                        match extract_values(&lowered) {
                            Some(vals) => match self.call_fn(idx, &vals) {
                                Some(v) => Ok(IRNode::Value(v)),
                                None => Err(BindError::PureReturnedNone(name.clone())),
                            },
                            None => Ok(IRNode::Call(idx, purity, lowered)),
                        }
                    },
                }
            },
        }
    }
}


/// Every call of the expression either names a function registered as
/// stateful or names nothing (and will be rejected): no host function is
/// consulted while such an expression is lowered.
pub open spec fn all_calls_stateful(fs: Seq<FnMeta>, e: ExprV) -> bool
    decreases e,
{
    match e {
        ExprV::Const(_) => true,
        ExprV::Function { name, args } => (match find_fn_idx(fs, name) {
            Some(i) => fs[i].2 is Stateful,
            None => true,
        }) && all_list_stateful(fs, args),
        ExprV::BinOp(l, r, _) => all_calls_stateful(fs, *l) && all_calls_stateful(fs, *r),
        ExprV::UnOp(_, x) => all_calls_stateful(fs, *x),
    }
}

/// The call condition over an argument list.
pub open spec fn all_list_stateful(fs: Seq<FnMeta>, s: Seq<ExprV>) -> bool
    decreases s,
{
    if s.len() == 0 {
        true
    } else {
        all_calls_stateful(fs, s[0]) && all_list_stateful(fs, s.drop_first())
    }
}

/// What lowering yields when no host call takes part: constants and
/// operations as `lower_pure`; a call lowers its arguments first (the
/// first argument's error wins), then looks its name up (an unknown name
/// or a wrong argument count is the error) and stands as a call site over
/// its lowered arguments.
pub open spec fn lower_stateful(fs: Seq<FnMeta>, cs: Seq<(Seq<char>, u64)>, e: ExprV) -> Result<
    IRV,
    BindErrorV,
>
    decreases e,
{
    match e {
        ExprV::Const(LiteralV::Number(b)) => Ok(IRV::Value(TypeV::Number(b))),
        ExprV::Const(LiteralV::Ident(id)) => match find_const(cs, id) {
            Some(v) => Ok(IRV::Value(TypeV::Number(v))),
            None => Ok(IRV::Value(TypeV::String(id))),
        },
        ExprV::Const(LiteralV::Ref(n)) => Ok(IRV::Ref(LinkV { name: n, target: None })),
        ExprV::Function { name, args } => match lower_stateful_list(fs, cs, args) {
            Err(e2) => Err(e2),
            Ok(la) => match find_fn_idx(fs, name) {
                None => Err(BindErrorV::UnknownFunction(name)),
                Some(i) => if fs[i].1 != args.len() {
                    Err(
                        BindErrorV::ArityMismatch {
                            expected: fs[i].1,
                            got: args.len() as int,
                        },
                    )
                } else {
                    Ok(IRV::Call(i, fs[i].2, la))
                },
            },
        },
        ExprV::BinOp(l, r, op) => match lower_stateful(fs, cs, *l) {
            Ok(lv) => match lower_stateful(fs, cs, *r) {
                Ok(rv) => lower_binop(lv, rv, op),
                Err(e2) => Err(e2),
            },
            Err(e2) => Err(e2),
        },
        ExprV::UnOp(op, x) => match lower_stateful(fs, cs, *x) {
            Ok(xv) => Ok(lower_unop(xv, op)),
            Err(e2) => Err(e2),
        },
    }
}

/// Lowering of an argument list, left to right, stopping at the first
/// error.
pub open spec fn lower_stateful_list(
    fs: Seq<FnMeta>,
    cs: Seq<(Seq<char>, u64)>,
    s: Seq<ExprV>,
) -> Result<Seq<IRV>, BindErrorV>
    decreases s,
{
    if s.len() == 0 {
        Ok(Seq::empty())
    } else {
        match lower_stateful(fs, cs, s[0]) {
            Ok(h) => match lower_stateful_list(fs, cs, s.drop_first()) {
                Ok(t) => Ok(seq![h] + t),
                Err(e) => Err(e),
            },
            Err(e) => Err(e),
        }
    }
}

proof fn lemma_lower_list_ok(
    fs: Seq<FnMeta>,
    cs: Seq<(Seq<char>, u64)>,
    s: Seq<ExprV>,
    out: Seq<IRV>,
)
    requires
        s.len() == out.len(),
        forall|m: int| 0 <= m < s.len() ==> lower_stateful(fs, cs, #[trigger] s[m]) == Ok::<
            IRV,
            BindErrorV,
        >(out[m]),
    ensures
        lower_stateful_list(fs, cs, s) == Ok::<Seq<IRV>, BindErrorV>(out),
    decreases s,
{
    if s.len() > 0 {
        lemma_lower_list_ok(fs, cs, s.drop_first(), out.drop_first());
        assert(seq![out[0]] + out.drop_first() =~= out);
    } else {
        assert(out =~= Seq::<IRV>::empty());
    }
}

proof fn lemma_lower_list_err(
    fs: Seq<FnMeta>,
    cs: Seq<(Seq<char>, u64)>,
    s: Seq<ExprV>,
    k: int,
    e: BindErrorV,
)
    requires
        0 <= k < s.len(),
        forall|m: int| 0 <= m < k ==> lower_stateful(fs, cs, #[trigger] s[m]) is Ok,
        lower_stateful(fs, cs, s[k]) == Err::<IRV, BindErrorV>(e),
    ensures
        lower_stateful_list(fs, cs, s) == Err::<Seq<IRV>, BindErrorV>(e),
    decreases k,
{
    if k > 0 {
        lemma_lower_list_err(fs, cs, s.drop_first(), k - 1, e);
    }
}

proof fn lemma_all_list_stateful_elt(fs: Seq<FnMeta>, s: Seq<ExprV>, i: int)
    requires
        all_list_stateful(fs, s),
        0 <= i < s.len(),
    ensures
        all_calls_stateful(fs, s[i]),
    decreases s,
{
    if i > 0 {
        lemma_all_list_stateful_elt(fs, s.drop_first(), i - 1);
    }
}

} // verus!
