//! The interpreter: owns the registry and the formula graph, and runs one
//! evaluation pass per input tick.
//!
//! The graph is an arena: `nodes[i]` is a formula, and links, parent lists
//! and child lists hold slots into it. `order` is a topological order of
//! the slots (each formula after all of its parents), with `order_pos` its
//! inverse; one tick evaluates every formula once, in that order, so every
//! reference reads the value its target got this same tick.
use crate::ast::Operation;
use crate::ctx::Context;
use crate::ctx::FnMeta;
use crate::errors::BindError;
use crate::errors::BindErrorV;
use crate::errors::bind_error_view;
use crate::errors::Error;
use crate::errors::GraphError;
use crate::lex::ParseError;
use crate::parser::spec_parse_source;
use crate::ast::ExprV;
use crate::formula::Formula;
use crate::ir::IRNode;
use crate::ir::IRV;
use crate::ir::call_free;
use crate::ir::eval_pure;
use crate::ir::ir_refs;
use crate::ir::ir_runtime_wf;
use crate::ir::irs_refs;
use crate::ir::irs_runtime_wf;
use crate::ir::irs_view;
use crate::ir::ir_view;
use crate::ir::lemma_irs_view;
use crate::ir::LinkV;
use crate::ir::FormulaLink;
use crate::ir::fp_ir;
use crate::ir::mangled;
use crate::ir::mangled_name;
use crate::ir::names_view;
use crate::ctx::wf_lowered;
use crate::ctx::lower_stateful;
use crate::ctx::all_calls_stateful;
use crate::ctx::wf_lowered_list;
use crate::types::CallableType;
use crate::types::Callable;
use crate::types::Type;
use crate::types::TypeV;
use crate::types::type_view;
use vstd::prelude::*;

verus! {

broadcast use vstd::seq::axiom_seq_index_decreases, vstd::std_specs::vec::axiom_vec_decreases_to_view;

/// The interpreter: the evaluation context, the formula arena, the slots
/// of the formulas without dependencies, and the evaluation order.
pub struct Interpreter<C> {
    pub ctx: Context<C>,
    pub nodes: Vec<Formula>,
    pub root_nodes: Vec<usize>,
    pub order: Vec<usize>,
    pub order_pos: Vec<usize>,
}

/// The spec-level image of one result slot.
pub open spec fn opt_type_view(r: Option<Type>) -> Option<TypeV> {
    match r {
        Some(t) => Some(type_view(t)),
        None => None,
    }
}

/// The spec-level image of a row of result slots.
pub open spec fn results_view(s: Seq<Option<Type>>) -> Seq<Option<TypeV>> {
    s.map_values(|r: Option<Type>| opt_type_view(r))
}

impl<C> Interpreter<C> {
    /// The number of formulas in the graph.
    pub open spec fn n(&self) -> int {
        self.nodes@.len() as int
    }

    /// The current result slots of all formulas.
    pub open spec fn results_m(&self) -> Seq<Option<TypeV>> {
        self.nodes@.map_values(|f: Formula| opt_type_view(f.result))
    }

    /// Formula `i` is sound against the graph: its tree evaluates within
    /// bounds, its neighbor lists stay in bounds, and every formula its
    /// tree refers to is listed among its parents.
    pub open spec fn node_wf(&self, i: int) -> bool {
        let f = self.nodes@[i];
        &&& ir_runtime_wf(ir_view(f.ir), self.ctx.fns_m().len() as int, self.n())
        &&& (forall|j: int| 0 <= j < f.parents@.len() ==> (#[trigger] f.parents@[j]) < self.n())
        &&& (forall|j: int| 0 <= j < f.children@.len() ==> (#[trigger] f.children@[j]) < self.n())
        &&& (forall|t: int|
            #[trigger] ir_refs(ir_view(f.ir)).contains(t) ==> exists|j: int|
                0 <= j < f.parents@.len() && f.parents@[j] == t)
    }

    /// `order` enumerates every slot exactly once (with `order_pos` as its
    /// inverse) and puts every formula after all of its parents.
    pub open spec fn order_wf(&self) -> bool {
        &&& self.order@.len() == self.n()
        &&& self.order_pos@.len() == self.n()
        &&& (forall|k: int| 0 <= k < self.n() ==> (#[trigger] self.order@[k]) < self.n())
        &&& (forall|i: int|
            0 <= i < self.n() ==> (#[trigger] self.order_pos@[i]) < self.n()
                && self.order@[self.order_pos@[i] as int] == i)
        &&& (forall|k: int|
            0 <= k < self.n() ==> self.order_pos@[#[trigger] self.order@[k] as int] == k)
        &&& (forall|k: int, j: int|
            0 <= k < self.n() && 0 <= j < self.nodes@[self.order@[k] as int].parents@.len()
                ==> (self.order_pos@[#[trigger] self.nodes@[self.order@[k] as int].parents@[j] as int]
                as int) < k)
    }

    /// The whole structure is sound: every formula is, the order is, the
    /// root list stays in bounds, and no two formulas share a name.
    pub open spec fn wf(&self) -> bool {
        &&& (forall|i: int| 0 <= i < self.n() ==> self.node_wf(i))
        &&& self.order_wf()
        &&& (forall|j: int|
            0 <= j < self.root_nodes@.len() ==> (#[trigger] self.root_nodes@[j]) < self.n())
        &&& (forall|i1: int, i2: int|
            0 <= i1 < i2 < self.n() ==> self.nodes@[i1].name@ != self.nodes@[i2].name@)
    }

    /// The two interpreters have the same graph: only result slots and the
    /// host functions' own state may differ.
    pub open spec fn same_graph(&self, other: &Interpreter<C>) -> bool {
        &&& self.nodes@.len() == other.nodes@.len()
        &&& (forall|i: int|
            0 <= i < self.nodes@.len() ==> (#[trigger] other.nodes@[i]).name@
                == self.nodes@[i].name@ && ir_view(other.nodes@[i].ir) == ir_view(
                self.nodes@[i].ir,
            ) && other.nodes@[i].parents@ == self.nodes@[i].parents@ && other.nodes@[i].children@
                == self.nodes@[i].children@)
        &&& other.root_nodes@ == self.root_nodes@
        &&& other.order@ == self.order@
        &&& other.order_pos@ == self.order_pos@
        &&& other.ctx.fns_m() == self.ctx.fns_m()
        &&& other.ctx.consts_m() == self.ctx.consts_m()
    }
}

/// `eval_pure` reads only the slots its tree refers to: two rows that
/// agree there give the same value.
pub proof fn lemma_eval_pure_frame(ir: IRV, r1: Seq<Option<TypeV>>, r2: Seq<Option<TypeV>>)
    requires
        r1.len() == r2.len(),
        forall|t: int| ir_refs(ir).contains(t) && 0 <= t < r1.len() ==> r1[t] == r2[t],
    ensures
        eval_pure(ir, r1) == eval_pure(ir, r2),
    decreases ir,
{
    match ir {
        IRV::Value(_) => {},
        IRV::Ref(l) => {
            match l.target {
                Some(j) => {
                    if 0 <= j < r1.len() {
                        assert(ir_refs(ir).contains(j));
                    }
                },
                None => {},
            }
        },
        IRV::Call(_, _, _) => {},
        IRV::BinOp(l, r, _) => {
            assert forall|t: int| ir_refs(*l).contains(t) implies ir_refs(ir).contains(t) by {}
            assert forall|t: int| ir_refs(*r).contains(t) implies ir_refs(ir).contains(t) by {}
            lemma_eval_pure_frame(*l, r1, r2);
            lemma_eval_pure_frame(*r, r1, r2);
        },
        IRV::UnOp(r, _) => {
            lemma_eval_pure_frame(*r, r1, r2);
        },
    }
}

/// Evaluates one tree against the current result slots. Arguments of a
/// call are evaluated left to right and the call is skipped (yielding
/// nothing) as soon as one of them yields nothing; on a call-free tree the
/// result is exactly `eval_pure`.
#[verifier::loop_isolation(false)]
fn eval_ir<C: Callable>(ir: &IRNode, ctx: &mut Context<C>, results: &Vec<Option<Type>>) -> (r:
    Option<Type>)
    requires
        ir_runtime_wf(ir_view(*ir), old(ctx).fns_m().len() as int, results@.len() as int),
    ensures
        final(ctx).fns_m() == old(ctx).fns_m(),
        final(ctx).consts_m() == old(ctx).consts_m(),
        call_free(ir_view(*ir)) ==> opt_type_view(r) == eval_pure(
            ir_view(*ir),
            results_view(results@),
        ),
    decreases *ir,
{
    match ir {
        IRNode::Value(t) => Some(t.clone()),
        IRNode::Ref(l) => {
            match l.target {
                Some(j) => {
                    proof {
                        assert(results_view(results@)[j as int] == opt_type_view(
                            results@[j as int],
                        ));
                    }
                    match &results[j] {
                        Some(t) => Some(t.clone()),
                        None => None,
                    }
                },
                None => None,
            }
        },
        IRNode::Call(i, _, args) => {
            let n = args.len();
            let mut vals: Vec<Type> = Vec::new();
            let mut k: usize = 0;
            proof {
                lemma_irs_view(args@);
            }
            while k < n
                invariant
                    k <= n,
                    ctx.fns_m() == old(ctx).fns_m(),
                    ctx.consts_m() == old(ctx).consts_m(),
                decreases n - k,
            {
                proof {
                    lemma_irs_runtime_wf_elt(
                        irs_view(args@),
                        old(ctx).fns_m().len() as int,
                        results@.len() as int,
                        k as int,
                    );
                }
                match eval_ir(&args[k], ctx, results) {
                    Some(v) => {
                        vals.push(v);
                    },
                    None => {
                        return None;
                    },
                }
                k = k + 1;
            }
            proof {
                assert(ctx.fns_m().len() == old(ctx).fns_m().len());
                assert(ctx.ns_fn@.len() == ctx.fns_m().len());
            }
            ctx.call_fn(*i, &vals)
        },
        IRNode::BinOp(l, r, op) => {
            let lt = match eval_ir(l, ctx, results) {
                Some(t) => t,
                None => {
                    return None;
                },
            };
            let rt = match eval_ir(r, ctx, results) {
                Some(t) => t,
                None => {
                    return None;
                },
            };
            match (lt.as_number(), rt.as_number()) {
                (Some(a), Some(b)) => match op.eval(a, b) {
                    Some(v) => Some(Type::Number(v)),
                    None => None,
                },
                _ => None,
            }
        },
        IRNode::UnOp(r, op) => {
            let rt = match eval_ir(r, ctx, results) {
                Some(t) => t,
                None => {
                    return None;
                },
            };
            match rt.as_number() {
                Some(a) => Some(Type::Number(op.unary_eval(a))),
                None => None,
            }
        },
    }
}

/// Each element of a well-formed list is well-formed.
proof fn lemma_irs_runtime_wf_elt(s: Seq<IRV>, nfns: int, nnodes: int, i: int)
    requires
        irs_runtime_wf(s, nfns, nnodes),
        0 <= i < s.len(),
    ensures
        ir_runtime_wf(s[i], nfns, nnodes),
    decreases s,
{
    if i > 0 {
        lemma_irs_runtime_wf_elt(s.drop_first(), nfns, nnodes, i - 1);
    }
}

fn clone_result(r: &Option<Type>) -> (c: Option<Type>)
    ensures
        opt_type_view(c) == opt_type_view(*r),
{
    match r {
        Some(t) => Some(t.clone()),
        None => None,
    }
}

/// The per-tick report: the name and final result of each formula that no
/// other formula references, in evaluation order over the prefix
/// `order[..k]`.
pub open spec fn sink_report(
    nodes: Seq<Formula>,
    order: Seq<usize>,
    k: int,
) -> Seq<(Seq<char>, Option<TypeV>)>
    decreases k,
{
    if k <= 0 {
        Seq::empty()
    } else {
        let i = order[k - 1] as int;
        let pre = sink_report(nodes, order, k - 1);
        if nodes[i].children@.len() == 0 {
            pre.push((nodes[i].name@, opt_type_view(nodes[i].result)))
        } else {
            pre
        }
    }
}

/// The spec-level image of a report row.
pub open spec fn report_view(v: Seq<(String, Option<Type>)>) -> Seq<(Seq<char>, Option<TypeV>)> {
    v.map_values(|p: (String, Option<Type>)| (p.0@, opt_type_view(p.1)))
}

impl<C: Callable> Interpreter<C> {
    /// Evaluates the formula in slot `idx` against the current result
    /// slots, without storing anything; on a call-free tree the value is
    /// exactly `eval_pure`.
    pub fn eval(&mut self, idx: usize) -> (r: Option<Type>)
        requires
            old(self).wf(),
            idx < old(self).nodes@.len(),
        ensures
            final(self).wf(),
            old(self).same_graph(final(self)),
            final(self).results_m() == old(self).results_m(),
            call_free(ir_view(old(self).nodes@[idx as int].ir)) ==> opt_type_view(r) == eval_pure(
                ir_view(old(self).nodes@[idx as int].ir),
                old(self).results_m(),
            ),
    {
        let n = self.nodes.len();
        let mut results: Vec<Option<Type>> = Vec::new();
        let mut i: usize = 0;
        while i < n
            invariant
                i <= n,
                n == self.nodes@.len(),
                *self == *old(self),
                results@.len() == i,
                forall|j: int|
                    0 <= j < i ==> opt_type_view(#[trigger] results@[j]) == opt_type_view(
                        self.nodes@[j].result,
                    ),
            decreases n - i,
        {
            results.push(clone_result(&self.nodes[i].result));
            i = i + 1;
        }
        proof {
            assert(results_view(results@) =~= self.results_m());
        }
        let ir = self.nodes[idx].ir.clone();
        proof {
            assert(self.node_wf(idx as int));
            assert(results@.len() == self.n());
        }
        let r = eval_ir(&ir, &mut self.ctx, &results);
        proof {
            assert(old(self).same_graph(self));
            assert(self.results_m() =~= old(self).results_m());
            assert forall|i2: int| 0 <= i2 < self.n() implies self.node_wf(i2) by {
                assert(old(self).node_wf(i2));
            }
            assert(self.wf());
        }
        r
    }
}


impl<C: Callable> Interpreter<C> {
    /// One tick: every formula is evaluated exactly once, each after all
    /// of its parents, and its value is stored in its result slot, so a
    /// reference always reads the value its target got this same tick.
    /// Every call-free formula's final slot holds exactly `eval_pure` of
    /// its tree over the final slots. The report holds the name and value
    /// of each sink (a formula no other formula references), in
    /// evaluation order.
    #[verifier::loop_isolation(false)]
    pub fn compute_pass(&mut self) -> (r: Vec<(String, Option<Type>)>)
        requires
            old(self).wf(),
        ensures
            final(self).wf(),
            old(self).same_graph(final(self)),
            forall|i: int|
                0 <= i < final(self).n() && call_free(
                    ir_view(#[trigger] final(self).nodes@[i].ir),
                ) ==> final(self).results_m()[i] == eval_pure(
                    ir_view(final(self).nodes@[i].ir),
                    final(self).results_m(),
                ),
            report_view(r@) == sink_report(final(self).nodes@, final(self).order@, final(self).n()),
    {
        let n = self.nodes.len();
        let mut results: Vec<Option<Type>> = Vec::new();
        let mut i0: usize = 0;
        while i0 < n
            invariant
                i0 <= n,
                *self == *old(self),
                results@.len() == i0,
                forall|j: int|
                    0 <= j < i0 ==> opt_type_view(#[trigger] results@[j]) == opt_type_view(
                        self.nodes@[j].result,
                    ),
            decreases n - i0,
        {
            results.push(clone_result(&self.nodes[i0].result));
            i0 = i0 + 1;
        }
        let mut k: usize = 0;
        while k < n
            invariant
                k <= n,
                n == self.nodes@.len(),
                old(self).same_graph(self),
                self.order@ == old(self).order@,
                self.order_pos@ == old(self).order_pos@,
                self.root_nodes@ == old(self).root_nodes@,
                results@.len() == n,
                forall|kk: int|
                    0 <= kk < k ==> opt_type_view(
                        #[trigger] self.nodes@[self.order@[kk] as int].result,
                    ) == opt_type_view(results@[self.order@[kk] as int]),
                forall|kk: int|
                    k <= kk < n ==> #[trigger] self.nodes@[self.order@[kk] as int].result == old(
                        self,
                    ).nodes@[self.order@[kk] as int].result,
                forall|kk: int|
                    0 <= kk < k && call_free(
                        ir_view(#[trigger] self.nodes@[self.order@[kk] as int].ir),
                    ) ==> opt_type_view(results@[self.order@[kk] as int]) == eval_pure(
                        ir_view(self.nodes@[self.order@[kk] as int].ir),
                        results_view(results@),
                    ),
            decreases n - k,
        {
            let i = self.order[k];
            let ir = self.nodes[i].ir.clone();
            proof {
                assert(old(self).node_wf(i as int));
                assert(ir_runtime_wf(ir_view(ir), self.ctx.fns_m().len() as int, n as int));
            }
            let v = eval_ir(&ir, &mut self.ctx, &results);
            let v2 = clone_result(&v);
            let ghost pre = results@;
            let ghost pre_nodes = self.nodes@;
            results.set(i, v);
            self.nodes[i].result = v2;
            k = k + 1;
            proof {
                // slot i is no parent of any formula already evaluated,
                // nor of itself, so every settled value still reads the
                // same slots.
                assert forall|kk: int|
                    0 <= kk < k && call_free(
                        ir_view(#[trigger] self.nodes@[self.order@[kk] as int].ir),
                    ) implies opt_type_view(results@[self.order@[kk] as int]) == eval_pure(
                        ir_view(self.nodes@[self.order@[kk] as int].ir),
                        results_view(results@),
                    ) by {
                    let ii = self.order@[kk] as int;
                    assert(old(self).node_wf(ii));
                    assert forall|t: int|
                        ir_refs(ir_view(self.nodes@[ii].ir)).contains(t) && 0 <= t < n implies
                        results_view(pre)[t] == results_view(results@)[t] by {
                        let jx = choose|j: int|
                            0 <= j < old(self).nodes@[ii].parents@.len() && old(
                                self,
                            ).nodes@[ii].parents@[j] == t;
                        assert(self.order_pos@[t] < kk);
                        assert(t != i as int);
                        assert(results@ == pre.update(i as int, results@[i as int]));
                    }
                    lemma_eval_pure_frame(
                        ir_view(self.nodes@[ii].ir),
                        results_view(pre),
                        results_view(results@),
                    );
                    if kk < k - 1 {
                        assert(opt_type_view(pre[ii]) == eval_pure(
                            ir_view(pre_nodes[ii].ir),
                            results_view(pre),
                        ));
                    } else {
                        assert(ii == i as int);
                        assert(call_free(ir_view(ir)) ==> opt_type_view(
                            results@[i as int],
                        ) == eval_pure(ir_view(ir), results_view(pre)));
                    }
                }
            }
        }
        proof {
            // every slot was settled: transfer the row back to the nodes
            assert forall|i: int|
                0 <= i < self.n() implies opt_type_view(self.nodes@[i].result) == opt_type_view(
                    results@[i],
                ) by {
                let kk = self.order_pos@[i] as int;
                assert(self.order@[kk] as int == i);
            }
            assert(self.results_m() =~= results_view(results@));
            assert forall|i: int|
                0 <= i < self.n() && call_free(ir_view(#[trigger] self.nodes@[i].ir)) implies
                self.results_m()[i] == eval_pure(ir_view(self.nodes@[i].ir), self.results_m()) by {
                let kk = self.order_pos@[i] as int;
                assert(self.order@[kk] as int == i);
            }
            assert forall|i2: int| 0 <= i2 < self.n() implies self.node_wf(i2) by {
                assert(old(self).node_wf(i2));
            }
            assert(self.wf());
        }
        let mut rep: Vec<(String, Option<Type>)> = Vec::new();
        let mut k2: usize = 0;
        proof {
            assert(report_view(rep@) =~= sink_report(self.nodes@, self.order@, 0));
        }
        while k2 < n
            invariant
                k2 <= n,
                report_view(rep@) == sink_report(self.nodes@, self.order@, k2 as int),
            decreases n - k2,
        {
            let i = self.order[k2];
            if self.nodes[i].children.len() == 0 {
                rep.push((self.nodes[i].name.clone(), clone_result(&self.nodes[i].result)));
            }
            k2 = k2 + 1;
            proof {
                assert(report_view(rep@) =~= sink_report(self.nodes@, self.order@, k2 as int));
            }
        }
        rep
    }
}


impl<C: Callable> Interpreter<C> {
    /// One tick, unless the stream is exhausted: yields the sink report as
    /// long as at least one sink still produces a value, and nothing once
    /// every sink came up empty.
    pub fn next_tick(&mut self) -> (r: Option<Vec<(String, Option<Type>)>>)
        requires
            old(self).wf(),
        ensures
            final(self).wf(),
            old(self).same_graph(final(self)),
            (match r {
                Some(v) => report_view(v@) == sink_report(
                    final(self).nodes@,
                    final(self).order@,
                    final(self).n(),
                ) && (exists|j: int| 0 <= j < v@.len() && (#[trigger] v@[j].1) is Some),
                None => forall|j: int|
                    0 <= j < sink_report(
                        final(self).nodes@,
                        final(self).order@,
                        final(self).n(),
                    ).len() ==> (#[trigger] sink_report(
                        final(self).nodes@,
                        final(self).order@,
                        final(self).n(),
                    )[j].1) is None,
            }),
    {
        let rep = self.compute_pass();
        let n = rep.len();
        let mut any: bool = false;
        let mut j: usize = 0;
        #[verifier::loop_isolation(false)]
        while j < n
            invariant
                j <= n,
                any == (exists|m: int| 0 <= m < j && (#[trigger] rep@[m].1) is Some),
            decreases n - j,
        {
            match &rep[j].1 {
                Some(_) => {
                    any = true;
                },
                None => {},
            }
            j = j + 1;
        }
        if any {
            Some(rep)
        } else {
            proof {
                let sr = sink_report(self.nodes@, self.order@, self.n());
                assert(report_view(rep@) == sr);
                assert forall|m: int| 0 <= m < sr.len() implies (#[trigger] sr[m].1) is None by {
                    assert(sr[m] == report_view(rep@)[m]);
                    assert(report_view(rep@)[m].1 == opt_type_view(rep@[m].1));
                }
            }
            None
        }
    }
}

/// Resolves every reference of a tree against the arena: a link to a
/// formula already reduced to a plain value is replaced by that value; any
/// other link is bound to its target's slot, which is also appended to
/// `parents`; a name with no formula is an error.
#[verifier::loop_isolation(false)]
fn resolve_ir(
    ir: &IRNode,
    nodes: &Vec<Formula>,
    parents: &mut Vec<usize>,
    Ghost(nfns): Ghost<int>,
) -> (r: Result<IRNode, BindError>)
    requires
        calls_in_range(ir_view(*ir), nfns),
        forall|j: int| 0 <= j < old(parents)@.len() ==> (#[trigger] old(parents)@[j]) < nodes@.len(),
    ensures
        (match r {
            Ok(out) => {
                &&& resolve_map(ir_view(*ir), arena_view(nodes@)) == Ok::<IRV, BindErrorV>(
                    ir_view(out),
                )
                &&& ir_runtime_wf(ir_view(out), nfns, nodes@.len() as int)
                &&& final(parents)@.len() >= old(parents)@.len()
                &&& (forall|j: int|
                    0 <= j < old(parents)@.len() ==> #[trigger] final(parents)@[j] == old(
                        parents,
                    )@[j])
                &&& (forall|j: int|
                    0 <= j < final(parents)@.len() ==> (#[trigger] final(parents)@[j])
                        < nodes@.len())
                &&& (forall|t: int|
                    #[trigger] ir_refs(ir_view(out)).contains(t) ==> exists|j: int|
                        0 <= j < final(parents)@.len() && final(parents)@[j] == t)
                &&& (forall|j: int|
                    old(parents)@.len() <= j < final(parents)@.len() ==> ir_refs(
                        ir_view(out),
                    ).contains((#[trigger] final(parents)@[j]) as int))
            },
            Err(e) => resolve_map(ir_view(*ir), arena_view(nodes@)) == Err::<IRV, BindErrorV>(
                bind_error_view(e),
            ),
        }),
    decreases *ir,
{
    match ir {
        IRNode::Value(t) => {
            let out = IRNode::Value(t.clone());
            proof {
                assert(forall|t2: int| !ir_refs(ir_view(out)).contains(t2));
            }
            Ok(out)
        },
        IRNode::Ref(l) => {
            let ghost nv = arena_view(nodes@);
            proof {
                assert(forall|i2: int|
                    0 <= i2 < nodes@.len() ==> (#[trigger] nv[i2]) == (
                    nodes@[i2].name@,
                    ir_view(nodes@[i2].ir),
                ));
            }
            match find_node(nodes, &l.name) {
                Some(j) => {
                    proof {
                        lemma_find_name_at(nv, l.name@, j as int);
                    }
                    if is_plain_value(&nodes[j].ir) {
                        let out = nodes[j].ir.clone();
                        proof {
                            assert(nv[j as int].1 is Value);
                            assert(forall|t2: int| !ir_refs(ir_view(out)).contains(t2));
                        }
                        Ok(out)
                    } else {
                        let mut l2 = l.clone();
                        l2.link_with(j);
                        parents.push(j);
                        proof {
                            assert(!(nv[j as int].1 is Value));
                            assert(ir_refs(ir_view(IRNode::Ref(l2))) =~= Set::empty().insert(
                                j as int,
                            ));
                            assert(parents@[parents@.len() - 1] == j);
                        }
                        Ok(IRNode::Ref(l2))
                    }
                },
                None => {
                    proof {
                        lemma_find_name_none(nv, l.name@);
                    }
                    Err(BindError::UnresolvedRef(l.name.clone()))
                },
            }
        },
        IRNode::Call(i, p, args) => {
            let n = args.len();
            let mut out_args: Vec<IRNode> = Vec::new();
            let mut k: usize = 0;
            proof {
                lemma_irs_view(args@);
            }
            while k < n
                invariant
                    k <= n,
                    n == args@.len(),
                    out_args@.len() == k,
                    parents@.len() >= old(parents)@.len(),
                    forall|j: int|
                        0 <= j < old(parents)@.len() ==> #[trigger] parents@[j] == old(
                            parents,
                        )@[j],
                    forall|j: int|
                        0 <= j < parents@.len() ==> (#[trigger] parents@[j]) < nodes@.len(),
                    forall|m: int|
                        0 <= m < k ==> ir_runtime_wf(
                            #[trigger] ir_view(out_args@[m]),
                            nfns,
                            nodes@.len() as int,
                        ),
                    forall|m: int|
                        0 <= m < k ==> resolve_map(irs_view(args@)[m], arena_view(nodes@))
                            == Ok::<IRV, BindErrorV>(#[trigger] ir_view(out_args@[m])),
                    forall|m: int, t: int|
                        0 <= m < k && #[trigger] ir_refs(ir_view(out_args@[m])).contains(t)
                            ==> exists|j: int| 0 <= j < parents@.len() && parents@[j] == t,
                    forall|j: int|
                        old(parents)@.len() <= j < parents@.len() ==> exists|m: int|
                            0 <= m < k && ir_refs(ir_view(out_args@[m])).contains(
                                (#[trigger] parents@[j]) as int,
                            ),
                decreases n - k,
            {
                proof {
                    lemma_calls_in_range_elt(irs_view(args@), nfns, k as int);
                }
                let ghost pre_parents = parents@;
                let ghost pre_out = out_args@;
                match resolve_ir(&args[k], nodes, parents, Ghost(nfns)) {
                    Ok(out) => {
                        let ghost outv2 = ir_view(out);
                        out_args.push(out);
                        proof {
                            assert(ir_view(out_args@[out_args@.len() - 1]) == outv2);
                            assert forall|j: int|
                                pre_parents.len() <= j < parents@.len() implies ir_refs(
                                    outv2,
                                ).contains((#[trigger] parents@[j]) as int) by {}
                        }
                    },
                    Err(e) => {
                        proof {
                            assert(irs_view(args@)[k as int] == ir_view(args@[k as int]));
                            assert forall|m: int| 0 <= m < k implies resolve_map(
                                #[trigger] irs_view(args@)[m],
                                arena_view(nodes@),
                            ) is Ok by {
                                assert(resolve_map(irs_view(args@)[m], arena_view(nodes@))
                                    == Ok::<IRV, BindErrorV>(ir_view(out_args@[m])));
                            }
                            lemma_resolve_list_err(
                                irs_view(args@),
                                arena_view(nodes@),
                                k as int,
                                bind_error_view(e),
                            );
                        }
                        return Err(e);
                    },
                }
                k = k + 1;
                proof {
                    assert forall|m: int, t: int|
                        0 <= m < k && #[trigger] ir_refs(ir_view(out_args@[m])).contains(t)
                            implies exists|j: int| 0 <= j < parents@.len() && parents@[j] == t by {
                        if m < k - 1 {
                            let j0 = choose|j0: int|
                                0 <= j0 < pre_parents.len() && pre_parents[j0] == t;
                            assert(parents@[j0] == t);
                        }
                    }
                    assert forall|j: int|
                        old(parents)@.len() <= j < parents@.len() implies exists|m: int|
                            0 <= m < k && ir_refs(ir_view(out_args@[m])).contains(
                                (#[trigger] parents@[j]) as int,
                            ) by {
                        if j < pre_parents.len() {
                            assert(parents@[j] == pre_parents[j]);
                            assert(exists|m0: int|
                                0 <= m0 < k - 1 && ir_refs(ir_view(pre_out[m0])).contains(
                                    pre_parents[j] as int,
                                ));
                            let m0 = choose|m0: int|
                                0 <= m0 < k - 1 && ir_refs(ir_view(pre_out[m0])).contains(
                                    pre_parents[j] as int,
                                );
                            assert(out_args@[m0] == pre_out[m0]);
                            assert(ir_refs(ir_view(out_args@[m0])).contains(
                                parents@[j] as int,
                            ));
                        } else {
                            assert(ir_refs(ir_view(out_args@[k - 1])).contains(
                                parents@[j] as int,
                            ));
                        }
                    }
                }
            }
            proof {
                lemma_irs_view(out_args@);
                assert forall|m: int|
                    0 <= m < n implies resolve_map(irs_view(args@)[m], arena_view(nodes@))
                    == Ok::<IRV, BindErrorV>(#[trigger] irs_view(out_args@)[m]) by {
                    assert(irs_view(out_args@)[m] == ir_view(out_args@[m]));
                }
                lemma_resolve_list_ok(irs_view(args@), arena_view(nodes@), irs_view(out_args@));
            }
            let out = IRNode::Call(*i, *p, out_args);
            proof {
                let outv = ir_view(out);
                assert(outv matches IRV::Call(ii, pp, aa) && aa == irs_view(out.arrow_Call_2()@));
                lemma_irs_view(out.arrow_Call_2()@);
                lemma_irs_runtime_wf_all(
                    irs_view(out.arrow_Call_2()@),
                    nfns,
                    nodes@.len() as int,
                );
                lemma_irs_refs_covered(irs_view(out.arrow_Call_2()@), parents@);
                assert forall|t: int| #[trigger] ir_refs(outv).contains(t) implies exists|j: int|
                    0 <= j < parents@.len() && parents@[j] == t by {
                    assert(irs_refs(irs_view(out.arrow_Call_2()@)).contains(t));
                }
                assert forall|j: int|
                    old(parents)@.len() <= j < parents@.len() implies ir_refs(outv).contains(
                        (#[trigger] parents@[j]) as int,
                    ) by {
                    let m0 = choose|m0: int|
                        0 <= m0 < n && ir_refs(ir_view(out.arrow_Call_2()@[m0])).contains(
                            parents@[j] as int,
                        );
                    lemma_irs_refs_elt_subset(
                        irs_view(out.arrow_Call_2()@),
                        m0,
                        parents@[j] as int,
                    );
                }
            }
            Ok(out)
        },
        IRNode::BinOp(l, r, op) => {
            let ghost mid0 = parents@;
            let lo = match resolve_ir(l, nodes, parents, Ghost(nfns)) {
                Ok(o) => o,
                Err(e) => {
                    return Err(e);
                },
            };
            let ghost mid = parents@;
            let ro = match resolve_ir(r, nodes, parents, Ghost(nfns)) {
                Ok(o) => o,
                Err(e) => {
                    return Err(e);
                },
            };
            proof {
                assert forall|t: int|
                    #[trigger] ir_refs(ir_view(IRNode::BinOp(Box::new(lo), Box::new(ro), *op)))
                        .contains(t) implies exists|j: int|
                    0 <= j < parents@.len() && parents@[j] == t by {
                    if ir_refs(ir_view(lo)).contains(t) {
                        assert(exists|j0: int| 0 <= j0 < mid.len() && mid[j0] == t);
                        let j0 = choose|j0: int| 0 <= j0 < mid.len() && mid[j0] == t;
                        assert(parents@.len() >= mid.len());
                        assert(parents@[j0] == mid[j0]);
                        assert(parents@[j0] == t);
                    } else {
                        assert(ir_refs(ir_view(ro)).contains(t));
                    }
                }
            }
            let out = IRNode::BinOp(Box::new(lo), Box::new(ro), *op);
            proof {
                assert(ir_refs(ir_view(out)) =~= ir_refs(ir_view(lo)).union(
                    ir_refs(ir_view(ro)),
                ));
                assert forall|t: int| #[trigger] ir_refs(ir_view(out)).contains(t) implies exists|
                    j: int,
                |
                    0 <= j < parents@.len() && parents@[j] == t by {}
                assert forall|j: int|
                    old(parents)@.len() <= j < parents@.len() implies ir_refs(
                        ir_view(out),
                    ).contains((#[trigger] parents@[j]) as int) by {
                    if j < mid.len() {
                        assert(parents@[j] == mid[j]);
                        assert(ir_refs(ir_view(lo)).contains(parents@[j] as int));
                    } else {
                        assert(ir_refs(ir_view(ro)).contains(parents@[j] as int));
                    }
                }
            }
            Ok(out)
        },
        IRNode::UnOp(r, op) => {
            let ro = match resolve_ir(r, nodes, parents, Ghost(nfns)) {
                Ok(o) => o,
                Err(e) => {
                    return Err(e);
                },
            };
            let out = IRNode::UnOp(Box::new(ro), *op);
            proof {
                assert(ir_refs(ir_view(out)) =~= ir_refs(ir_view(ro)));
            }
            Ok(out)
        },
    }
}

/// Every call handle of the tree is a registry slot below `nfns`.
pub open spec fn calls_in_range(ir: IRV, nfns: int) -> bool
    decreases ir,
{
    match ir {
        IRV::Value(_) => true,
        IRV::Ref(_) => true,
        IRV::Call(i, _, args) => 0 <= i < nfns && calls_in_range_list(args, nfns),
        IRV::BinOp(l, r, _) => calls_in_range(*l, nfns) && calls_in_range(*r, nfns),
        IRV::UnOp(r, _) => calls_in_range(*r, nfns),
    }
}

/// Call handles of each node of a list are in range.
pub open spec fn calls_in_range_list(s: Seq<IRV>, nfns: int) -> bool
    decreases s,
{
    if s.len() == 0 {
        true
    } else {
        calls_in_range(s[0], nfns) && calls_in_range_list(s.drop_first(), nfns)
    }
}

proof fn lemma_calls_in_range_elt(s: Seq<IRV>, nfns: int, i: int)
    requires
        calls_in_range_list(s, nfns),
        0 <= i < s.len(),
    ensures
        calls_in_range(s[i], nfns),
    decreases s,
{
    if i > 0 {
        lemma_calls_in_range_elt(s.drop_first(), nfns, i - 1);
    }
}

proof fn lemma_irs_runtime_wf_all(s: Seq<IRV>, nfns: int, nnodes: int)
    requires
        forall|m: int| 0 <= m < s.len() ==> ir_runtime_wf(#[trigger] s[m], nfns, nnodes),
    ensures
        irs_runtime_wf(s, nfns, nnodes),
    decreases s,
{
    if s.len() > 0 {
        lemma_irs_runtime_wf_all(s.drop_first(), nfns, nnodes);
    }
}

proof fn lemma_irs_refs_covered(s: Seq<IRV>, parents: Seq<usize>)
    requires
        forall|m: int, t: int|
            0 <= m < s.len() && #[trigger] ir_refs(s[m]).contains(t) ==> exists|j: int|
                0 <= j < parents.len() && parents[j] == t,
    ensures
        forall|t: int|
            #[trigger] irs_refs(s).contains(t) ==> exists|j: int|
                0 <= j < parents.len() && parents[j] == t,
    decreases s,
{
    if s.len() > 0 {
        let rest = s.drop_first();
        assert forall|m: int, t: int|
            0 <= m < rest.len() && #[trigger] ir_refs(rest[m]).contains(t) implies exists|j: int|
            0 <= j < parents.len() && parents[j] == t by {
            assert(rest[m] == s[m + 1]);
            assert(ir_refs(s[m + 1]).contains(t));
        }
        lemma_irs_refs_covered(rest, parents);
        assert forall|t: int| #[trigger] irs_refs(s).contains(t) implies exists|j: int|
            0 <= j < parents.len() && parents[j] == t by {
            if ir_refs(s[0]).contains(t) {
                assert(ir_refs(s[0]).contains(t));
            } else {
                assert(irs_refs(rest).contains(t));
            }
        }
    }
}

/// The slot of the first formula with the given name, if any.
#[verifier::loop_isolation(false)]
fn find_node(nodes: &Vec<Formula>, name: &String) -> (r: Option<usize>)
    ensures
        (match r {
            Some(j) => j < nodes@.len() && nodes@[j as int].name@ == name@ && (forall|i: int|
                0 <= i < j ==> nodes@[i].name@ != name@),
            None => forall|i: int| 0 <= i < nodes@.len() ==> nodes@[i].name@ != name@,
        }),
{
    let n = nodes.len();
    let mut i: usize = 0;
    while i < n
        invariant
            i <= n,
            forall|j: int| 0 <= j < i ==> nodes@[j].name@ != name@,
        decreases n - i,
    {
        if nodes[i].name == *name {
            return Some(i);
        }
        i = i + 1;
    }
    None
}

fn is_plain_value(ir: &IRNode) -> (r: bool)
    ensures
        r == (ir_view(*ir) is Value),
{
    match ir {
        IRNode::Value(_) => true,
        _ => false,
    }
}


/// The parent lists of all formulas.
pub open spec fn parents_view(nodes: Seq<Formula>) -> Seq<Seq<usize>> {
    nodes.map_values(|f: Formula| f.parents@)
}

/// The child entries slot `p` gains from the first `j` parent entries of
/// formula `me`: one entry per occurrence of `p`, in order.
pub open spec fn row_entries(row: Seq<usize>, p: int, me: usize, j: int) -> Seq<usize>
    decreases j,
{
    if j <= 0 {
        Seq::empty()
    } else {
        row_entries(row, p, me, j - 1) + (if row[j - 1] == p {
            seq![me]
        } else {
            Seq::empty()
        })
    }
}

/// The child entries slot `p` gains from formulas `[0, i)`: formula `i2`
/// appears once per occurrence of `p` in its parent list.
pub open spec fn child_entries(pars: Seq<Seq<usize>>, p: int, i: int) -> Seq<usize>
    decreases i,
{
    if i <= 0 {
        Seq::empty()
    } else {
        child_entries(pars, p, i - 1) + row_entries(
            pars[i - 1],
            p,
            (i - 1) as usize,
            pars[i - 1].len() as int,
        )
    }
}

/// Appends each formula to the child list of every formula it depends on:
/// afterwards, formula `i` stands in `p`'s child list exactly as often as
/// `p` stands in `i`'s parent list — the reverse-edge mirror, stated as
/// the exact sequence each child list becomes.
#[verifier::loop_isolation(false)]
fn link_children(nodes: &mut Vec<Formula>)
    requires
        forall|i: int, j: int|
            0 <= i < old(nodes)@.len() && 0 <= j < old(nodes)@[i].parents@.len() ==> (#[trigger] old(nodes)@[i].parents@[j]) < old(nodes)@.len(),
        forall|i: int, j: int|
            0 <= i < old(nodes)@.len() && 0 <= j < old(nodes)@[i].children@.len()
                ==> (#[trigger] old(nodes)@[i].children@[j]) < old(nodes)@.len(),
    ensures
        final(nodes)@.len() == old(nodes)@.len(),
        forall|i: int|
            0 <= i < old(nodes)@.len() ==> (#[trigger] final(nodes)@[i]).name@ == old(nodes)@[i].name@ && final(nodes)@[i].ir == old(nodes)@[i].ir && final(nodes)@[i].parents@
                == old(nodes)@[i].parents@ && final(nodes)@[i].result == old(nodes)@[i].result,
        forall|p: int|
            0 <= p < old(nodes)@.len() ==> (#[trigger] final(nodes)@[p].children@) == old(nodes)@[p].children@ + child_entries(
                parents_view(old(nodes)@),
                p,
                old(nodes)@.len() as int,
            ),
        forall|i: int, j: int|
            0 <= i < final(nodes)@.len() && 0 <= j < final(nodes)@[i].children@.len()
                ==> (#[trigger] final(nodes)@[i].children@[j]) < final(nodes)@.len(),
{
    let ghost pv = parents_view(old(nodes)@);
    let n = nodes.len();
    let mut i: usize = 0;
    while i < n
        invariant
            i <= n,
            n == nodes@.len(),
            forall|i2: int|
                0 <= i2 < n ==> (#[trigger] nodes@[i2]).name@ == old(nodes)@[i2].name@
                    && nodes@[i2].ir == old(nodes)@[i2].ir && nodes@[i2].parents@ == old(nodes)@[i2].parents@ && nodes@[i2].result == old(nodes)@[i2].result,
            forall|p: int|
                0 <= p < n ==> (#[trigger] nodes@[p].children@) == old(nodes)@[p].children@
                    + child_entries(pv, p, i as int),
            forall|i2: int, j: int|
                0 <= i2 < n && 0 <= j < nodes@[i2].children@.len() ==> (#[trigger] nodes@[i2]
                    .children@[j]) < n,
        decreases n - i,
    {
        let m = nodes[i].parents.len();
        let mut j: usize = 0;
        while j < m
            invariant
                j <= m,
                i < n,
                n == nodes@.len(),
                m == nodes@[i as int].parents@.len(),
                forall|i2: int|
                    0 <= i2 < n ==> (#[trigger] nodes@[i2]).name@ == old(nodes)@[i2].name@
                        && nodes@[i2].ir == old(nodes)@[i2].ir && nodes@[i2].parents@ == old(nodes)@[i2].parents@ && nodes@[i2].result == old(nodes)@[i2].result,
                forall|p: int|
                    0 <= p < n ==> (#[trigger] nodes@[p].children@) == old(nodes)@[p].children@
                        + child_entries(pv, p, i as int) + row_entries(
                        pv[i as int],
                        p,
                        i,
                        j as int,
                    ),
                forall|i2: int, j2: int|
                    0 <= i2 < n && 0 <= j2 < nodes@[i2].children@.len() ==> (#[trigger] nodes@[i2]
                        .children@[j2]) < n,
            decreases m - j,
        {
            let p = nodes[i].parents[j];
            let ghost pre = nodes@;
            nodes[p].children.push(i);
            j = j + 1;
            proof {
                assert(pv[i as int][j - 1] == p);
                assert forall|p2: int|
                    0 <= p2 < n implies (#[trigger] nodes@[p2].children@) == old(nodes)@[p2].children@ + child_entries(pv, p2, i as int) + row_entries(
                    pv[i as int],
                    p2,
                    i,
                    j as int,
                ) by {
                    if p2 == p as int {
                        assert(nodes@[p2].children@ =~= pre[p2].children@ + seq![i]);
                        assert(row_entries(pv[i as int], p2, i, j as int) =~= row_entries(
                            pv[i as int],
                            p2,
                            i,
                            j - 1,
                        ) + seq![i]);
                        assert(nodes@[p2].children@ =~= old(nodes)@[p2].children@
                            + child_entries(pv, p2, i as int) + row_entries(
                            pv[i as int],
                            p2,
                            i,
                            j as int,
                        ));
                    } else {
                        assert(nodes@[p2].children@ == pre[p2].children@);
                        assert(row_entries(pv[i as int], p2, i, j as int) =~= row_entries(
                            pv[i as int],
                            p2,
                            i,
                            j - 1,
                        ));
                    }
                }
            }
        }
        i = i + 1;
        proof {
            assert forall|p2: int|
                0 <= p2 < n implies (#[trigger] nodes@[p2].children@) == old(nodes)@[p2].children@
                + child_entries(pv, p2, i as int) by {
                assert(child_entries(pv, p2, i as int) =~= child_entries(pv, p2, i - 1)
                    + row_entries(pv[i - 1], p2, (i - 1) as usize, pv[i - 1].len() as int));
            }
        }
    }
}

/// Orders the slots so that every formula comes after all of its parents,
/// by repeated sweeps that take every formula whose parents are all
/// placed. When no sweep makes progress the leftover formulas close a
/// cycle, and one unplaceable edge is reported.
#[verifier::loop_isolation(false)]
#[verifier::rlimit(100)]
fn topo_order(nodes: &Vec<Formula>) -> (r: Result<(Vec<usize>, Vec<usize>), (usize, usize)>)
    requires
        forall|i: int, j: int|
            0 <= i < nodes@.len() && 0 <= j < nodes@[i].parents@.len() ==> (#[trigger] nodes@[i]
                .parents@[j]) < nodes@.len(),
    ensures
        (match r {
            Ok((order, pos)) => {
                let n = nodes@.len() as int;
                &&& order@.len() == n
                &&& pos@.len() == n
                &&& (forall|k: int| 0 <= k < n ==> (#[trigger] order@[k]) < n)
                &&& (forall|i: int|
                    0 <= i < n ==> (#[trigger] pos@[i]) < n && order@[pos@[i] as int] == i)
                &&& (forall|k: int| 0 <= k < n ==> pos@[#[trigger] order@[k] as int] == k)
                &&& (forall|k: int, j: int|
                    0 <= k < n && 0 <= j < nodes@[order@[k] as int].parents@.len()
                        ==> (pos@[#[trigger] nodes@[order@[k] as int].parents@[j] as int] as int)
                        < k)
            },
            Err((p, u)) => p < nodes@.len() && u < nodes@.len() && (exists|s: Set<int>|
                trapped(parents_view(nodes@), s) && s.contains(p as int) && s.contains(u as int)),
        }),
{
    let n = nodes.len();
    let mut processed: Vec<bool> = Vec::new();
    let mut pos: Vec<usize> = Vec::new();
    let mut order: Vec<usize> = Vec::new();
    let mut i0: usize = 0;
    while i0 < n
        invariant
            i0 <= n,
            processed@.len() == i0,
            pos@.len() == i0,
            forall|i: int| 0 <= i < i0 ==> !(#[trigger] processed@[i]),
        decreases n - i0,
    {
        processed.push(false);
        pos.push(0);
        i0 = i0 + 1;
    }
    while order.len() < n
        invariant
            processed@.len() == n,
            pos@.len() == n,
            n == nodes@.len(),
            order@.len() <= n,
            forall|k: int| 0 <= k < order@.len() ==> (#[trigger] order@[k]) < n,
            forall|k: int|
                0 <= k < order@.len() ==> processed@[#[trigger] order@[k] as int] && pos@[order@[k]
                    as int] == k,
            forall|i: int|
                0 <= i < n && #[trigger] processed@[i] ==> (pos@[i] as int) < order@.len()
                    && order@[pos@[i] as int] == i,
            forall|k: int, j: int|
                0 <= k < order@.len() && 0 <= j < nodes@[order@[k] as int].parents@.len()
                    ==> processed@[#[trigger] nodes@[order@[k] as int].parents@[j] as int] && (
                pos@[nodes@[order@[k] as int].parents@[j] as int] as int) < k,
        decreases n - order.len(),
    {
        let found = sweep_place(nodes, &mut processed, &mut pos, &mut order);
        if !found {
            let pu = find_cycle_edge(nodes, &processed, Ghost(order@), Ghost(pos@));
            proof {
                let stuck = Set::new(|m: int| 0 <= m < n && !processed@[m]);
                assert forall|m: int| stuck.contains(m) implies 0 <= m < parents_view(
                    nodes@,
                ).len() && exists|j: int|
                    0 <= j < parents_view(nodes@)[m].len() && stuck.contains(
                        #[trigger] parents_view(nodes@)[m][j] as int,
                    ) by {
                    assert(parents_view(nodes@)[m] == nodes@[m].parents@);
                    let j = choose|j: int|
                        0 <= j < nodes@[m].parents@.len() && !processed@[nodes@[m].parents@[j]
                            as int];
                    assert(parents_view(nodes@)[m][j] == nodes@[m].parents@[j]);
                    assert(stuck.contains(parents_view(nodes@)[m][j] as int));
                }
                assert(trapped(parents_view(nodes@), stuck));
                assert(stuck.contains(pu.0 as int) && stuck.contains(pu.1 as int));
            }
            return Err(pu);
        }
    }
    proof {
        assert forall|i: int| 0 <= i < n implies (#[trigger] pos@[i] as int) < n
            && order@[pos@[i] as int] == i by {
            if !processed@[i] {
                lemma_processed_count_partial(processed@, order@, pos@, n as int, i);
            }
        }
    }
    Ok((order, pos))
}

/// After a sweep that placed nothing, some formula is unplaced and waits
/// on an unplaced parent: finds one such edge.
#[verifier::loop_isolation(false)]
fn find_cycle_edge(
    nodes: &Vec<Formula>,
    processed: &Vec<bool>,
    Ghost(order): Ghost<Seq<usize>>,
    Ghost(pos): Ghost<Seq<usize>>,
) -> (r: (usize, usize))
    requires
        processed@.len() == nodes@.len(),
        pos.len() == nodes@.len(),
        order.len() < nodes@.len(),
        forall|i: int, j: int|
            0 <= i < nodes@.len() && 0 <= j < nodes@[i].parents@.len() ==> (#[trigger] nodes@[i]
                .parents@[j]) < nodes@.len(),
        forall|i2: int|
            0 <= i2 < nodes@.len() && #[trigger] processed@[i2] ==> (pos[i2] as int) < order.len()
                && order[pos[i2] as int] == i2,
        forall|i2: int|
            0 <= i2 < nodes@.len() && !(#[trigger] processed@[i2]) ==> exists|j: int|
                0 <= j < nodes@[i2].parents@.len() && !processed@[nodes@[i2].parents@[j] as int],
    ensures
        r.0 < nodes@.len(),
        r.1 < nodes@.len(),
        !processed@[r.0 as int],
        !processed@[r.1 as int],
{
    let n = nodes.len();
    let mut u: usize = 0;
    while u < n
        invariant
            u <= n,
            forall|u2: int| 0 <= u2 < u ==> #[trigger] processed@[u2],
        decreases n - u,
    {
        if !processed[u] {
            let m = nodes[u].parents.len();
            let mut j: usize = 0;
            while j < m
                invariant
                    j <= m,
                    u < n,
                    m == nodes@[u as int].parents@.len(),
                    forall|j2: int|
                        0 <= j2 < j ==> processed@[(#[trigger] nodes@[u as int].parents@[j2]) as int],
                decreases m - j,
            {
                let p = nodes[u].parents[j];
                if !processed[p] {
                    return (p, u);
                }
                j = j + 1;
            }
            // all parents of u are placed, yet the sweep could not place
            // u: impossible
            proof {
                assert(false);
            }
        }
        u = u + 1;
    }
    // every formula is placed, yet fewer than n are: impossible
    proof {
        lemma_processed_count(processed@, order, pos, n as int);
        assert(false);
    }
    (0, 0)
}

/// If every slot is placed, the order holds at least `n` entries.
proof fn lemma_processed_count(processed: Seq<bool>, order: Seq<usize>, pos: Seq<usize>, n: int)
    requires
        processed.len() == n,
        pos.len() == n,
        forall|i: int|
            0 <= i < n && #[trigger] processed[i] ==> (pos[i] as int) < order.len() && order[pos[i]
                as int] == i,
        forall|i: int| 0 <= i < n ==> #[trigger] processed[i],
    ensures
        order.len() >= n,
{
    let f = |i: int| pos[i] as int;
    let values = Set::new(|v: int| 0 <= v < order.len());
    assert forall|i: int| 0 <= i < n implies values.contains(#[trigger] f(i)) by {
        assert(processed[i]);
        assert((pos[i] as int) < order.len());
    }
    assert forall|k1: int, k2: int|
        0 <= k1 < n && 0 <= k2 < n && k1 != k2 implies #[trigger] f(k1) != #[trigger] f(k2) by {
        if f(k1) == f(k2) {
            assert(processed[k1]);
            assert(processed[k2]);
            assert(order[pos[k1] as int] == k1);
            assert(order[pos[k2] as int] == k2);
        }
    }
    assert(values.finite() && values.len() == order.len()) by {
        vstd::set_lib::lemma_int_range(0, order.len() as int);
        assert(values =~= vstd::set_lib::set_int_range(0, order.len() as int));
    }
    lemma_injective_map_ge(f, values, n);
}

/// An order whose slots are all placed and distinct avoids no slot, so if
/// one slot is unplaced the order is short of `n`.
proof fn lemma_processed_count_partial(
    processed: Seq<bool>,
    order: Seq<usize>,
    pos: Seq<usize>,
    n: int,
    iw: int,
)
    requires
        processed.len() == n,
        pos.len() == n,
        0 <= iw < n,
        !processed[iw],
        forall|k: int| 0 <= k < order.len() ==> (#[trigger] order[k]) < n,
        forall|k: int|
            0 <= k < order.len() ==> processed[#[trigger] order[k] as int] && pos[order[k] as int]
                == k,
    ensures
        order.len() < n,
{
    if order.len() < n {
        return ;
    }
    let f = |k: int| order[k] as int;
    let values = Set::new(|v: int| 0 <= v < n).remove(iw);
    assert forall|k: int| 0 <= k < n implies values.contains(#[trigger] f(k)) by {
        assert(processed[order[k] as int]);
    }
    assert forall|k1: int, k2: int|
        0 <= k1 < n && 0 <= k2 < n && k1 != k2 implies #[trigger] f(k1) != #[trigger] f(k2) by {
        if f(k1) == f(k2) {
            assert(pos[order[k1] as int] == k1);
            assert(pos[order[k2] as int] == k2);
        }
    }
    assert(Set::new(|v: int| 0 <= v < n).finite() && Set::new(|v: int| 0 <= v < n).len() == n) by {
        vstd::set_lib::lemma_int_range(0, n);
        assert(Set::new(|v: int| 0 <= v < n) =~= vstd::set_lib::set_int_range(0, n));
    }
    assert(values.finite() && values.len() == n - 1);
    lemma_injective_map_ge(f, values, n);
}

/// An injective map of `n` positions lands on at least `n` values.
proof fn lemma_injective_map_ge(f: spec_fn(int) -> int, values: Set<int>, n: int)
    requires
        n >= 0,
        forall|k: int| 0 <= k < n ==> values.contains(#[trigger] f(k)),
        forall|k1: int, k2: int|
            0 <= k1 < n && 0 <= k2 < n && k1 != k2 ==> #[trigger] f(k1) != #[trigger] f(k2),
        values.finite(),
    ensures
        values.len() >= n,
    decreases n,
{
    if n > 0 {
        let values2 = values.remove(f(n - 1));
        assert forall|k: int| 0 <= k < n - 1 implies values2.contains(#[trigger] f(k)) by {
            assert(f(k) != f(n - 1));
        }
        lemma_injective_map_ge(f, values2, n - 1);
        assert(values2.len() == values.len() - 1);
    }
}


/// How one tree changes under the sharing pass: every stateful call is
/// replaced by an unresolved reference named by the call's fingerprint
/// (behind the reserved prefix), so two formulas holding identical
/// stateful calls come to refer to one shared formula; calls of the other
/// purity classes are left as they stand.
pub open spec fn cse_map(ir: IRV, names: Seq<Seq<char>>) -> IRV
    decreases ir,
{
    match ir {
        IRV::Value(_) => ir,
        IRV::Ref(_) => ir,
        IRV::Call(i, p, args) => if p is Stateful {
            IRV::Ref(LinkV { name: mangled(fp_ir(ir, names)), target: None })
        } else {
            ir
        },
        IRV::BinOp(l, r, op) => IRV::BinOp(
            Box::new(cse_map(*l, names)),
            Box::new(cse_map(*r, names)),
            op,
        ),
        IRV::UnOp(r, op) => IRV::UnOp(Box::new(cse_map(*r, names)), op),
    }
}

/// Rewrites one tree for sharing, exactly as `cse_map` describes, while
/// keeping the arena in step: the first time a fingerprint is seen, a
/// formula named by it is appended, holding that call (with its own
/// arguments rewritten); later occurrences find the formula already there.
#[verifier::loop_isolation(false)]
fn cse_rewrite(
    ir: &IRNode,
    nodes: &mut Vec<Formula>,
    fnames: &Vec<String>,
    Ghost(fs): Ghost<Seq<FnMeta>>,
) -> (r: IRNode)
    requires
        wf_lowered(ir_view(*ir), fs),
    ensures
        ir_view(r) == cse_map(ir_view(*ir), names_view(fnames@)),
        arena_view(final(nodes)@) == cse_collect(
            ir_view(*ir),
            names_view(fnames@),
            arena_view(old(nodes)@),
        ),
        wf_lowered(ir_view(r), fs),
        final(nodes)@.len() >= old(nodes)@.len(),
        forall|j: int|
            0 <= j < old(nodes)@.len() ==> #[trigger] final(nodes)@[j] == old(nodes)@[j],
        forall|j: int|
            old(nodes)@.len() <= j < final(nodes)@.len() ==> (#[trigger] final(nodes)@[j]).parents@
                =~= Seq::<usize>::empty() && final(nodes)@[j].children@ =~= Seq::<usize>::empty()
                && final(nodes)@[j].result is None && wf_lowered(
                ir_view(final(nodes)@[j].ir),
                fs,
            ) && (ir_view(final(nodes)@[j].ir) matches IRV::Call(_, _, _)),
        (forall|i1: int, i2: int|
            0 <= i1 < i2 < old(nodes)@.len() ==> old(nodes)@[i1].name@ != old(nodes)@[i2].name@) ==> (forall|i1: int, i2: int|
            0 <= i1 < i2 < final(nodes)@.len() ==> final(nodes)@[i1].name@ != final(nodes)@[i2].name@),
    decreases *ir,
{
    match ir {
        IRNode::Value(_) => ir.clone(),
        IRNode::Ref(_) => ir.clone(),
        IRNode::Call(i, p, args) => {
            let stateful = match p {
                CallableType::Stateful => true,
                _ => false,
            };
            if !stateful {
                ir.clone()
            } else {
                let name = mangled_name(ir, fnames);
                let n = args.len();
                let mut out_args: Vec<IRNode> = Vec::new();
                let mut k: usize = 0;
                proof {
                    lemma_irs_view(args@);
                }
                while k < n
                    invariant
                        k <= n,
                        n == args@.len(),
                        out_args@.len() == k,
                        nodes@.len() >= old(nodes)@.len(),
                        forall|j: int|
                            0 <= j < old(nodes)@.len() ==> #[trigger] nodes@[j] == old(nodes)@[j],
                        forall|j: int|
                            old(nodes)@.len() <= j < nodes@.len() ==> (#[trigger] nodes@[j])
                                .parents@ =~= Seq::<usize>::empty() && nodes@[j].children@
                                =~= Seq::<usize>::empty() && nodes@[j].result is None
                                && wf_lowered(ir_view(nodes@[j].ir), fs) && (ir_view(
                                nodes@[j].ir,
                            ) matches IRV::Call(_, _, _)),
                        (forall|i1: int, i2: int|
                            0 <= i1 < i2 < old(nodes)@.len() ==> old(nodes)@[i1].name@ != old(nodes)@[i2].name@) ==> (forall|i1: int, i2: int|
                            0 <= i1 < i2 < nodes@.len() ==> nodes@[i1].name@ != nodes@[i2].name@),
                        forall|m: int|
                            0 <= m < k ==> wf_lowered(#[trigger] ir_view(out_args@[m]), fs),
                        forall|m: int|
                            0 <= m < k ==> #[trigger] ir_view(out_args@[m]) == cse_map(
                                irs_view(args@)[m],
                                names_view(fnames@),
                            ),
                        arena_view(nodes@) == cse_collect_list(
                            irs_view(args@).subrange(0, k as int),
                            names_view(fnames@),
                            arena_view(old(nodes)@),
                        ),
                    decreases n - k,
                {
                    proof {
                        lemma_wf_lowered_elt(irs_view(args@), fs, k as int);
                    }
                    let a = cse_rewrite(&args[k], nodes, fnames, Ghost(fs));
                    out_args.push(a);
                    k = k + 1;
                    proof {
                        let pref = irs_view(args@).subrange(0, k as int);
                        lemma_cse_collect_list_snoc(
                            pref,
                            names_view(fnames@),
                            arena_view(old(nodes)@),
                        );
                        assert(pref.drop_last() =~= irs_view(args@).subrange(0, k - 1));
                        assert(pref.last() == ir_view(args@[k - 1]));
                    }
                }
                proof {
                    assert(irs_view(args@).subrange(0, n as int) =~= irs_view(args@));
                    lemma_irs_view(out_args@);
                    assert forall|m: int|
                        0 <= m < n implies cse_map(irs_view(args@)[m], names_view(fnames@))
                        == #[trigger] irs_view(out_args@)[m] by {
                        assert(irs_view(out_args@)[m] == ir_view(out_args@[m]));
                    }
                    lemma_cse_map_list(
                        irs_view(args@),
                        names_view(fnames@),
                        irs_view(out_args@),
                    );
                }
                let ghost nv1 = arena_view(nodes@);
                match find_node(nodes, &name) {
                    Some(u) => {
                        proof {
                            assert(nv1[u as int].0 == name@);
                            lemma_find_name_at(nv1, name@, u as int);
                        }
                    },
                    None => {
                        proof {
                            lemma_find_name_none(nv1, name@);
                            lemma_wf_lowered_all(irs_view(out_args@), fs);
                        }
                        let hoisted = Formula {
                            name: name.clone(),
                            ir: IRNode::Call(*i, *p, out_args),
                            parents: Vec::new(),
                            children: Vec::new(),
                            result: None,
                        };
                        proof {
                            assert(wf_lowered(ir_view(hoisted.ir), fs)) by {
                                assert(ir_view(hoisted.ir) matches IRV::Call(ii, pp, aa) && aa
                                    == irs_view(hoisted.ir.arrow_Call_2()@));
                                assert(irs_view(hoisted.ir.arrow_Call_2()@) == irs_view(
                                    out_args@,
                                ));
                            }
                        }
                        let ghost hv = ir_view(hoisted.ir);
                        nodes.push(hoisted);
                        proof {
                            assert(arena_view(nodes@) =~= nv1.push((name@, hv)));
                        }
                    },
                }
                let link = FormulaLink { name, target: None };
                IRNode::Ref(link)
            }
        },
        IRNode::BinOp(l, r, op) => {
            let lo = cse_rewrite(l, nodes, fnames, Ghost(fs));
            let ro = cse_rewrite(r, nodes, fnames, Ghost(fs));
            let out = IRNode::BinOp(Box::new(lo), Box::new(ro), *op);
            proof {
                assert(wf_lowered(ir_view(out), fs)) by {
                    lemma_cse_map_not_value(ir_view(**l), names_view(fnames@));
                    lemma_cse_map_not_value(ir_view(**r), names_view(fnames@));
                }
            }
            out
        },
        IRNode::UnOp(r, op) => {
            let ro = cse_rewrite(r, nodes, fnames, Ghost(fs));
            let out = IRNode::UnOp(Box::new(ro), *op);
            proof {
                assert(wf_lowered(ir_view(out), fs)) by {
                    lemma_cse_map_not_value(ir_view(**r), names_view(fnames@));
                }
            }
            out
        },
    }
}

/// The sharing pass never turns a non-value into a value, nor a value
/// into anything else.
proof fn lemma_cse_map_not_value(ir: IRV, names: Seq<Seq<char>>)
    ensures
        (cse_map(ir, names) is Value) == (ir is Value),
        ir is Value ==> cse_map(ir, names) == ir,
{
}

proof fn lemma_wf_lowered_elt(s: Seq<IRV>, fs: Seq<FnMeta>, i: int)
    requires
        wf_lowered_list(s, fs),
        0 <= i < s.len(),
    ensures
        wf_lowered(s[i], fs),
    decreases s,
{
    if i > 0 {
        lemma_wf_lowered_elt(s.drop_first(), fs, i - 1);
    }
}

proof fn lemma_wf_lowered_all(s: Seq<IRV>, fs: Seq<FnMeta>)
    requires
        forall|m: int| 0 <= m < s.len() ==> wf_lowered(#[trigger] s[m], fs),
    ensures
        wf_lowered_list(s, fs),
    decreases s,
{
    if s.len() > 0 {
        lemma_wf_lowered_all(s.drop_first(), fs);
    }
}

/// What a whole tree folds to at build time, before any tick has run: a
/// plain value folds to itself, operations fold over numeric operands,
/// and a reference or call site stops the fold.
pub open spec fn fold_pure(ir: IRV) -> Option<TypeV>
    decreases ir,
{
    match ir {
        IRV::Value(v) => Some(v),
        IRV::Ref(_) => None,
        IRV::Call(_, _, _) => None,
        IRV::BinOp(l, r, op) => match (fold_pure(*l), fold_pure(*r)) {
            (Some(TypeV::Number(a)), Some(TypeV::Number(b))) => match op.spec_eval(a, b) {
                Some(v) => Some(TypeV::Number(v)),
                None => None,
            },
            _ => None,
        },
        IRV::UnOp(r, op) => match fold_pure(*r) {
            Some(TypeV::Number(a)) => Some(TypeV::Number(op.spec_unary_eval(a))),
            _ => None,
        },
    }
}

/// What the folding pass leaves of a tree: the folded value, or the tree
/// itself when it does not fold whole.
pub open spec fn apply_fold(ir: IRV) -> IRV {
    match fold_pure(ir) {
        Some(v) => IRV::Value(v),
        None => ir,
    }
}

/// Folding is idempotent: a second pass over an already folded tree
/// changes nothing. (This covers trees without call sites; a tree holding
/// a call folds only through the host, whose behavior is its own.)
pub proof fn lemma_fold_idempotent(ir: IRV)
    ensures
        apply_fold(apply_fold(ir)) == apply_fold(ir),
{
}

/// Tries to fold one tree to a value: references and stateful calls stop
/// the fold; a pure or build-time call folds through the host when all
/// its arguments fold. On a call-free tree the outcome is exactly
/// `fold_pure`; a successful fold means the tree referred to no formula.
#[verifier::loop_isolation(false)]
fn fold_value<C: Callable>(ir: &IRNode, ctx: &mut Context<C>, Ghost(nn): Ghost<int>) -> (r:
    Option<Type>)
    requires
        ir_runtime_wf(ir_view(*ir), old(ctx).fns_m().len() as int, nn),
    ensures
        final(ctx).fns_m() == old(ctx).fns_m(),
        final(ctx).consts_m() == old(ctx).consts_m(),
        call_free(ir_view(*ir)) ==> opt_type_view(r) == fold_pure(ir_view(*ir)),
        ir_calls_stateful(ir_view(*ir)) && !call_free(ir_view(*ir)) ==> r is None,
        r is Some ==> ir_refs(ir_view(*ir)) == Set::<int>::empty(),
    decreases *ir,
{
    match ir {
        IRNode::Value(t) => {
            proof {
                assert(ir_refs(ir_view(*ir)) =~= Set::<int>::empty());
            }
            Some(t.clone())
        },
        IRNode::Ref(_) => None,
        IRNode::Call(i, p, args) => {
            let stateful = match p {
                CallableType::Stateful => true,
                _ => false,
            };
            if stateful {
                return None;
            }
            let n = args.len();
            let mut vals: Vec<Type> = Vec::new();
            let mut k: usize = 0;
            proof {
                lemma_irs_view(args@);
            }
            while k < n
                invariant
                    k <= n,
                    n == args@.len(),
                    ctx.fns_m() == old(ctx).fns_m(),
                    ctx.consts_m() == old(ctx).consts_m(),
                    forall|m: int|
                        0 <= m < k ==> ir_refs(#[trigger] ir_view(args@[m])) == Set::<int>::empty(),
                decreases n - k,
            {
                proof {
                    lemma_irs_runtime_wf_elt(
                        irs_view(args@),
                        old(ctx).fns_m().len() as int,
                        nn,
                        k as int,
                    );
                }
                match fold_value(&args[k], ctx, Ghost(nn)) {
                    Some(v) => {
                        vals.push(v);
                    },
                    None => {
                        return None;
                    },
                }
                k = k + 1;
            }
            proof {
                assert(ctx.ns_fn@.len() == ctx.fns_m().len());
            }
            let out = ctx.call_fn(*i, &vals);
            proof {
                if out is Some {
                    lemma_irs_refs_empty(irs_view(args@));
                    assert(ir_refs(ir_view(*ir)) =~= Set::<int>::empty());
                }
            }
            out
        },
        IRNode::BinOp(l, r, op) => {
            let lv = match fold_value(l, ctx, Ghost(nn)) {
                Some(t) => t,
                None => {
                    return None;
                },
            };
            let rv = match fold_value(r, ctx, Ghost(nn)) {
                Some(t) => t,
                None => {
                    return None;
                },
            };
            proof {
                assert(ir_refs(ir_view(*ir)) =~= Set::<int>::empty());
            }
            match (lv.as_number(), rv.as_number()) {
                (Some(a), Some(b)) => match op.eval(a, b) {
                    Some(v) => Some(Type::Number(v)),
                    None => None,
                },
                _ => None,
            }
        },
        IRNode::UnOp(r, op) => {
            let rv = match fold_value(r, ctx, Ghost(nn)) {
                Some(t) => t,
                None => {
                    return None;
                },
            };
            proof {
                assert(ir_refs(ir_view(*ir)) =~= Set::<int>::empty());
            }
            match rv.as_number() {
                Some(a) => Some(Type::Number(op.unary_eval(a))),
                None => None,
            }
        },
    }
}

proof fn lemma_irs_refs_empty(s: Seq<IRV>)
    requires
        forall|m: int| 0 <= m < s.len() ==> ir_refs(#[trigger] s[m]) == Set::<int>::empty(),
    ensures
        irs_refs(s) == Set::<int>::empty(),
    decreases s,
{
    if s.len() > 0 {
        lemma_irs_refs_empty(s.drop_first());
        assert(irs_refs(s) =~= Set::<int>::empty());
    } else {
        assert(irs_refs(s) =~= Set::<int>::empty());
    }
}

/// Walks a tree and hands every stateful call site its one build-time
/// `init`, with its lowered arguments (non-value arguments appear as
/// `Nil`) and a view of the registered constants.
#[verifier::loop_isolation(false)]
fn init_calls<C: Callable>(ir: &IRNode, ctx: &mut Context<C>, Ghost(nn): Ghost<int>)
    requires
        ir_runtime_wf(ir_view(*ir), old(ctx).fns_m().len() as int, nn),
    ensures
        final(ctx).fns_m() == old(ctx).fns_m(),
        final(ctx).consts_m() == old(ctx).consts_m(),
    decreases *ir,
{
    match ir {
        IRNode::Value(_) => {},
        IRNode::Ref(_) => {},
        IRNode::Call(i, p, args) => {
            let n = args.len();
            let mut k: usize = 0;
            proof {
                lemma_irs_view(args@);
            }
            while k < n
                invariant
                    k <= n,
                    n == args@.len(),
                    ctx.fns_m() == old(ctx).fns_m(),
                    ctx.consts_m() == old(ctx).consts_m(),
                decreases n - k,
            {
                proof {
                    lemma_irs_runtime_wf_elt(
                        irs_view(args@),
                        old(ctx).fns_m().len() as int,
                        nn,
                        k as int,
                    );
                }
                init_calls(&args[k], ctx, Ghost(nn));
                k = k + 1;
            }
            let stateful = match p {
                CallableType::Stateful => true,
                _ => false,
            };
            if stateful {
                let mut vals: Vec<Type> = Vec::new();
                let mut k2: usize = 0;
                while k2 < n
                    invariant
                        k2 <= n,
                        n == args@.len(),
                    decreases n - k2,
                {
                    match &args[k2] {
                        IRNode::Value(t) => {
                            vals.push(t.clone());
                        },
                        _ => {
                            vals.push(Type::Nil);
                        },
                    }
                    k2 = k2 + 1;
                }
                proof {
                    assert(ctx.ns_fn@.len() == ctx.fns_m().len());
                }
                ctx.init_fn(*i, &vals);
            }
        },
        IRNode::BinOp(l, r, _) => {
            init_calls(l, ctx, Ghost(nn));
            init_calls(r, ctx, Ghost(nn));
        },
        IRNode::UnOp(r, _) => {
            init_calls(r, ctx, Ghost(nn));
        },
    }
}


/// The lowered shape keeps every call handle inside the registry.
proof fn lemma_wf_lowered_calls_in_range(ir: IRV, fs: Seq<FnMeta>)
    requires
        wf_lowered(ir, fs),
    ensures
        calls_in_range(ir, fs.len() as int),
    decreases ir,
{
    match ir {
        IRV::Value(_) => {},
        IRV::Ref(_) => {},
        IRV::Call(i, p, args) => {
            lemma_wf_list_calls_in_range(args, fs);
        },
        IRV::BinOp(l, r, _) => {
            lemma_wf_lowered_calls_in_range(*l, fs);
            lemma_wf_lowered_calls_in_range(*r, fs);
        },
        IRV::UnOp(r, _) => {
            lemma_wf_lowered_calls_in_range(*r, fs);
        },
    }
}

proof fn lemma_wf_list_calls_in_range(s: Seq<IRV>, fs: Seq<FnMeta>)
    requires
        wf_lowered_list(s, fs),
    ensures
        calls_in_range_list(s, fs.len() as int),
    decreases s,
{
    if s.len() > 0 {
        lemma_wf_lowered_calls_in_range(s[0], fs);
        lemma_wf_list_calls_in_range(s.drop_first(), fs);
    }
}

impl<C: Callable> Interpreter<C> {
    /// Builds the interpreter: each formula source is parsed and lowered
    /// against the context; identical stateful calls are hoisted into
    /// shared formulas; references are resolved (one to an already-plain
    /// value is inlined); the graph is ordered with every formula after
    /// its parents, or the cycle is reported; whole-tree constants are
    /// folded; and every stateful call site receives its `init`. A
    /// formula registered under an already-used name replaces the earlier
    /// one. The first error of any stage aborts the build.
    #[verifier::loop_isolation(false)]
    #[verifier::rlimit(100)]
    pub fn new(formulas: &Vec<(String, String)>, context: Context<C>) -> (r: Result<
        Interpreter<C>,
        Error,
    >)
        ensures
            (match r {
                Ok(it) => it.wf() && (forall|p: int|
                    0 <= p < it.n() ==> (#[trigger] it.nodes@[p].children@) == child_entries(
                        parents_view(it.nodes@),
                        p,
                        it.n(),
                    )) && it.root_nodes@ == roots_of(it.nodes@, it.n())
                    && it.root_nodes@.len() >= 1 && (forall|i: int, j: int|
                    0 <= i < it.n() && 0 <= j < it.nodes@[i].parents@.len() ==> ir_refs(
                        ir_view(it.nodes@[i].ir),
                    ).contains((#[trigger] it.nodes@[i].parents@[j]) as int)),
                Err(Error::Parse(pe)) => exists|jw: int|
                    0 <= jw < formulas@.len() && spec_parse_source(
                        (#[trigger] formulas@[jw]).1@,
                    ) == Err::<ExprV, ParseError>(pe) && (forall|j2: int|
                        0 <= j2 < jw ==> spec_parse_source((#[trigger] formulas@[j2]).1@) is Ok),
                Err(_) => true,
            }),
            (forall|j: int|
                0 <= j < formulas@.len() ==> spec_parse_source(
                    (#[trigger] formulas@[j]).1@,
                ) is Ok) ==> !(r matches Err(Error::Parse(_))),
            (r matches Err(Error::Graph(GraphError::EmptyRootSet))) <==> formulas@.len() == 0,
            builds_cleanly(context.fns_m(), context.consts_m(), formulas@) ==> (r matches Ok(it)
                && arena_view(it.nodes@) == fold_arena(
                resolved_arena(context.fns_m(), context.consts_m(), formulas@),
            )),
            (front_builds(context.fns_m(), context.consts_m(), formulas@) && (r matches Err(
                Error::Graph(GraphError::CyclicReference { from, to }),
            ))) ==> exists|s: Set<int>, m: int|
                trapped_refs(
                    resolved_arena(context.fns_m(), context.consts_m(), formulas@),
                    s,
                ) && s.contains(m),
            (formulas@.len() >= 1 && inputs_lower_cleanly(
                context.fns_m(),
                context.consts_m(),
                formulas@,
            )) ==> (r matches Err(Error::Bind(be)) ==> resolve_pass(
                shared_arena(context.fns_m(), context.consts_m(), formulas@),
                shared_arena(context.fns_m(), context.consts_m(), formulas@).len() as int,
            ) == Err::<Seq<(Seq<char>, IRV)>, BindErrorV>(bind_error_view(be))),
    {
        let ghost fs0 = context.fns_m();
        let ghost cs0 = context.consts_m();
        let ghost clean = builds_cleanly(fs0, cs0, formulas@);
        let ghost lowdown = formulas@.len() >= 1 && inputs_lower_cleanly(fs0, cs0, formulas@);
        let ghost semi = front_builds(fs0, cs0, formulas@);

        let mut ctx = context;
        let nf = formulas.len();
        let mut nodes: Vec<Formula> = match build_formulas(formulas, &mut ctx) {
            Ok(ns) => ns,
            Err(e) => {
                proof {
                    assert(!(e matches Error::Graph(GraphError::EmptyRootSet)));
                    assert(nf >= 1);
                    if lowdown {
                        assert(inputs_lower_cleanly(fs0, cs0, formulas@));
                        assert(false);
                    }
                }
                return Err(e);
            },
        };
        let ghost built_nv = arena_view(nodes@);
        // hoist shared stateful calls
        let base = nodes.len();
        proof {
            assert((base >= 1) == (nf >= 1));
        }
        share_calls(&mut nodes, &ctx, base, Ghost(fs0));
        proof {
            if lowdown {
                assert(built_nv == built_arena(fs0, cs0, formulas@, nf as int));
                assert(arena_view(nodes@) == cse_pass(
                    built_arena(fs0, cs0, formulas@, nf as int),
                    registry_names(fs0),
                    built_arena(fs0, cs0, formulas@, nf as int).len() as int,
                ));
            }
        }
        // fold single-use hoisted formulas back into their one user
        proof {
            assert forall|i2: int|
                0 <= i2 < nodes@.len() implies (#[trigger] nodes@[i2].children@).len() == 0 by {
                assert(nodes@[i2].parents@.len() == 0);
            }
            assert forall|i2: int|
                0 <= i2 < nodes@.len() implies (#[trigger] nodes@[i2].result) is None by {
                assert(nodes@[i2].parents@.len() == 0);
            }
        }
        let ghost pre_inline = arena_view(nodes@);
        let ghost pre_inline_len = nodes@.len() as int;
        inline_single_use(&mut nodes, base, Ghost(fs0));
        proof {
            if lowdown {
                assert(arena_view(nodes@) == inline_pass(
                    pre_inline,
                    base as int,
                    pre_inline_len,
                ));
                assert(arena_view(nodes@) == shared_arena(fs0, cs0, formulas@));
            }
            if nf == 0 {
                assert(pre_inline_len == 0);
                assert(pre_inline =~= Seq::<(Seq<char>, IRV)>::empty());
                assert(inline_pass(pre_inline, base as int, pre_inline_len) == pre_inline);
                assert(arena_view(nodes@).len() == 0);
                assert(nodes@.len() == 0);
            }
        }
        // resolve references and record dependencies
        let n1 = nodes.len();
        proof {
            assert forall|i2: int|
                0 <= i2 < nodes@.len() implies (#[trigger] nodes@[i2].children@).len() == 0
                && nodes@[i2].result is None && nodes@[i2].parents@.len() == 0 by {
                assert(nodes@[i2].parents@.len() == 0);
            }
        }
        let ghost pre_resolve = arena_view(nodes@);
        match resolve_all(&mut nodes, Ghost(fs0)) {
            Err(e) => {
                proof {
                    assert(n1 >= 1);
                    assert(nf >= 1);
                    if lowdown {
                        assert(resolve_pass(pre_resolve, n1 as int) == Err::<
                            Seq<(Seq<char>, IRV)>,
                            BindErrorV,
                        >(bind_error_view(e)));
                        assert(pre_resolve == shared_arena(fs0, cs0, formulas@));
                        assert(n1 as int == shared_arena(fs0, cs0, formulas@).len());
                        if semi {
                            assert(false);
                        }
                    }
                }
                return Err(Error::Bind(e));
            },
            Ok(()) => {
                proof {
                    if semi {
                        assert(resolve_pass(pre_resolve, n1 as int) == Ok::<
                            Seq<(Seq<char>, IRV)>,
                            BindErrorV,
                        >(arena_view(nodes@)));
                        assert(pre_resolve == shared_arena(fs0, cs0, formulas@));
                        assert(n1 as int == shared_arena(fs0, cs0, formulas@).len());
                        assert(arena_view(nodes@) == resolved_arena(fs0, cs0, formulas@));
                    } else if lowdown {
                        assert(resolve_pass(pre_resolve, n1 as int) == Ok::<
                            Seq<(Seq<char>, IRV)>,
                            BindErrorV,
                        >(arena_view(nodes@)));
                        assert(pre_resolve == shared_arena(fs0, cs0, formulas@));
                        assert(n1 as int == shared_arena(fs0, cs0, formulas@).len());
                        assert(false);
                    }
                }
            },
        }
        let ghost entry_nv = arena_view(nodes@);
        let r = finish_build(nodes, ctx, Ghost(fs0));
        proof {
            if semi {
                assert(entry_nv == resolved_arena(fs0, cs0, formulas@));
            }
            if clean {
                assert(n1 >= 1) by {
                    assert(nf >= 1);
                    assert(base >= 1);
                }
                assert forall|sw: Set<int>, m: int|
                    trapped_refs(entry_nv, sw) implies !(#[trigger] sw.contains(m)) by {
                    assert(trapped_refs(resolved_arena(fs0, cs0, formulas@), sw)
                        ==> !sw.contains(m));
                }
                assert(r is Ok);
                let it = r->Ok_0;
                assert forall|p: int|
                    0 <= p < entry_nv.len() implies ir_calls_stateful(
                        #[trigger] entry_nv[p].1,
                    ) by {
                    assert(ir_calls_stateful(resolved_arena(fs0, cs0, formulas@)[p].1));
                }
                assert(arena_view(it.nodes@) == fold_arena(entry_nv));
            }

            match &r {
                Err(Error::Graph(GraphError::EmptyRootSet)) => {
                    assert(n1 == 0);
                    assert(nf == 0) by {
                        if nf >= 1 {
                            assert(base >= 1);
                        }
                    }
                },
                _ => {},
            }
            if nf == 0 {
                assert(n1 == 0);
                assert(r matches Err(Error::Graph(GraphError::EmptyRootSet)));
            }
        }
        r
    }
}


/// The tree holds no reference node.
pub open spec fn ref_free(ir: IRV) -> bool
    decreases ir,
{
    match ir {
        IRV::Value(_) => true,
        IRV::Ref(_) => false,
        IRV::Call(_, _, args) => refs_free_list(args),
        IRV::BinOp(l, r, _) => ref_free(*l) && ref_free(*r),
        IRV::UnOp(r, _) => ref_free(*r),
    }
}

/// No node of the list holds a reference.
pub open spec fn refs_free_list(s: Seq<IRV>) -> bool
    decreases s,
{
    if s.len() == 0 {
        true
    } else {
        ref_free(s[0]) && refs_free_list(s.drop_first())
    }
}

/// Every constant of the tree is a number.
pub open spec fn numeric_values(ir: IRV) -> bool
    decreases ir,
{
    match ir {
        IRV::Value(v) => v is Number,
        IRV::Ref(_) => true,
        IRV::Call(_, _, args) => numeric_values_list(args),
        IRV::BinOp(l, r, _) => numeric_values(*l) && numeric_values(*r),
        IRV::UnOp(r, _) => numeric_values(*r),
    }
}

/// Every constant of each node of the list is a number.
pub open spec fn numeric_values_list(s: Seq<IRV>) -> bool
    decreases s,
{
    if s.len() == 0 {
        true
    } else {
        numeric_values(s[0]) && numeric_values_list(s.drop_first())
    }
}

/// No operation of the tree is a power or factorial.
pub open spec fn elementary_ops(ir: IRV) -> bool
    decreases ir,
{
    match ir {
        IRV::Value(_) => true,
        IRV::Ref(_) => true,
        IRV::Call(_, _, args) => elementary_ops_list(args),
        IRV::BinOp(l, r, op) => op != Operation::Power && op != Operation::Factorial
            && elementary_ops(*l) && elementary_ops(*r),
        IRV::UnOp(r, _) => elementary_ops(*r),
    }
}

/// No operation of any node of the list is a power or factorial.
pub open spec fn elementary_ops_list(s: Seq<IRV>) -> bool
    decreases s,
{
    if s.len() == 0 {
        true
    } else {
        elementary_ops(s[0]) && elementary_ops_list(s.drop_first())
    }
}

/// Lowering folds constants completely: a lowered tree holding no call, no
/// reference, no non-numeric constant, and none of the two partial
/// operations (power and factorial) is already a single value. (A string
/// constant under an operator, or a power with a non-integral exponent,
/// legitimately survives lowering unfolded.)
pub proof fn lemma_lowered_constant_folds(ir: IRV, fs: Seq<FnMeta>)
    requires
        wf_lowered(ir, fs),
        call_free(ir),
        ref_free(ir),
        numeric_values(ir),
        elementary_ops(ir),
    ensures
        ir is Value,
    decreases ir,
{
    match ir {
        IRV::Value(_) => {},
        IRV::Ref(_) => {},
        IRV::Call(_, _, _) => {},
        IRV::BinOp(l, r, op) => {
            lemma_lowered_constant_folds(*l, fs);
            lemma_lowered_constant_folds(*r, fs);
            assert(*l is Value && *r is Value);
            assert(false);
        },
        IRV::UnOp(r, _) => {
            lemma_lowered_constant_folds(*r, fs);
            assert(false);
        },
    }
}

/// The sharing pass sends any two stateful calls with the same fingerprint
/// — wherever they stand, in whichever formulas — to references bearing the
/// same hoisted name; since a built graph holds at most one formula per
/// name, both call sites come to share one formula.
pub proof fn lemma_cse_shares_fingerprint(c1: IRV, c2: IRV, names: Seq<Seq<char>>)
    requires
        c1 matches IRV::Call(_, CallableType::Stateful, _),
        c2 matches IRV::Call(_, CallableType::Stateful, _),
        fp_ir(c1, names) == fp_ir(c2, names),
    ensures
        cse_map(c1, names) matches IRV::Ref(l1) && cse_map(c2, names) matches IRV::Ref(l2)
            && l1.name == l2.name,
{
}

/// Along any chain of dependencies (each step from a formula to one of its
/// parents), the evaluation order strictly descends; so no chain of
/// references returns to its start, and an input whose references close a
/// cycle can never build a well-formed interpreter.
pub proof fn lemma_parents_paths_descend<C>(it: &Interpreter<C>, path: Seq<int>)
    requires
        it.wf(),
        path.len() >= 2,
        forall|k: int| 0 <= k < path.len() ==> 0 <= #[trigger] path[k] < it.n(),
        forall|k: int|
            0 <= k < path.len() - 1 ==> exists|j: int|
                0 <= j < it.nodes@[#[trigger] path[k]].parents@.len() && it.nodes@[path[k]]
                    .parents@[j] == path[k + 1],
    ensures
        (it.order_pos@[path[path.len() - 1]] as int) < (it.order_pos@[path[0]] as int),
    decreases path.len(),
{
    let a = path[0];
    let b = path[1];
    let j = choose|j: int|
        0 <= j < it.nodes@[a].parents@.len() && it.nodes@[a].parents@[j] == b;
    let k = it.order_pos@[a] as int;
    assert(it.order@[k] == a);
    assert((it.order_pos@[it.nodes@[it.order@[k] as int].parents@[j] as int] as int) < k);
    if path.len() == 2 {
    } else {
        let rest = path.drop_first();
        assert forall|k2: int|
            0 <= k2 < rest.len() - 1 implies exists|j2: int|
                0 <= j2 < it.nodes@[#[trigger] rest[k2]].parents@.len() && it.nodes@[rest[k2]]
                    .parents@[j2] == rest[k2 + 1] by {
            assert(rest[k2] == path[k2 + 1]);
            assert(rest[k2 + 1] == path[k2 + 2]);
        }
        lemma_parents_paths_descend(it, rest);
        assert(rest[rest.len() - 1] == path[path.len() - 1]);
    }
}


/// An amount capped at two: past the second occurrence nothing changes.
pub open spec fn cap2(x: int) -> int {
    if x >= 2 {
        2
    } else {
        x
    }
}

/// How many references to the given name a tree holds, counted up to two:
/// anything past the second occurrence makes no difference to sharing.
#[verifier::loop_isolation(false)]
fn count_refs_capped(ir: &IRNode, name: &String, cap_in: usize) -> (c: usize)
    requires
        cap_in <= 2,
    ensures
        cap_in <= c <= 2,
        c as int == cap2(cap_in + ir_ref_count(ir_view(*ir), name@)),
    decreases *ir,
{
    if cap_in == 2 {
        return 2;
    }
    match ir {
        IRNode::Value(_) => cap_in,
        IRNode::Ref(l) => {
            if string_eq_exec(&l.name, name) {
                if cap_in == 0 {
                    1
                } else {
                    2
                }
            } else {
                cap_in
            }
        },
        IRNode::Call(_, _, args) => {
            let n = args.len();
            let mut c = cap_in;
            let mut k: usize = 0;
            proof {
                lemma_irs_view(args@);
                assert(irs_view(args@).subrange(0, 0) =~= Seq::<IRV>::empty());
            }
            while k < n
                invariant
                    k <= n,
                    n == args@.len(),
                    cap_in <= c <= 2,
                    c as int == cap2(
                        cap_in + irs_ref_count(irs_view(args@).subrange(0, k as int), name@),
                    ),
                decreases n - k,
            {
                c = count_refs_capped(&args[k], name, c);
                k = k + 1;
                proof {
                    let pref = irs_view(args@).subrange(0, k as int);
                    lemma_irs_ref_count_snoc(pref, name@);
                    assert(pref.drop_last() =~= irs_view(args@).subrange(0, k - 1));
                    assert(pref.last() == ir_view(args@[k - 1]));
                }
            }
            proof {
                assert(irs_view(args@).subrange(0, n as int) =~= irs_view(args@));
            }
            c
        },
        IRNode::BinOp(l, r, _) => {
            let c1 = count_refs_capped(l, name, cap_in);
            count_refs_capped(r, name, c1)
        },
        IRNode::UnOp(r, _) => count_refs_capped(r, name, cap_in),
    }
}

fn string_eq_exec(a: &String, b: &String) -> (r: bool)
    ensures
        r == (a@ == b@),
{
    *a == *b
}

/// Replaces every reference to the given name by a copy of the given call
/// tree, which is not a plain value; the well-formed lowered shape is kept.
#[verifier::loop_isolation(false)]
fn subst_ref(ir: &IRNode, name: &String, repl: &IRNode, Ghost(fs): Ghost<Seq<FnMeta>>) -> (r:
    IRNode)
    requires
        wf_lowered(ir_view(*ir), fs),
        wf_lowered(ir_view(*repl), fs),
        ir_view(*repl) matches IRV::Call(_, _, _),
    ensures
        wf_lowered(ir_view(r), fs),
        ir_view(r) == subst_map(ir_view(*ir), name@, ir_view(*repl)),
        (ir_view(r) is Value) == (ir_view(*ir) is Value),
        ir_view(*ir) is Value ==> ir_view(r) == ir_view(*ir),
        ir_view(*ir) matches IRV::Call(_, _, _) ==> ir_view(r) matches IRV::Call(_, _, _),
    decreases *ir,
{
    match ir {
        IRNode::Value(_) => ir.clone(),
        IRNode::Ref(l) => {
            if string_eq_exec(&l.name, name) {
                repl.clone()
            } else {
                ir.clone()
            }
        },
        IRNode::Call(i, p, args) => {
            let n = args.len();
            let mut out_args: Vec<IRNode> = Vec::new();
            let mut k: usize = 0;
            proof {
                lemma_irs_view(args@);
            }
            while k < n
                invariant
                    k <= n,
                    n == args@.len(),
                    out_args@.len() == k,
                    forall|m: int|
                        0 <= m < k ==> wf_lowered(#[trigger] ir_view(out_args@[m]), fs),
                    forall|m: int|
                        0 <= m < k ==> #[trigger] ir_view(out_args@[m]) == subst_map(
                            irs_view(args@)[m],
                            name@,
                            ir_view(*repl),
                        ),
                decreases n - k,
            {
                proof {
                    lemma_wf_lowered_elt(irs_view(args@), fs, k as int);
                }
                let a = subst_ref(&args[k], name, repl, Ghost(fs));
                out_args.push(a);
                k = k + 1;
            }
            let out = IRNode::Call(*i, *p, out_args);
            proof {
                lemma_irs_view(out.arrow_Call_2()@);
                lemma_wf_lowered_all(irs_view(out.arrow_Call_2()@), fs);
                assert(ir_view(out) matches IRV::Call(ii, pp, aa) && aa == irs_view(
                    out.arrow_Call_2()@,
                ));
                assert(irs_view(out.arrow_Call_2()@).len() == irs_view(args@).len());
                lemma_subst_list(
                    irs_view(args@),
                    name@,
                    ir_view(*repl),
                    irs_view(out.arrow_Call_2()@),
                );
            }
            out
        },
        IRNode::BinOp(l, r2, op) => {
            let lo = subst_ref(l, name, repl, Ghost(fs));
            let ro = subst_ref(r2, name, repl, Ghost(fs));
            IRNode::BinOp(Box::new(lo), Box::new(ro), *op)
        },
        IRNode::UnOp(r2, op) => {
            let ro = subst_ref(r2, name, repl, Ghost(fs));
            IRNode::UnOp(Box::new(ro), *op)
        },
    }
}

/// Undoes needless sharing, exactly as `inline_pass` describes: walking
/// the hoisted formulas from the last appended down, one whose name has
/// exactly one reference left is substituted into the one formula holding
/// that reference and dropped from the arena; shared ones stay.
#[verifier::loop_isolation(false)]
#[verifier::rlimit(80)]
fn inline_single_use(nodes: &mut Vec<Formula>, base: usize, Ghost(fs): Ghost<Seq<FnMeta>>)
    requires
        base <= old(nodes)@.len(),
        forall|i: int|
            0 <= i < old(nodes)@.len() ==> wf_lowered(
                ir_view(#[trigger] old(nodes)@[i].ir),
                fs,
            ),
        forall|i: int|
            0 <= i < old(nodes)@.len() ==> (#[trigger] old(nodes)@[i].parents@).len() == 0,
        forall|i: int|
            0 <= i < old(nodes)@.len() ==> (#[trigger] old(nodes)@[i].children@).len() == 0,
        forall|i: int|
            0 <= i < old(nodes)@.len() ==> (#[trigger] old(nodes)@[i].result) is None,
        forall|i1: int, i2: int|
            0 <= i1 < i2 < old(nodes)@.len() ==> old(nodes)@[i1].name@ != old(nodes)@[i2].name@,
        forall|i: int|
            base <= i < old(nodes)@.len() ==> ir_view(#[trigger] old(nodes)@[i].ir) matches
                IRV::Call(_, _, _),
    ensures
        arena_view(final(nodes)@) == inline_pass(
            arena_view(old(nodes)@),
            base as int,
            old(nodes)@.len() as int,
        ),
        base <= final(nodes)@.len() <= old(nodes)@.len(),
        forall|i: int|
            0 <= i < final(nodes)@.len() ==> wf_lowered(
                ir_view(#[trigger] final(nodes)@[i].ir),
                fs,
            ),
        forall|i: int|
            0 <= i < final(nodes)@.len() ==> (#[trigger] final(nodes)@[i].parents@).len() == 0,
        forall|i: int|
            0 <= i < final(nodes)@.len() ==> (#[trigger] final(nodes)@[i].children@).len() == 0,
        forall|i: int|
            0 <= i < final(nodes)@.len() ==> (#[trigger] final(nodes)@[i].result) is None,
        forall|i1: int, i2: int|
            0 <= i1 < i2 < final(nodes)@.len() ==> final(nodes)@[i1].name@ != final(nodes)@[i2].name@,
{
    let ghost orig = arena_view(old(nodes)@);
    let ghost nn = old(nodes)@.len() as int;
    let mut h = nodes.len();
    while h > base
        invariant
            base <= h <= nodes@.len(),
            nodes@.len() <= old(nodes)@.len(),
            inline_pass(orig, base as int, nn) == inline_pass(
                arena_view(nodes@),
                base as int,
                h as int,
            ),
            forall|i: int|
                0 <= i < nodes@.len() ==> wf_lowered(ir_view(#[trigger] nodes@[i].ir), fs),
            forall|i: int|
                0 <= i < nodes@.len() ==> (#[trigger] nodes@[i].parents@).len() == 0,
            forall|i: int|
                0 <= i < nodes@.len() ==> (#[trigger] nodes@[i].children@).len() == 0,
            forall|i: int|
                0 <= i < nodes@.len() ==> (#[trigger] nodes@[i].result) is None,
            forall|i1: int, i2: int|
                0 <= i1 < i2 < nodes@.len() ==> nodes@[i1].name@ != nodes@[i2].name@,
            forall|i: int|
                base <= i < nodes@.len() ==> ir_view(#[trigger] nodes@[i].ir) matches IRV::Call(
                    _,
                    _,
                    _,
                ),
        decreases h,
    {
        h = h - 1;
        let ghost nv = arena_view(nodes@);
        proof {
            assert(forall|i2: int|
                0 <= i2 < nodes@.len() ==> (#[trigger] nv[i2]) == (
                nodes@[i2].name@,
                ir_view(nodes@[i2].ir),
            ));
        }
        let name = nodes[h].name.clone();
        let n = nodes.len();
        let mut c: usize = 0;
        let mut i: usize = 0;
        proof {
            assert(nv.subrange(0, 0) =~= Seq::<(Seq<char>, IRV)>::empty());
        }
        while i < n
            invariant
                i <= n,
                n == nodes@.len(),
                c <= 2,
                name@ == nv[h as int].0,
                c as int == cap2(arena_ref_count(nv.subrange(0, i as int), name@) as int),
            decreases n - i,
        {
            c = count_refs_capped(&nodes[i].ir, &name, c);
            i = i + 1;
            proof {
                let pref = nv.subrange(0, i as int);
                lemma_arena_ref_count_snoc(pref, name@);
                assert(pref.drop_last() =~= nv.subrange(0, i - 1));
                assert(pref.last() == nv[i - 1]);
                assert(nv[i - 1].1 == ir_view(nodes@[i - 1].ir));
            }
        }
        proof {
            assert(nv.subrange(0, n as int) =~= nv);
        }
        if c == 1 {
            proof {
                assert(arena_ref_count(nv, name@) == 1);
            }
            let repl = nodes[h].ir.clone();
            let mut found: bool = false;
            let ghost mut uw: int = 0;
            let mut u: usize = 0;
            while u < n
                invariant
                    u <= n,
                    n == nodes@.len(),
                    h < n,
                    base <= h,
                    name@ == nv[h as int].0,
                    ir_view(repl) == nv[h as int].1,
                    ir_view(repl) matches IRV::Call(_, _, _),
                    wf_lowered(ir_view(repl), fs),
                    !found ==> nodes@.len() == n && arena_view(nodes@) == nv,
                    !found ==> forall|m: int|
                        0 <= m < u ==> ir_ref_count((#[trigger] nv[m]).1, name@) == 0,
                    found ==> first_mention(nv, name@) == Some(uw) && 0 <= uw < n
                        && arena_view(nodes@) == nv.update(
                        uw,
                        (nv[uw].0, subst_map(nv[uw].1, name@, nv[h as int].1)),
                    ),
                    forall|i2: int|
                        0 <= i2 < nodes@.len() ==> wf_lowered(
                            ir_view(#[trigger] nodes@[i2].ir),
                            fs,
                        ),
                    forall|i2: int|
                        0 <= i2 < nodes@.len() ==> (#[trigger] nodes@[i2].parents@).len() == 0,
                    forall|i2: int|
                        0 <= i2 < nodes@.len() ==> (#[trigger] nodes@[i2].children@).len() == 0,
                    forall|i2: int|
                        0 <= i2 < nodes@.len() ==> (#[trigger] nodes@[i2].result) is None,
                    forall|i1: int, i2: int|
                        0 <= i1 < i2 < nodes@.len() ==> nodes@[i1].name@ != nodes@[i2].name@,
                    forall|i2: int|
                        base <= i2 < nodes@.len() ==> ir_view(#[trigger] nodes@[i2].ir) matches
                            IRV::Call(_, _, _),
                decreases n - u,
            {
                if found {
                    u = n;
                } else {
                    let mentions = count_refs_capped(&nodes[u].ir, &name, 0);
                    if mentions >= 1 {
                        proof {
                            assert(ir_ref_count(nv[u as int].1, name@) >= 1);
                            lemma_first_mention_at(nv, name@, u as int);
                        }
                        let ghost pre = nodes@;
                        let ir = nodes[u].ir.clone();
                        let out = subst_ref(&ir, &name, &repl, Ghost(fs));
                        nodes[u].ir = out;
                        found = true;
                        proof {
                            uw = u as int;
                            assert forall|i2: int|
                                0 <= i2 < nodes@.len() implies wf_lowered(
                                    ir_view(#[trigger] nodes@[i2].ir),
                                    fs,
                                ) by {
                                if i2 != u as int {
                                    assert(nodes@[i2] == pre[i2]);
                                }
                            }
                            assert forall|i2: int|
                                0 <= i2 < nodes@.len() implies (#[trigger] nodes@[i2].parents@)
                                .len() == 0 by {
                                if i2 != u as int {
                                    assert(nodes@[i2] == pre[i2]);
                                } else {
                                    assert(nodes@[i2].parents@ == pre[i2].parents@);
                                }
                            }
                            assert forall|i2: int|
                                0 <= i2 < nodes@.len() implies (#[trigger] nodes@[i2].children@)
                                .len() == 0 by {
                                if i2 != u as int {
                                    assert(nodes@[i2] == pre[i2]);
                                } else {
                                    assert(nodes@[i2].children@ == pre[i2].children@);
                                }
                            }
                            assert forall|i2: int|
                                0 <= i2 < nodes@.len() implies (#[trigger] nodes@[i2].result)
                                is None by {
                                if i2 != u as int {
                                    assert(nodes@[i2] == pre[i2]);
                                } else {
                                    assert(nodes@[i2].result == pre[i2].result);
                                }
                            }
                            assert forall|i1: int, i2: int|
                                0 <= i1 < i2 < nodes@.len() implies nodes@[i1].name@ != nodes@[i2]
                                .name@ by {
                                assert(nodes@[i1].name@ == pre[i1].name@);
                                assert(nodes@[i2].name@ == pre[i2].name@);
                            }
                            assert forall|i2: int|
                                base <= i2 < nodes@.len() implies ir_view(
                                    #[trigger] nodes@[i2].ir,
                                ) matches IRV::Call(_, _, _) by {
                                if i2 != u as int {
                                    assert(nodes@[i2] == pre[i2]);
                                } else {
                                    assert(ir_view(pre[i2].ir) matches IRV::Call(_, _, _));
                                }
                            }
                            assert(arena_view(nodes@) =~= nv.update(
                                uw,
                                (nv[uw].0, subst_map(nv[uw].1, name@, nv[h as int].1)),
                            ));
                        }
                        u = n;
                    } else {
                        u = u + 1;
                    }
                }
            }
            if !found {
                proof {
                    lemma_no_mention_no_count(nv, name@);
                    assert(false);
                }
            }
            let ghost mid = arena_view(nodes@);
            remove_slot(nodes, h, Ghost(fs), Ghost(base as int));
            proof {
                assert(arena_view(nodes@) == mid.remove(h as int));
                assert(inline_step(nv, h as int) == mid.remove(h as int));
                assert(inline_pass(orig, base as int, nn) == inline_pass(
                    arena_view(nodes@),
                    base as int,
                    h as int,
                ));
            }
        } else {
            proof {
                assert(arena_ref_count(nv, name@) != 1);
                assert(inline_step(nv, h as int) == nv);
            }
        }
    }
}

/// Drops one hoisted formula from the arena, keeping every structural fact
/// of the build stage for the remaining formulas.
#[verifier::loop_isolation(false)]
fn remove_slot(nodes: &mut Vec<Formula>, h: usize, Ghost(fs): Ghost<Seq<FnMeta>>, Ghost(base): Ghost<int>)
    requires
        h < old(nodes)@.len(),
        base <= h,
        0 <= base,
        forall|i: int|
            0 <= i < old(nodes)@.len() ==> wf_lowered(ir_view(#[trigger] old(nodes)@[i].ir), fs),
        forall|i: int|
            0 <= i < old(nodes)@.len() ==> (#[trigger] old(nodes)@[i].parents@).len() == 0,
        forall|i: int|
            0 <= i < old(nodes)@.len() ==> (#[trigger] old(nodes)@[i].children@).len() == 0,
        forall|i: int|
            0 <= i < old(nodes)@.len() ==> (#[trigger] old(nodes)@[i].result) is None,
        forall|i1: int, i2: int|
            0 <= i1 < i2 < old(nodes)@.len() ==> old(nodes)@[i1].name@ != old(nodes)@[i2].name@,
        forall|i: int|
            base <= i < old(nodes)@.len() ==> ir_view(#[trigger] old(nodes)@[i].ir) matches
                IRV::Call(_, _, _),
    ensures
        final(nodes)@.len() == old(nodes)@.len() - 1,
        arena_view(final(nodes)@) == arena_view(old(nodes)@).remove(h as int),
        forall|i: int|
            0 <= i < final(nodes)@.len() ==> wf_lowered(
                ir_view(#[trigger] final(nodes)@[i].ir),
                fs,
            ),
        forall|i: int|
            0 <= i < final(nodes)@.len() ==> (#[trigger] final(nodes)@[i].parents@).len() == 0,
        forall|i: int|
            0 <= i < final(nodes)@.len() ==> (#[trigger] final(nodes)@[i].children@).len() == 0,
        forall|i: int|
            0 <= i < final(nodes)@.len() ==> (#[trigger] final(nodes)@[i].result) is None,
        forall|i1: int, i2: int|
            0 <= i1 < i2 < final(nodes)@.len() ==> final(nodes)@[i1].name@ != final(nodes)@[i2].name@,
        forall|i: int|
            base <= i < final(nodes)@.len() ==> ir_view(#[trigger] final(nodes)@[i].ir) matches
                IRV::Call(_, _, _),
{
    let ghost pre = nodes@;
    nodes.remove(h);
    proof {
        pre.remove_ensures(h as int);
        arena_view(pre).remove_ensures(h as int);
        assert(nodes@ == pre.remove(h as int));
        assert forall|i: int| 0 <= i < nodes@.len() implies #[trigger] nodes@[i] == (if i < h {
            pre[i]
        } else {
            pre[i + 1]
        }) by {
            if i < h as int {
                assert(pre.remove(h as int)[i] == pre[i]);
            } else {
                assert(pre.remove(h as int)[i] == pre[i + 1]);
            }
        }
        assert forall|i: int|
            0 <= i < arena_view(nodes@).len() implies #[trigger] arena_view(nodes@)[i]
            == arena_view(pre).remove(h as int)[i] by {
            if i < h as int {
                assert(arena_view(pre).remove(h as int)[i] == arena_view(pre)[i]);
                assert(nodes@[i] == pre[i]);
            } else {
                assert(arena_view(pre).remove(h as int)[i] == arena_view(pre)[i + 1]);
                assert(nodes@[i] == pre[i + 1]);
            }
        }
        assert(arena_view(nodes@) =~= arena_view(pre).remove(h as int));
    }
}


/// The names and trees of the arena's formulas, which reference
/// resolution reads.
pub open spec fn arena_view(nodes: Seq<Formula>) -> Seq<(Seq<char>, IRV)> {
    nodes.map_values(|f: Formula| (f.name@, ir_view(f.ir)))
}

/// The slot of the first formula with the given name, if any.
pub open spec fn find_name_idx(nv: Seq<(Seq<char>, IRV)>, name: Seq<char>) -> Option<int>
    decreases nv,
{
    if nv.len() == 0 {
        None
    } else if nv[0].0 == name {
        Some(0)
    } else {
        match find_name_idx(nv.drop_first(), name) {
            Some(i) => Some(i + 1),
            None => None,
        }
    }
}

proof fn lemma_find_name_at(nv: Seq<(Seq<char>, IRV)>, name: Seq<char>, i: int)
    requires
        0 <= i < nv.len(),
        forall|j: int| 0 <= j < i ==> nv[j].0 != name,
        nv[i].0 == name,
    ensures
        find_name_idx(nv, name) == Some(i),
    decreases i,
{
    if i > 0 {
        lemma_find_name_at(nv.drop_first(), name, i - 1);
    }
}

proof fn lemma_find_name_none(nv: Seq<(Seq<char>, IRV)>, name: Seq<char>)
    requires
        forall|j: int| 0 <= j < nv.len() ==> nv[j].0 != name,
    ensures
        find_name_idx(nv, name) is None,
    decreases nv,
{
    if nv.len() > 0 {
        lemma_find_name_none(nv.drop_first(), name);
    }
}

/// What resolving a tree against the arena yields: a reference to the
/// first formula of its name becomes that formula's slot — or that
/// formula's tree, when it is already a plain value; a name with no
/// formula is the error; everything else is kept, with arguments and the
/// left side read first.
pub open spec fn resolve_map(ir: IRV, nv: Seq<(Seq<char>, IRV)>) -> Result<IRV, BindErrorV>
    decreases ir,
{
    match ir {
        IRV::Value(_) => Ok(ir),
        IRV::Ref(l) => match find_name_idx(nv, l.name) {
            None => Err(BindErrorV::UnresolvedRef(l.name)),
            Some(j) => if nv[j].1 is Value {
                Ok(nv[j].1)
            } else {
                Ok(IRV::Ref(LinkV { name: l.name, target: Some(j) }))
            },
        },
        IRV::Call(i, p, args) => match resolve_map_list(args, nv) {
            Ok(out) => Ok(IRV::Call(i, p, out)),
            Err(e) => Err(e),
        },
        IRV::BinOp(l, r, op) => match resolve_map(*l, nv) {
            Ok(lo) => match resolve_map(*r, nv) {
                Ok(ro) => Ok(IRV::BinOp(Box::new(lo), Box::new(ro), op)),
                Err(e) => Err(e),
            },
            Err(e) => Err(e),
        },
        IRV::UnOp(r, op) => match resolve_map(*r, nv) {
            Ok(ro) => Ok(IRV::UnOp(Box::new(ro), op)),
            Err(e) => Err(e),
        },
    }
}

/// Resolution of an argument list, left to right, stopping at the first
/// error.
pub open spec fn resolve_map_list(s: Seq<IRV>, nv: Seq<(Seq<char>, IRV)>) -> Result<
    Seq<IRV>,
    BindErrorV,
>
    decreases s,
{
    if s.len() == 0 {
        Ok(Seq::empty())
    } else {
        match resolve_map(s[0], nv) {
            Ok(h) => match resolve_map_list(s.drop_first(), nv) {
                Ok(t) => Ok(seq![h] + t),
                Err(e) => Err(e),
            },
            Err(e) => Err(e),
        }
    }
}

proof fn lemma_resolve_list_ok(s: Seq<IRV>, nv: Seq<(Seq<char>, IRV)>, out: Seq<IRV>)
    requires
        s.len() == out.len(),
        forall|m: int| 0 <= m < s.len() ==> resolve_map(#[trigger] s[m], nv) == Ok::<
            IRV,
            BindErrorV,
        >(out[m]),
    ensures
        resolve_map_list(s, nv) == Ok::<Seq<IRV>, BindErrorV>(out),
    decreases s,
{
    if s.len() > 0 {
        lemma_resolve_list_ok(s.drop_first(), nv, out.drop_first());
        assert(seq![out[0]] + out.drop_first() =~= out);
    } else {
        assert(out =~= Seq::<IRV>::empty());
    }
}

proof fn lemma_resolve_list_err(s: Seq<IRV>, nv: Seq<(Seq<char>, IRV)>, k: int, e: BindErrorV)
    requires
        0 <= k < s.len(),
        forall|m: int| 0 <= m < k ==> resolve_map(#[trigger] s[m], nv) is Ok,
        resolve_map(s[k], nv) == Err::<IRV, BindErrorV>(e),
    ensures
        resolve_map_list(s, nv) == Err::<Seq<IRV>, BindErrorV>(e),
    decreases k,
{
    if k > 0 {
        lemma_resolve_list_err(s.drop_first(), nv, k - 1, e);
    }
}

/// What substituting a tree for a name yields: every reference bearing the
/// name becomes the replacement tree; everything else is kept.
pub open spec fn subst_map(ir: IRV, name: Seq<char>, repl: IRV) -> IRV
    decreases ir,
{
    match ir {
        IRV::Value(_) => ir,
        IRV::Ref(l) => if l.name == name {
            repl
        } else {
            ir
        },
        IRV::Call(i, p, args) => IRV::Call(i, p, subst_map_list(args, name, repl)),
        IRV::BinOp(l, r, op) => IRV::BinOp(
            Box::new(subst_map(*l, name, repl)),
            Box::new(subst_map(*r, name, repl)),
            op,
        ),
        IRV::UnOp(r, op) => IRV::UnOp(Box::new(subst_map(*r, name, repl)), op),
    }
}

/// Substitution over an argument list.
pub open spec fn subst_map_list(s: Seq<IRV>, name: Seq<char>, repl: IRV) -> Seq<IRV>
    decreases s,
{
    if s.len() == 0 {
        Seq::empty()
    } else {
        seq![subst_map(s[0], name, repl)] + subst_map_list(s.drop_first(), name, repl)
    }
}

proof fn lemma_subst_list(s: Seq<IRV>, name: Seq<char>, repl: IRV, out: Seq<IRV>)
    requires
        s.len() == out.len(),
        forall|m: int| 0 <= m < s.len() ==> subst_map(#[trigger] s[m], name, repl) == out[m],
    ensures
        subst_map_list(s, name, repl) == out,
    decreases s,
{
    if s.len() > 0 {
        lemma_subst_list(s.drop_first(), name, repl, out.drop_first());
        assert(seq![out[0]] + out.drop_first() =~= out);
    } else {
        assert(out =~= Seq::<IRV>::empty());
    }
}


/// A set of slots that traps its members: every member has a parent in
/// the set. The slots a reference cycle runs through are such a set, and
/// so are the slots left unplaceable when ordering fails.
pub open spec fn trapped(pars: Seq<Seq<usize>>, s: Set<int>) -> bool {
    forall|m: int|
        s.contains(m) ==> 0 <= m < pars.len() && exists|j: int|
            0 <= j < pars[m].len() && s.contains(#[trigger] pars[m][j] as int)
}

proof fn lemma_trapped_bound(
    pars: Seq<Seq<usize>>,
    order: Seq<usize>,
    pos: Seq<usize>,
    s: Set<int>,
    k: int,
)
    requires
        order.len() == pars.len(),
        pos.len() == pars.len(),
        forall|k2: int| 0 <= k2 < order.len() ==> (#[trigger] order[k2]) < pars.len(),
        forall|i: int|
            0 <= i < pars.len() ==> (#[trigger] pos[i]) < pars.len() && order[pos[i] as int] == i,
        forall|k2: int, j: int|
            0 <= k2 < order.len() && 0 <= j < pars[order[k2] as int].len() ==> (pos[(
            #[trigger] pars[order[k2] as int][j]) as int] as int) < k2,
        trapped(pars, s),
        k >= 0,
    ensures
        forall|m: int| s.contains(m) ==> (pos[m] as int) >= k,
    decreases k,
{
    if k > 0 {
        lemma_trapped_bound(pars, order, pos, s, k - 1);
        assert forall|m: int| s.contains(m) implies (pos[m] as int) >= k by {
            if (pos[m] as int) == k - 1 {
                let j = choose|j: int|
                    0 <= j < pars[m].len() && s.contains(#[trigger] pars[m][j] as int);
                assert(order[k - 1] == m);
                assert((pos[pars[m][j] as int] as int) < k - 1);
                assert((pos[pars[m][j] as int] as int) >= k - 1);
            }
        }
    }
}

/// A nonempty trapped set defeats every parents-first order: its
/// earliest-placed member would need a member placed before it. So a
/// well-formed interpreter's dependency graph holds no cycle.
pub proof fn lemma_trapped_defeats_order(
    pars: Seq<Seq<usize>>,
    order: Seq<usize>,
    pos: Seq<usize>,
    s: Set<int>,
)
    requires
        order.len() == pars.len(),
        pos.len() == pars.len(),
        forall|k2: int| 0 <= k2 < order.len() ==> (#[trigger] order[k2]) < pars.len(),
        forall|i: int|
            0 <= i < pars.len() ==> (#[trigger] pos[i]) < pars.len() && order[pos[i] as int] == i,
        forall|k2: int, j: int|
            0 <= k2 < order.len() && 0 <= j < pars[order[k2] as int].len() ==> (pos[(
            #[trigger] pars[order[k2] as int][j]) as int] as int) < k2,
        trapped(pars, s),
    ensures
        s =~= Set::<int>::empty(),
{
    lemma_trapped_bound(pars, order, pos, s, pars.len() as int);
    assert forall|m: int| !(#[trigger] s.contains(m)) by {
        if s.contains(m) {
            assert((pos[m] as int) >= pars.len());
            assert((pos[m] as int) < pars.len());
        }
    }
}

/// In a built interpreter no set of formulas is trapped: every chain of
/// dependencies bottoms out, so the reference graph is acyclic.
pub proof fn lemma_wf_graph_acyclic<C>(it: &Interpreter<C>, s: Set<int>)
    requires
        it.wf(),
        trapped(parents_view(it.nodes@), s),
    ensures
        s =~= Set::<int>::empty(),
{
    let pars = parents_view(it.nodes@);
    assert forall|k2: int, j: int|
        0 <= k2 < it.order@.len() && 0 <= j < pars[it.order@[k2] as int].len() implies (
        it.order_pos@[(#[trigger] pars[it.order@[k2] as int][j]) as int] as int) < k2 by {
        assert(pars[it.order@[k2] as int] == it.nodes@[it.order@[k2] as int].parents@);
    }
    lemma_trapped_defeats_order(pars, it.order@, it.order_pos@, s);
}


/// How many references to the name a tree holds.
pub open spec fn ir_ref_count(ir: IRV, name: Seq<char>) -> nat
    decreases ir,
{
    match ir {
        IRV::Value(_) => 0,
        IRV::Ref(l) => if l.name == name {
            1
        } else {
            0
        },
        IRV::Call(_, _, args) => irs_ref_count(args, name),
        IRV::BinOp(l, r, _) => ir_ref_count(*l, name) + ir_ref_count(*r, name),
        IRV::UnOp(r, _) => ir_ref_count(*r, name),
    }
}

/// References to the name across an argument list.
pub open spec fn irs_ref_count(s: Seq<IRV>, name: Seq<char>) -> nat
    decreases s,
{
    if s.len() == 0 {
        0
    } else {
        ir_ref_count(s[0], name) + irs_ref_count(s.drop_first(), name)
    }
}

proof fn lemma_irs_ref_count_snoc(s: Seq<IRV>, name: Seq<char>)
    requires
        s.len() > 0,
    ensures
        irs_ref_count(s, name) == irs_ref_count(s.drop_last(), name) + ir_ref_count(
            s.last(),
            name,
        ),
    decreases s,
{
    if s.len() > 1 {
        lemma_irs_ref_count_snoc(s.drop_first(), name);
        assert(s.drop_first().drop_last() =~= s.drop_last().drop_first());
        assert(s.drop_first().last() == s.last());
        assert(s.drop_last()[0] == s[0]);
        assert(irs_ref_count(s, name) == ir_ref_count(s[0], name) + irs_ref_count(
            s.drop_first(),
            name,
        ));
        assert(irs_ref_count(s.drop_last(), name) == ir_ref_count(s.drop_last()[0], name)
            + irs_ref_count(s.drop_last().drop_first(), name));
    } else {
        assert(s.drop_last() =~= Seq::<IRV>::empty());
        assert(irs_ref_count(s, name) == ir_ref_count(s[0], name) + irs_ref_count(
            s.drop_first(),
            name,
        ));
        assert(s.drop_first() =~= Seq::<IRV>::empty());
    }
}

/// References to the name across the whole arena's trees.
pub open spec fn arena_ref_count(nv: Seq<(Seq<char>, IRV)>, name: Seq<char>) -> nat
    decreases nv,
{
    if nv.len() == 0 {
        0
    } else {
        ir_ref_count(nv[0].1, name) + arena_ref_count(nv.drop_first(), name)
    }
}

proof fn lemma_arena_ref_count_snoc(nv: Seq<(Seq<char>, IRV)>, name: Seq<char>)
    requires
        nv.len() > 0,
    ensures
        arena_ref_count(nv, name) == arena_ref_count(nv.drop_last(), name) + ir_ref_count(
            nv.last().1,
            name,
        ),
    decreases nv,
{
    if nv.len() > 1 {
        lemma_arena_ref_count_snoc(nv.drop_first(), name);
        assert(nv.drop_first().drop_last() =~= nv.drop_last().drop_first());
        assert(nv.drop_first().last() == nv.last());
        assert(nv.drop_last()[0] == nv[0]);
        assert(arena_ref_count(nv, name) == ir_ref_count(nv[0].1, name) + arena_ref_count(
            nv.drop_first(),
            name,
        ));
        assert(arena_ref_count(nv.drop_last(), name) == ir_ref_count(nv.drop_last()[0].1, name)
            + arena_ref_count(nv.drop_last().drop_first(), name));
    } else {
        assert(nv.drop_last() =~= Seq::<(Seq<char>, IRV)>::empty());
        assert(arena_ref_count(nv, name) == ir_ref_count(nv[0].1, name) + arena_ref_count(
            nv.drop_first(),
            name,
        ));
        assert(nv.drop_first() =~= Seq::<(Seq<char>, IRV)>::empty());
    }
}

/// The first formula whose tree refers to the name, if any.
pub open spec fn first_mention(nv: Seq<(Seq<char>, IRV)>, name: Seq<char>) -> Option<int>
    decreases nv,
{
    if nv.len() == 0 {
        None
    } else if ir_ref_count(nv[0].1, name) >= 1 {
        Some(0)
    } else {
        match first_mention(nv.drop_first(), name) {
            Some(i) => Some(i + 1),
            None => None,
        }
    }
}

proof fn lemma_first_mention_at(nv: Seq<(Seq<char>, IRV)>, name: Seq<char>, u: int)
    requires
        0 <= u < nv.len(),
        forall|m: int| 0 <= m < u ==> ir_ref_count((#[trigger] nv[m]).1, name) == 0,
        ir_ref_count(nv[u].1, name) >= 1,
    ensures
        first_mention(nv, name) == Some(u),
    decreases u,
{
    if u > 0 {
        lemma_first_mention_at(nv.drop_first(), name, u - 1);
    }
}

proof fn lemma_no_mention_no_count(nv: Seq<(Seq<char>, IRV)>, name: Seq<char>)
    requires
        forall|m: int| 0 <= m < nv.len() ==> ir_ref_count((#[trigger] nv[m]).1, name) == 0,
    ensures
        arena_ref_count(nv, name) == 0,
    decreases nv,
{
    if nv.len() > 0 {
        lemma_no_mention_no_count(nv.drop_first(), name);
    }
}

/// One downward step of the inlining pass over the arena's names and
/// trees: when exactly one reference to `nv[h]`'s name exists, it is
/// substituted away in the one formula holding it and slot `h` is
/// dropped; otherwise nothing changes.
pub open spec fn inline_step(nv: Seq<(Seq<char>, IRV)>, h: int) -> Seq<(Seq<char>, IRV)> {
    let name = nv[h].0;
    if arena_ref_count(nv, name) == 1 {
        match first_mention(nv, name) {
            Some(u) => nv.update(u, (nv[u].0, subst_map(nv[u].1, name, nv[h].1))).remove(h),
            None => nv,
        }
    } else {
        nv
    }
}

/// The whole inlining pass: the step applied to each hoisted slot, from
/// the last appended down to `base`.
pub open spec fn inline_pass(nv: Seq<(Seq<char>, IRV)>, base: int, h: int) -> Seq<
    (Seq<char>, IRV),
>
    decreases h - base,
{
    if h <= base {
        nv
    } else {
        inline_pass(inline_step(nv, h - 1), base, h - 1)
    }
}


/// Parses and lowers every input formula, in order, replacing an earlier
/// formula when a name repeats. The first failure aborts: a parse error
/// surfaces exactly as the parser reports it for the first offending
/// source; the arena is nonempty exactly when the input is.
#[verifier::loop_isolation(false)]
fn build_formulas<C: Callable>(formulas: &Vec<(String, String)>, ctx: &mut Context<C>) -> (r:
    Result<Vec<Formula>, Error>)
    ensures
        final(ctx).fns_m() == old(ctx).fns_m(),
        final(ctx).consts_m() == old(ctx).consts_m(),
        (match r {
            Ok(ns) => {
                &&& (forall|i: int|
                    0 <= i < ns@.len() ==> wf_lowered(
                        ir_view(#[trigger] ns@[i].ir),
                        old(ctx).fns_m(),
                    ))
                &&& (forall|i: int| 0 <= i < ns@.len() ==> (#[trigger] ns@[i].parents@).len() == 0)
                &&& (forall|i: int| 0 <= i < ns@.len() ==> (#[trigger] ns@[i].children@).len() == 0)
                &&& (forall|i: int| 0 <= i < ns@.len() ==> (#[trigger] ns@[i].result) is None)
                &&& (forall|i1: int, i2: int|
                    0 <= i1 < i2 < ns@.len() ==> ns@[i1].name@ != ns@[i2].name@)
                &&& (ns@.len() >= 1 <==> formulas@.len() >= 1)
                &&& (forall|j: int|
                    0 <= j < formulas@.len() ==> spec_parse_source(
                        (#[trigger] formulas@[j]).1@,
                    ) is Ok)
            },
            Err(Error::Parse(pe)) => exists|jw: int|
                0 <= jw < formulas@.len() && spec_parse_source((#[trigger] formulas@[jw]).1@)
                    == Err::<ExprV, ParseError>(pe) && (forall|j2: int|
                    0 <= j2 < jw ==> spec_parse_source((#[trigger] formulas@[j2]).1@) is Ok),
            Err(Error::Bind(_)) => formulas@.len() >= 1,
            Err(Error::Graph(_)) => false,
        }),
        inputs_lower_cleanly(old(ctx).fns_m(), old(ctx).consts_m(), formulas@) ==> r is Ok
            && (match r {
            Ok(ns) => arena_view(ns@) == built_arena(
                old(ctx).fns_m(),
                old(ctx).consts_m(),
                formulas@,
                formulas@.len() as int,
            ),
            Err(_) => true,
        }),
{
    let ghost fs0 = ctx.fns_m();
    let mut nodes: Vec<Formula> = Vec::new();
    let nf = formulas.len();
    let mut j: usize = 0;
    while j < nf
        invariant
            j <= nf,
            nf == formulas@.len(),
            ctx.fns_m() == fs0,
            ctx.fns_m() == old(ctx).fns_m(),
            ctx.consts_m() == old(ctx).consts_m(),
            forall|i: int|
                0 <= i < nodes@.len() ==> wf_lowered(ir_view(#[trigger] nodes@[i].ir), fs0),
            forall|i: int| 0 <= i < nodes@.len() ==> (#[trigger] nodes@[i].parents@).len() == 0,
            forall|i: int| 0 <= i < nodes@.len() ==> (#[trigger] nodes@[i].children@).len() == 0,
            forall|i: int| 0 <= i < nodes@.len() ==> (#[trigger] nodes@[i].result) is None,
            forall|i1: int, i2: int|
                0 <= i1 < i2 < nodes@.len() ==> nodes@[i1].name@ != nodes@[i2].name@,
            forall|j2: int|
                0 <= j2 < j ==> spec_parse_source((#[trigger] formulas@[j2]).1@) is Ok,
            j >= 1 ==> nodes@.len() >= 1,
            nodes@.len() >= 1 ==> j >= 1,
            inputs_lower_cleanly(fs0, old(ctx).consts_m(), formulas@) ==> arena_view(nodes@)
                == built_arena(fs0, old(ctx).consts_m(), formulas@, j as int),
        decreases nf - j,
    {
        let f = match Formula::new(formulas[j].0.as_str(), formulas[j].1.as_str(), ctx) {
            Ok(f) => f,
            Err(e) => {
                proof {
                    match &e {
                        Error::Parse(pe) => {
                            assert(spec_parse_source(formulas@[j as int].1@) == Err::<
                                ExprV,
                                ParseError,
                            >(*pe));
                        },
                        _ => {},
                    }
                    if inputs_lower_cleanly(fs0, old(ctx).consts_m(), formulas@) {
                        assert(spec_parse_source(formulas@[j as int].1@) is Ok);
                        assert(false);
                    }
                }
                return Err(e);
            },
        };
        let ghost pre = nodes@;
        let ghost prev_arena = arena_view(nodes@);
        match find_node(&nodes, &formulas[j].0) {
            Some(i) => {
                nodes[i] = f;
                proof {
                    if inputs_lower_cleanly(fs0, old(ctx).consts_m(), formulas@) {
                        assert(ir_view(f.ir) == lowered_of(
                            fs0,
                            old(ctx).consts_m(),
                            formulas@[j as int].1@,
                        ));
                        lemma_find_name_at(prev_arena, formulas@[j as int].0@, i as int);
                        assert(arena_view(nodes@) =~= prev_arena.update(
                            i as int,
                            (formulas@[j as int].0@, ir_view(f.ir)),
                        ));
                    }
                    assert forall|i1: int, i2: int|
                        0 <= i1 < i2 < nodes@.len() implies nodes@[i1].name@ != nodes@[i2]
                        .name@ by {
                        assert(pre[i1].name@ != pre[i2].name@);
                        assert(nodes@[i as int].name@ == pre[i as int].name@);
                    }
                    assert forall|i2: int|
                        0 <= i2 < nodes@.len() implies (#[trigger] nodes@[i2].parents@).len() == 0
                        && (#[trigger] nodes@[i2].children@).len() == 0 && (
                        #[trigger] nodes@[i2].result) is None by {
                        if i2 != i as int {
                            assert(nodes@[i2] == pre[i2]);
                            assert(pre[i2].parents@.len() == 0);
                            assert(pre[i2].children@.len() == 0);
                            assert(pre[i2].result is None);
                        } else {
                            assert(nodes@[i2].parents@.len() == 0);
                            assert(nodes@[i2].children@.len() == 0);
                            assert(nodes@[i2].result is None);
                        }
                    }
                }
            },
            None => {
                nodes.push(f);
                proof {
                    if inputs_lower_cleanly(fs0, old(ctx).consts_m(), formulas@) {
                        assert(ir_view(f.ir) == lowered_of(
                            fs0,
                            old(ctx).consts_m(),
                            formulas@[j as int].1@,
                        ));
                        lemma_find_name_none(prev_arena, formulas@[j as int].0@);
                        assert(arena_view(nodes@) =~= prev_arena.push(
                            (formulas@[j as int].0@, ir_view(f.ir)),
                        ));
                    }
                    assert forall|i1: int, i2: int|
                        0 <= i1 < i2 < nodes@.len() implies nodes@[i1].name@ != nodes@[i2]
                        .name@ by {
                        if i2 < nodes@.len() - 1 {
                            assert(pre[i1].name@ != pre[i2].name@);
                        } else {
                            assert(pre[i1].name@ != formulas@[j as int].0@);
                        }
                    }
                    assert forall|i2: int|
                        0 <= i2 < nodes@.len() implies (#[trigger] nodes@[i2].parents@).len() == 0
                        && (#[trigger] nodes@[i2].children@).len() == 0 && (
                        #[trigger] nodes@[i2].result) is None by {
                        if i2 < nodes@.len() - 1 {
                            assert(nodes@[i2] == pre[i2]);
                            assert(pre[i2].parents@.len() == 0);
                            assert(pre[i2].children@.len() == 0);
                            assert(pre[i2].result is None);
                        } else {
                            assert(nodes@[i2].parents@.len() == 0);
                            assert(nodes@[i2].children@.len() == 0);
                            assert(nodes@[i2].result is None);
                        }
                    }
                }
            },
        }
        j = j + 1;
    }
    Ok(nodes)
}


/// Resolves every formula of the arena in slot order, recording each
/// one's dependencies; the first missing name aborts. (Each tree's exact
/// outcome against the arena it saw is `resolve_ir`'s contract; this pass
/// carries the structural facts the graph stages need.)
#[verifier::loop_isolation(false)]
fn resolve_all(nodes: &mut Vec<Formula>, Ghost(fs0): Ghost<Seq<FnMeta>>) -> (r: Result<
    (),
    BindError,
>)
    requires
        forall|i: int|
            0 <= i < old(nodes)@.len() ==> wf_lowered(
                ir_view(#[trigger] old(nodes)@[i].ir),
                fs0,
            ),
        forall|i: int|
            0 <= i < old(nodes)@.len() ==> (#[trigger] old(nodes)@[i].parents@).len() == 0,
        forall|i: int|
            0 <= i < old(nodes)@.len() ==> (#[trigger] old(nodes)@[i].children@).len() == 0,
        forall|i: int|
            0 <= i < old(nodes)@.len() ==> (#[trigger] old(nodes)@[i].result) is None,
        forall|i1: int, i2: int|
            0 <= i1 < i2 < old(nodes)@.len() ==> old(nodes)@[i1].name@ != old(nodes)@[i2].name@,
    ensures
        final(nodes)@.len() == old(nodes)@.len(),
        (match r {
            Ok(()) => {
                &&& resolve_pass(arena_view(old(nodes)@), old(nodes)@.len() as int) == Ok::<
                    Seq<(Seq<char>, IRV)>,
                    BindErrorV,
                >(arena_view(final(nodes)@))
                &&& (forall|i: int|
                    0 <= i < final(nodes)@.len() ==> ir_runtime_wf(
                        ir_view(#[trigger] final(nodes)@[i].ir),
                        fs0.len() as int,
                        final(nodes)@.len() as int,
                    ))
                &&& (forall|i: int, j: int|
                    0 <= i < final(nodes)@.len() && 0 <= j < final(nodes)@[i].parents@.len()
                        ==> (#[trigger] final(nodes)@[i].parents@[j]) < final(nodes)@.len())
                &&& (forall|i: int, t: int|
                    0 <= i < final(nodes)@.len() && #[trigger] ir_refs(
                        ir_view(final(nodes)@[i].ir),
                    ).contains(t) ==> exists|j: int|
                        0 <= j < final(nodes)@[i].parents@.len() && final(nodes)@[i].parents@[j]
                            == t)
                &&& (forall|i: int, j: int|
                    0 <= i < final(nodes)@.len() && 0 <= j < final(nodes)@[i].parents@.len()
                        ==> ir_refs(ir_view(final(nodes)@[i].ir)).contains(
                        (#[trigger] final(nodes)@[i].parents@[j]) as int,
                    ))
                &&& (forall|i: int|
                    0 <= i < final(nodes)@.len() ==> (#[trigger] final(nodes)@[i].children@).len()
                        == 0)
                &&& (forall|i: int|
                    0 <= i < final(nodes)@.len() ==> (#[trigger] final(nodes)@[i].result) is None)
                &&& (forall|i1: int, i2: int|
                    0 <= i1 < i2 < final(nodes)@.len() ==> final(nodes)@[i1].name@ != final(nodes)@[i2].name@)
            },
            Err(e) => old(nodes)@.len() >= 1 && resolve_pass(
                arena_view(old(nodes)@),
                old(nodes)@.len() as int,
            ) == Err::<Seq<(Seq<char>, IRV)>, BindErrorV>(bind_error_view(e)),
        }),
{
    let n1 = nodes.len();
    let mut i: usize = 0;
    while i < n1
        invariant
            i <= n1,
            n1 == nodes@.len(),
            nodes@.len() == old(nodes)@.len(),
            resolve_pass(arena_view(old(nodes)@), i as int) == Ok::<
                Seq<(Seq<char>, IRV)>,
                BindErrorV,
            >(arena_view(nodes@)),
            forall|i2: int|
                i <= i2 < n1 ==> wf_lowered(ir_view(#[trigger] nodes@[i2].ir), fs0),
            forall|i2: int|
                0 <= i2 < i ==> ir_runtime_wf(
                    ir_view(#[trigger] nodes@[i2].ir),
                    fs0.len() as int,
                    n1 as int,
                ),
            forall|i2: int, j2: int|
                0 <= i2 < n1 && 0 <= j2 < nodes@[i2].parents@.len() ==> (#[trigger] nodes@[i2]
                    .parents@[j2]) < n1,
            forall|i2: int, t: int|
                0 <= i2 < i && #[trigger] ir_refs(ir_view(nodes@[i2].ir)).contains(t)
                    ==> exists|j2: int|
                    0 <= j2 < nodes@[i2].parents@.len() && nodes@[i2].parents@[j2] == t,
            forall|i2: int, j2: int|
                0 <= i2 < i && 0 <= j2 < nodes@[i2].parents@.len() ==> ir_refs(
                    ir_view(nodes@[i2].ir),
                ).contains((#[trigger] nodes@[i2].parents@[j2]) as int),
            forall|i2: int|
                0 <= i2 < n1 ==> (#[trigger] nodes@[i2].children@).len() == 0,
            forall|i2: int| 0 <= i2 < n1 ==> (#[trigger] nodes@[i2].result) is None,
            forall|i1: int, i2: int|
                0 <= i1 < i2 < n1 ==> nodes@[i1].name@ != nodes@[i2].name@,
        decreases n1 - i,
    {
        let ir = nodes[i].ir.clone();
        proof {
            lemma_wf_lowered_calls_in_range(ir_view(ir), fs0);
            assert(arena_view(nodes@)[i as int] == (
                nodes@[i as int].name@,
                ir_view(nodes@[i as int].ir),
            ));
        }
        let mut parents: Vec<usize> = Vec::new();
        let ghost pre = nodes@;
        let ghost pre_nv = arena_view(nodes@);
        match resolve_ir(&ir, &nodes, &mut parents, Ghost(fs0.len() as int)) {
            Ok(out) => {
                let ghost outv = ir_view(out);
                nodes[i].ir = out;
                nodes[i].parents = parents;
                proof {
                    assert(arena_view(nodes@) =~= pre_nv.update(
                        i as int,
                        (pre_nv[i as int].0, outv),
                    ));
                    assert(resolve_pass(arena_view(old(nodes)@), i + 1) == Ok::<
                        Seq<(Seq<char>, IRV)>,
                        BindErrorV,
                    >(arena_view(nodes@)));
                }
            },
            Err(e) => {
                proof {
                    assert(resolve_pass(arena_view(old(nodes)@), i + 1) == Err::<
                        Seq<(Seq<char>, IRV)>,
                        BindErrorV,
                    >(bind_error_view(e)));
                    lemma_resolve_pass_err(
                        arena_view(old(nodes)@),
                        i + 1,
                        n1 as int,
                        bind_error_view(e),
                    );
                }
                return Err(e);
            },
        }
        proof {
            assert forall|i2: int, t: int|
                0 <= i2 <= i as int && #[trigger] ir_refs(ir_view(nodes@[i2].ir)).contains(
                    t,
                ) implies exists|j2: int|
                0 <= j2 < nodes@[i2].parents@.len() && nodes@[i2].parents@[j2] == t by {
                if i2 < i as int {
                    assert(nodes@[i2] == pre[i2]);
                } else {
                    assert(nodes@[i2].parents@ == parents@);
                }
            }
            assert forall|i2: int, j2: int|
                0 <= i2 <= i as int && 0 <= j2 < nodes@[i2].parents@.len() implies ir_refs(
                    ir_view(nodes@[i2].ir),
                ).contains((#[trigger] nodes@[i2].parents@[j2]) as int) by {
                if i2 < i as int {
                    assert(nodes@[i2] == pre[i2]);
                } else {
                    assert(nodes@[i2].parents@ == parents@);
                }
            }
            assert forall|i2: int, j2: int|
                0 <= i2 < n1 && 0 <= j2 < nodes@[i2].parents@.len() implies (
                #[trigger] nodes@[i2].parents@[j2]) < n1 by {
                if i2 != i as int {
                    assert(nodes@[i2] == pre[i2]);
                } else {
                    assert(nodes@[i2].parents@ == parents@);
                }
            }
            assert forall|i2: int|
                0 <= i2 < n1 implies (#[trigger] nodes@[i2].children@).len() == 0 by {
                if i2 != i as int {
                    assert(nodes@[i2] == pre[i2]);
                } else {
                    assert(nodes@[i2].children@ == pre[i2].children@);
                }
            }
            assert forall|i2: int|
                0 <= i2 < n1 implies (#[trigger] nodes@[i2].result) is None by {
                if i2 != i as int {
                    assert(nodes@[i2] == pre[i2]);
                } else {
                    assert(nodes@[i2].result == pre[i2].result);
                }
            }
            assert forall|i1: int, i2: int|
                0 <= i1 < i2 < n1 implies nodes@[i1].name@ != nodes@[i2].name@ by {
                assert(nodes@[i1].name@ == pre[i1].name@);
                assert(nodes@[i2].name@ == pre[i2].name@);
                assert(pre[i1].name@ != pre[i2].name@);
            }
        }
        i = i + 1;
    }
    Ok(())
}


/// The first formula of a parents-first order depends on nothing: any
/// parent would have to sit before position zero.
proof fn lemma_first_has_no_parents(pars: Seq<Seq<usize>>, order: Seq<usize>, pos: Seq<usize>)
    requires
        order.len() == pars.len(),
        pos.len() == pars.len(),
        order.len() >= 1,
        forall|k2: int| 0 <= k2 < order.len() ==> (#[trigger] order[k2]) < pars.len(),
        forall|k2: int, j: int|
            0 <= k2 < order.len() && 0 <= j < pars[order[k2] as int].len() ==> (pos[(
            #[trigger] pars[order[k2] as int][j]) as int] as int) < k2,
    ensures
        pars[order[0] as int].len() == 0,
{
    if pars[order[0] as int].len() > 0 {
        assert((pos[pars[order[0] as int][0] as int] as int) < 0);
    }
}


/// One ordering sweep: places every formula whose parents are all placed,
/// keeping the order, its inverse and the parents-first property; reports
/// whether anything was placed. After a fruitless sweep every unplaced
/// formula waits on an unplaced parent.
#[verifier::loop_isolation(false)]
#[verifier::rlimit(100)]
fn sweep_place(
    nodes: &Vec<Formula>,
    processed: &mut Vec<bool>,
    pos: &mut Vec<usize>,
    order: &mut Vec<usize>,
) -> (found: bool)
    requires
        forall|i: int, j: int|
            0 <= i < nodes@.len() && 0 <= j < nodes@[i].parents@.len() ==> (#[trigger] nodes@[i]
                .parents@[j]) < nodes@.len(),
        old(processed)@.len() == nodes@.len(),
        old(pos)@.len() == nodes@.len(),
        old(order)@.len() <= nodes@.len(),
        forall|k: int|
            0 <= k < old(order)@.len() ==> (#[trigger] old(order)@[k]) < nodes@.len(),
        forall|k: int|
            0 <= k < old(order)@.len() ==> old(processed)@[#[trigger] old(order)@[k] as int]
                && old(pos)@[old(order)@[k] as int] == k,
        forall|i: int|
            0 <= i < nodes@.len() && #[trigger] old(processed)@[i] ==> (old(pos)@[i] as int)
                < old(order)@.len() && old(order)@[old(pos)@[i] as int] == i,
        forall|k: int, j: int|
            0 <= k < old(order)@.len() && 0 <= j < nodes@[old(order)@[k] as int].parents@.len()
                ==> old(processed)@[#[trigger] nodes@[old(order)@[k] as int].parents@[j] as int]
                && (old(pos)@[nodes@[old(order)@[k] as int].parents@[j] as int] as int) < k,
    ensures
        final(processed)@.len() == nodes@.len(),
        final(pos)@.len() == nodes@.len(),
        final(order)@.len() <= nodes@.len(),
        found == (final(order)@.len() > old(order)@.len()),
        forall|k: int|
            0 <= k < final(order)@.len() ==> (#[trigger] final(order)@[k]) < nodes@.len(),
        forall|k: int|
            0 <= k < final(order)@.len() ==> final(processed)@[#[trigger] final(order)@[k] as int]
                && final(pos)@[final(order)@[k] as int] == k,
        forall|i: int|
            0 <= i < nodes@.len() && #[trigger] final(processed)@[i] ==> (final(pos)@[i] as int)
                < final(order)@.len() && final(order)@[final(pos)@[i] as int] == i,
        forall|k: int, j: int|
            0 <= k < final(order)@.len() && 0 <= j < nodes@[final(order)@[k]
                as int].parents@.len() ==> final(processed)@[#[trigger] nodes@[final(order)@[k]
                as int].parents@[j] as int] && (final(pos)@[nodes@[final(order)@[k]
                as int].parents@[j] as int] as int) < k,
        !found ==> forall|i2: int|
            0 <= i2 < nodes@.len() && !(#[trigger] final(processed)@[i2]) ==> exists|j: int|
                0 <= j < nodes@[i2].parents@.len() && !final(processed)@[nodes@[i2].parents@[j]
                    as int],
{
    let n = nodes.len();
    let ghost len0 = order@.len();
    let mut found: bool = false;
    let mut i: usize = 0;
    while i < n
        invariant
            i <= n,
            processed@.len() == n,
            pos@.len() == n,
            n == nodes@.len(),
            order@.len() <= n,
            len0 <= order@.len(),
            found == (order@.len() > len0),
            forall|k: int| 0 <= k < order@.len() ==> (#[trigger] order@[k]) < n,
            forall|k: int|
                0 <= k < order@.len() ==> processed@[#[trigger] order@[k] as int]
                    && pos@[order@[k] as int] == k,
            forall|i2: int|
                0 <= i2 < n && #[trigger] processed@[i2] ==> (pos@[i2] as int) < order@.len()
                    && order@[pos@[i2] as int] == i2,
            forall|k: int, j: int|
                0 <= k < order@.len() && 0 <= j < nodes@[order@[k] as int].parents@.len()
                    ==> processed@[#[trigger] nodes@[order@[k] as int].parents@[j] as int]
                    && (pos@[nodes@[order@[k] as int].parents@[j] as int] as int) < k,
            !found ==> forall|i2: int|
                0 <= i2 < i && !(#[trigger] processed@[i2]) ==> exists|j: int|
                    0 <= j < nodes@[i2].parents@.len() && !processed@[nodes@[i2].parents@[j]
                        as int],
        decreases n - i,
    {
        if !processed[i] {
            let m = nodes[i].parents.len();
            let mut all_done: bool = true;
            let mut j: usize = 0;
            while j < m
                invariant
                    j <= m,
                    i < n,
                    m == nodes@[i as int].parents@.len(),
                    all_done ==> forall|j2: int|
                        0 <= j2 < j ==> processed@[#[trigger] nodes@[i as int].parents@[j2]
                            as int],
                    !all_done ==> exists|j2: int|
                        0 <= j2 < m && !processed@[nodes@[i as int].parents@[j2] as int],
                decreases m - j,
            {
                let p = nodes[i].parents[j];
                if !processed[p] {
                    all_done = false;
                }
                j = j + 1;
            }
            if all_done {
                proof {
                    lemma_processed_count_partial(
                        processed@,
                        order@,
                        pos@,
                        n as int,
                        i as int,
                    );
                }
                processed.set(i, true);
                pos.set(i, order.len());
                order.push(i);
                found = true;
            }
        }
        i = i + 1;
    }
    found
}


/// The parentless slots among the first `i`, in ascending order: the
/// formulas a tick starts from.
pub open spec fn roots_of(nodes: Seq<Formula>, i: int) -> Seq<usize>
    decreases i,
{
    if i <= 0 {
        Seq::empty()
    } else {
        roots_of(nodes, i - 1) + (if nodes[i - 1].parents@.len() == 0 {
            seq![(i - 1) as usize]
        } else {
            Seq::empty()
        })
    }
}

/// Two arenas with the same parent lists have the same roots.
proof fn lemma_roots_of_congruent(a: Seq<Formula>, b: Seq<Formula>, i: int)
    requires
        a.len() == b.len(),
        forall|m: int| 0 <= m < a.len() ==> (#[trigger] a[m].parents@) == b[m].parents@,
        i <= a.len(),
    ensures
        roots_of(a, i) == roots_of(b, i),
    decreases i,
{
    if i > 0 {
        lemma_roots_of_congruent(a, b, i - 1);
    }
}


proof fn lemma_irs_refs_elt_subset(s: Seq<IRV>, m: int, t: int)
    requires
        0 <= m < s.len(),
        ir_refs(s[m]).contains(t),
    ensures
        irs_refs(s).contains(t),
    decreases s,
{
    if m > 0 {
        lemma_irs_refs_elt_subset(s.drop_first(), m - 1, t);
    }
}


/// No host call takes part in building these inputs: every source parses,
/// and every call it makes names a stateful-registered function of
/// matching arity (so lowering is a pure function of the registry).
pub open spec fn inputs_lower_cleanly(
    fs: Seq<FnMeta>,
    cs: Seq<(Seq<char>, u64)>,
    inputs: Seq<(String, String)>,
) -> bool {
    forall|j: int|
        0 <= j < inputs.len() ==> (match spec_parse_source((#[trigger] inputs[j]).1@) {
            Ok(ev) => all_calls_stateful(fs, ev) && lower_stateful(fs, cs, ev) is Ok,
            Err(_) => false,
        })
}

/// The lowered tree of one input, under `inputs_lower_cleanly`.
pub open spec fn lowered_of(fs: Seq<FnMeta>, cs: Seq<(Seq<char>, u64)>, src: Seq<char>) -> IRV {
    match spec_parse_source(src) {
        Ok(ev) => match lower_stateful(fs, cs, ev) {
            Ok(ir) => ir,
            Err(_) => arbitrary(),
        },
        Err(_) => arbitrary(),
    }
}

/// The arena the parse-and-lower stage builds from the first `j` inputs,
/// under `inputs_lower_cleanly`: each formula in order, replacing an
/// earlier formula of the same name or appended.
pub open spec fn built_arena(
    fs: Seq<FnMeta>,
    cs: Seq<(Seq<char>, u64)>,
    inputs: Seq<(String, String)>,
    j: int,
) -> Seq<(Seq<char>, IRV)>
    decreases j,
{
    if j <= 0 {
        Seq::empty()
    } else {
        let prev = built_arena(fs, cs, inputs, j - 1);
        let name = inputs[j - 1].0@;
        let ir = lowered_of(fs, cs, inputs[j - 1].1@);
        match find_name_idx(prev, name) {
            Some(u) => prev.update(u, (name, ir)),
            None => prev.push((name, ir)),
        }
    }
}


/// The registered names, in registry order, as the sharing pass reads
/// them for fingerprints.
pub open spec fn registry_names(fs: Seq<FnMeta>) -> Seq<Seq<char>> {
    fs.map_values(|m: FnMeta| m.0)
}

/// `cse_map` over an argument list.
pub open spec fn cse_map_list(s: Seq<IRV>, names: Seq<Seq<char>>) -> Seq<IRV>
    decreases s,
{
    if s.len() == 0 {
        Seq::empty()
    } else {
        seq![cse_map(s[0], names)] + cse_map_list(s.drop_first(), names)
    }
}

proof fn lemma_cse_map_list(s: Seq<IRV>, names: Seq<Seq<char>>, out: Seq<IRV>)
    requires
        s.len() == out.len(),
        forall|m: int| 0 <= m < s.len() ==> cse_map(#[trigger] s[m], names) == out[m],
    ensures
        cse_map_list(s, names) == out,
    decreases s,
{
    if s.len() > 0 {
        lemma_cse_map_list(s.drop_first(), names, out.drop_first());
        assert(seq![out[0]] + out.drop_first() =~= out);
    } else {
        assert(out =~= Seq::<IRV>::empty());
    }
}

/// How one tree grows the arena under the sharing pass: the arguments of
/// a stateful call are visited first, left to right, then a formula named
/// by the call's fingerprint is appended — holding the call with its
/// arguments rewritten — unless one of that name already stands.
pub open spec fn cse_collect(ir: IRV, names: Seq<Seq<char>>, nv: Seq<(Seq<char>, IRV)>) -> Seq<
    (Seq<char>, IRV),
>
    decreases ir, 1int,
{
    match ir {
        IRV::Value(_) => nv,
        IRV::Ref(_) => nv,
        IRV::Call(i, p, args) => if p is Stateful {
            let nv1 = cse_collect_list(args, names, nv);
            let name = mangled(fp_ir(ir, names));
            match find_name_idx(nv1, name) {
                Some(_) => nv1,
                None => nv1.push((name, IRV::Call(i, p, cse_map_list(args, names)))),
            }
        } else {
            nv
        },
        IRV::BinOp(l, r, _) => cse_collect(*r, names, cse_collect(*l, names, nv)),
        IRV::UnOp(r, _) => cse_collect(*r, names, nv),
    }
}

/// The arena growth of an argument list, left to right.
pub open spec fn cse_collect_list(
    s: Seq<IRV>,
    names: Seq<Seq<char>>,
    nv: Seq<(Seq<char>, IRV)>,
) -> Seq<(Seq<char>, IRV)>
    decreases s, 0int,
{
    if s.len() == 0 {
        nv
    } else {
        cse_collect_list(s.drop_first(), names, cse_collect(s[0], names, nv))
    }
}

/// The list growth extends one argument at a time.
proof fn lemma_cse_collect_list_snoc(
    s: Seq<IRV>,
    names: Seq<Seq<char>>,
    nv: Seq<(Seq<char>, IRV)>,
)
    requires
        s.len() > 0,
    ensures
        cse_collect_list(s, names, nv) == cse_collect(
            s.last(),
            names,
            cse_collect_list(s.drop_last(), names, nv),
        ),
    decreases s,
{
    if s.len() > 1 {
        lemma_cse_collect_list_snoc(s.drop_first(), names, cse_collect(s[0], names, nv));
        assert(s.drop_first().drop_last() =~= s.drop_last().drop_first());
        assert(s.drop_first().last() == s.last());
        assert(s.drop_last()[0] == s[0]);
        assert(cse_collect_list(s, names, nv) == cse_collect_list(
            s.drop_first(),
            names,
            cse_collect(s[0], names, nv),
        ));
        assert(cse_collect_list(s.drop_last(), names, nv) == cse_collect_list(
            s.drop_last().drop_first(),
            names,
            cse_collect(s.drop_last()[0], names, nv),
        ));
    } else {
        assert(s.drop_last() =~= Seq::<IRV>::empty());
        assert(cse_collect_list(s, names, nv) == cse_collect_list(
            s.drop_first(),
            names,
            cse_collect(s[0], names, nv),
        ));
        assert(s.drop_first() =~= Seq::<IRV>::empty());
        assert(cse_collect_list(s.drop_last(), names, nv) == nv);
    }
}


/// The resolution stage over the whole arena: each formula in slot order
/// is resolved against the arena as it then stands (an earlier formula
/// already resolved, or inlined to a value, is seen in that state); the
/// first missing name is the error.
pub open spec fn resolve_pass(nv: Seq<(Seq<char>, IRV)>, i: int) -> Result<
    Seq<(Seq<char>, IRV)>,
    BindErrorV,
>
    decreases i,
{
    if i <= 0 {
        Ok(nv)
    } else {
        match resolve_pass(nv, i - 1) {
            Err(e) => Err(e),
            Ok(prev) => match resolve_map(prev[i - 1].1, prev) {
                Err(e) => Err(e),
                Ok(ir) => Ok(prev.update(i - 1, (prev[i - 1].0, ir))),
            },
        }
    }
}

proof fn lemma_resolve_pass_err(nv: Seq<(Seq<char>, IRV)>, i: int, j: int, e: BindErrorV)
    requires
        0 <= i <= j,
        resolve_pass(nv, i) == Err::<Seq<(Seq<char>, IRV)>, BindErrorV>(e),
    ensures
        resolve_pass(nv, j) == Err::<Seq<(Seq<char>, IRV)>, BindErrorV>(e),
    decreases j - i,
{
    if j > i {
        lemma_resolve_pass_err(nv, i, j - 1, e);
    }
}


/// Every call site of the tree carries the stateful purity class.
pub open spec fn ir_calls_stateful(ir: IRV) -> bool
    decreases ir,
{
    match ir {
        IRV::Value(_) => true,
        IRV::Ref(_) => true,
        IRV::Call(_, p, args) => p is Stateful && irs_calls_stateful(args),
        IRV::BinOp(l, r, _) => ir_calls_stateful(*l) && ir_calls_stateful(*r),
        IRV::UnOp(r, _) => ir_calls_stateful(*r),
    }
}

/// The call condition over an argument list.
pub open spec fn irs_calls_stateful(s: Seq<IRV>) -> bool
    decreases s,
{
    if s.len() == 0 {
        true
    } else {
        ir_calls_stateful(s[0]) && irs_calls_stateful(s.drop_first())
    }
}

/// What the folding stage leaves of the arena: every call-free tree is
/// folded whole (or kept, where it does not fold), every tree holding a
/// call is kept.
pub open spec fn fold_arena(nv: Seq<(Seq<char>, IRV)>) -> Seq<(Seq<char>, IRV)> {
    nv.map_values(
        |p: (Seq<char>, IRV)|
            (
                p.0,
                if call_free(p.1) {
                    apply_fold(p.1)
                } else {
                    p.1
                },
            ),
    )
}


/// The sharing stage over the whole arena: each of the first `i` original
/// formulas, in slot order, contributes its hoisted formulas and is
/// rewritten to `cse_map` of its tree.
pub open spec fn cse_pass(nv0: Seq<(Seq<char>, IRV)>, names: Seq<Seq<char>>, i: int) -> Seq<
    (Seq<char>, IRV),
>
    decreases i,
{
    if i <= 0 {
        nv0
    } else {
        let prev = cse_pass(nv0, names, i - 1);
        let collected = cse_collect(prev[i - 1].1, names, prev);
        collected.update(i - 1, (prev[i - 1].0, cse_map(prev[i - 1].1, names)))
    }
}

/// A set of slots each holding a reference into the set: what a reference
/// cycle leaves in the resolved arena.
pub open spec fn trapped_refs(nv: Seq<(Seq<char>, IRV)>, s: Set<int>) -> bool {
    forall|m: int|
        s.contains(m) ==> 0 <= m < nv.len() && (exists|t: int|
            #[trigger] ir_refs(nv[m].1).contains(t) && s.contains(t))
}

/// The arena the build pipeline produces from clean inputs: parse and
/// lower each source, share stateful calls, fold single uses back,
/// resolve references, and fold whole-tree constants.
pub open spec fn shared_arena(
    fs: Seq<FnMeta>,
    cs: Seq<(Seq<char>, u64)>,
    inputs: Seq<(String, String)>,
) -> Seq<(Seq<char>, IRV)> {
    let built = built_arena(fs, cs, inputs, inputs.len() as int);
    let ced = cse_pass(built, registry_names(fs), built.len() as int);
    inline_pass(ced, built.len() as int, ced.len() as int)
}

/// The arena after reference resolution, under `builds_cleanly`.
pub open spec fn resolved_arena(
    fs: Seq<FnMeta>,
    cs: Seq<(Seq<char>, u64)>,
    inputs: Seq<(String, String)>,
) -> Seq<(Seq<char>, IRV)> {
    let shared = shared_arena(fs, cs, inputs);
    match resolve_pass(shared, shared.len() as int) {
        Ok(nv) => nv,
        Err(_) => arbitrary(),
    }
}

/// The whole build succeeds and no host call takes part: the inputs are
/// nonempty and lower cleanly, every reference resolves, every call that
/// survives is stateful, and no set of formulas is trapped by its own
/// references (the reference graph is acyclic).
/// The front of the pipeline succeeds: the inputs are nonempty, they all
/// lower cleanly, and every reference resolves after the sharing pass.
pub open spec fn front_builds(
    fs: Seq<FnMeta>,
    cs: Seq<(Seq<char>, u64)>,
    inputs: Seq<(String, String)>,
) -> bool {
    let shared = shared_arena(fs, cs, inputs);
    &&& inputs.len() >= 1
    &&& inputs_lower_cleanly(fs, cs, inputs)
    &&& resolve_pass(shared, shared.len() as int) is Ok
}

pub open spec fn builds_cleanly(
    fs: Seq<FnMeta>,
    cs: Seq<(Seq<char>, u64)>,
    inputs: Seq<(String, String)>,
) -> bool {
    let resolved = resolved_arena(fs, cs, inputs);
    &&& front_builds(fs, cs, inputs)
    &&& (forall|p: int| 0 <= p < resolved.len() ==> ir_calls_stateful(#[trigger] resolved[p].1))
    &&& (forall|s: Set<int>, m: int| trapped_refs(resolved, s) ==> !s.contains(m))
}


/// The sharing stage: hoists the stateful calls of the first `base`
/// formulas, exactly as `cse_pass` describes, keeping every structural
/// fact of the build.
#[verifier::loop_isolation(false)]
#[verifier::rlimit(60)]
fn share_calls<C: Callable>(
    nodes: &mut Vec<Formula>,
    ctx: &Context<C>,
    base: usize,
    Ghost(fs0): Ghost<Seq<FnMeta>>,
)
    requires
        ctx.fns_m() == fs0,
        base == old(nodes)@.len(),
        forall|i: int|
            0 <= i < old(nodes)@.len() ==> wf_lowered(
                ir_view(#[trigger] old(nodes)@[i].ir),
                fs0,
            ),
        forall|i: int|
            0 <= i < old(nodes)@.len() ==> (#[trigger] old(nodes)@[i].parents@).len() == 0
                && old(nodes)@[i].children@.len() == 0 && old(nodes)@[i].result is None,
        forall|i1: int, i2: int|
            0 <= i1 < i2 < old(nodes)@.len() ==> old(nodes)@[i1].name@ != old(nodes)@[i2].name@,
    ensures
        arena_view(final(nodes)@) == cse_pass(
            arena_view(old(nodes)@),
            registry_names(fs0),
            base as int,
        ),
        base <= final(nodes)@.len(),
        forall|i: int|
            0 <= i < final(nodes)@.len() ==> wf_lowered(
                ir_view(#[trigger] final(nodes)@[i].ir),
                fs0,
            ),
        forall|i: int|
            0 <= i < final(nodes)@.len() ==> (#[trigger] final(nodes)@[i].parents@).len() == 0
                && final(nodes)@[i].children@.len() == 0 && final(nodes)@[i].result is None,
        forall|i1: int, i2: int|
            0 <= i1 < i2 < final(nodes)@.len() ==> final(nodes)@[i1].name@ != final(nodes)@[i2].name@,
        forall|i: int|
            base <= i < final(nodes)@.len() ==> ir_view(#[trigger] final(nodes)@[i].ir) matches
                IRV::Call(_, _, _),
{
    let ghost built_nv = arena_view(old(nodes)@);
    let mut fnames: Vec<String> = Vec::new();
    let nfn = ctx.ns_fn.len();
    let mut fi: usize = 0;
    while fi < nfn
        invariant
            fi <= nfn,
            nfn == fs0.len(),
            fnames@.len() == fi,
            forall|m: int| 0 <= m < fi ==> (#[trigger] fnames@[m])@ == fs0[m].0,
        decreases nfn - fi,
    {
        fnames.push(ctx.fn_name_of(fi));
        fi = fi + 1;
    }
    proof {
        assert(names_view(fnames@) =~= registry_names(fs0));
    }
    let mut i: usize = 0;
    while i < base
        invariant
            i <= base,
            base <= nodes@.len(),
            base == built_nv.len(),
            names_view(fnames@) == registry_names(fs0),
            arena_view(nodes@) == cse_pass(built_nv, registry_names(fs0), i as int),
            forall|i2: int|
                base <= i2 < nodes@.len() ==> ir_view(#[trigger] nodes@[i2].ir) matches
                    IRV::Call(_, _, _),
            forall|i2: int|
                0 <= i2 < nodes@.len() ==> wf_lowered(ir_view(#[trigger] nodes@[i2].ir), fs0),
            forall|i2: int|
                0 <= i2 < nodes@.len() ==> (#[trigger] nodes@[i2].parents@).len() == 0
                    && nodes@[i2].children@.len() == 0 && nodes@[i2].result is None,
            forall|i1: int, i2: int|
                0 <= i1 < i2 < nodes@.len() ==> nodes@[i1].name@ != nodes@[i2].name@,
        decreases base - i,
    {
        let ir = nodes[i].ir.clone();
        let ghost pre = nodes@;
        proof {
            assert(arena_view(pre)[i as int] == (pre[i as int].name@, ir_view(ir)));
        }
        let out = cse_rewrite(&ir, nodes, &fnames, Ghost(fs0));
        let ghost mid = nodes@;
        nodes[i].ir = out;
        proof {
            assert(arena_view(nodes@) =~= arena_view(mid).update(
                i as int,
                (mid[i as int].name@, ir_view(out)),
            ));
            assert(mid[i as int].name@ == arena_view(pre)[i as int].0);
            assert(arena_view(nodes@) == cse_pass(built_nv, registry_names(fs0), i + 1));
            assert forall|i2: int|
                0 <= i2 < nodes@.len() implies wf_lowered(
                    ir_view(#[trigger] nodes@[i2].ir),
                    fs0,
                ) by {
                if i2 != i as int {
                    assert(nodes@[i2] == mid[i2]);
                }
            }
            assert forall|i2: int|
                0 <= i2 < nodes@.len() implies (#[trigger] nodes@[i2].parents@).len() == 0
                && nodes@[i2].children@.len() == 0 && nodes@[i2].result is None by {
                if i2 != i as int {
                    assert(nodes@[i2] == mid[i2]);
                    assert(mid[i2].parents@.len() == 0);
                    assert(mid[i2].children@.len() == 0);
                    assert(mid[i2].result is None);
                } else {
                    assert(nodes@[i2].parents@ == pre[i2].parents@);
                    assert(nodes@[i2].children@ == pre[i2].children@);
                    assert(nodes@[i2].result == pre[i2].result);
                    assert(pre[i2].parents@.len() == 0);
                    assert(pre[i2].children@.len() == 0);
                    assert(pre[i2].result is None);
                }
            }
            assert forall|i1: int, i2: int|
                0 <= i1 < i2 < nodes@.len() implies nodes@[i1].name@ != nodes@[i2].name@ by {
                assert(mid[i1].name@ != mid[i2].name@);
                assert(nodes@[i1].name@ == mid[i1].name@);
                assert(nodes@[i2].name@ == mid[i2].name@);
            }
        }
        i = i + 1;
    }
}


/// The folding stage: replaces every whole tree that folds by its value,
/// keeping names, parents, children, and every graph fact. When every
/// surviving call site is stateful — so no host is consulted — the arena
/// becomes exactly `fold_arena` of what it was.
#[verifier::loop_isolation(false)]
#[verifier::rlimit(80)]
fn fold_all<C: Callable>(
    nodes: &mut Vec<Formula>,
    ctx: &mut Context<C>,
    Ghost(fs0): Ghost<Seq<FnMeta>>,
)
    requires
        old(ctx).fns_m() == fs0,
        forall|i: int|
            0 <= i < old(nodes)@.len() ==> ir_runtime_wf(
                ir_view(#[trigger] old(nodes)@[i].ir),
                fs0.len() as int,
                old(nodes)@.len() as int,
            ),
        forall|i: int, t: int|
            0 <= i < old(nodes)@.len() && #[trigger] ir_refs(
                ir_view(old(nodes)@[i].ir),
            ).contains(t) ==> exists|j: int|
                0 <= j < old(nodes)@[i].parents@.len() && old(nodes)@[i].parents@[j] == t,
        forall|i: int, j: int|
            0 <= i < old(nodes)@.len() && 0 <= j < old(nodes)@[i].parents@.len() ==> ir_refs(
                ir_view(old(nodes)@[i].ir),
            ).contains((#[trigger] old(nodes)@[i].parents@[j]) as int),
    ensures
        final(ctx).fns_m() == fs0,
        final(ctx).consts_m() == old(ctx).consts_m(),
        final(nodes)@.len() == old(nodes)@.len(),
        forall|i: int|
            0 <= i < old(nodes)@.len() ==> (#[trigger] final(nodes)@[i].parents@) == old(nodes)@[i].parents@ && final(nodes)@[i].children@ == old(nodes)@[i].children@ && final(nodes)@[i].name@ == old(nodes)@[i].name@,
        forall|i: int|
            0 <= i < final(nodes)@.len() ==> ir_runtime_wf(
                ir_view(#[trigger] final(nodes)@[i].ir),
                fs0.len() as int,
                final(nodes)@.len() as int,
            ),
        forall|i: int, t: int|
            0 <= i < final(nodes)@.len() && #[trigger] ir_refs(
                ir_view(final(nodes)@[i].ir),
            ).contains(t) ==> exists|j: int|
                0 <= j < final(nodes)@[i].parents@.len() && final(nodes)@[i].parents@[j] == t,
        forall|i: int, j: int|
            0 <= i < final(nodes)@.len() && 0 <= j < final(nodes)@[i].parents@.len() ==> ir_refs(
                ir_view(final(nodes)@[i].ir),
            ).contains((#[trigger] final(nodes)@[i].parents@[j]) as int),
        (forall|p: int|
            0 <= p < old(nodes)@.len() ==> ir_calls_stateful(
                #[trigger] arena_view(old(nodes)@)[p].1,
            )) ==> arena_view(final(nodes)@) == fold_arena(arena_view(old(nodes)@)),
{
    let ghost pre_nv = arena_view(old(nodes)@);
    let ghost all_st = forall|p: int|
        0 <= p < old(nodes)@.len() ==> ir_calls_stateful(#[trigger] pre_nv[p].1);
    let n1 = nodes.len();
    let mut i: usize = 0;
    while i < n1
        invariant
            i <= n1,
            n1 == nodes@.len(),
            ctx.fns_m() == fs0,
            ctx.consts_m() == old(ctx).consts_m(),
            forall|i2: int|
                0 <= i2 < n1 ==> ir_runtime_wf(
                    ir_view(#[trigger] nodes@[i2].ir),
                    fs0.len() as int,
                    n1 as int,
                ),
            forall|i2: int|
                0 <= i2 < n1 ==> (#[trigger] nodes@[i2].parents@) == old(nodes)@[i2].parents@,
            forall|i2: int|
                0 <= i2 < n1 ==> (#[trigger] nodes@[i2].children@) == old(nodes)@[i2].children@,
            forall|i2: int|
                0 <= i2 < n1 ==> (#[trigger] nodes@[i2].name@) == old(nodes)@[i2].name@,
            forall|i2: int, t: int|
                0 <= i2 < n1 && #[trigger] ir_refs(ir_view(nodes@[i2].ir)).contains(t)
                    ==> exists|j2: int|
                    0 <= j2 < nodes@[i2].parents@.len() && nodes@[i2].parents@[j2] == t,
            forall|i2: int, j2: int|
                0 <= i2 < n1 && 0 <= j2 < nodes@[i2].parents@.len() ==> ir_refs(
                    ir_view(nodes@[i2].ir),
                ).contains((#[trigger] nodes@[i2].parents@[j2]) as int),
            all_st ==> forall|p: int|
                0 <= p < n1 ==> #[trigger] arena_view(nodes@)[p] == (if p < i {
                    fold_arena(pre_nv)[p]
                } else {
                    pre_nv[p]
                }),
            !all_st ==> forall|p: int|
                i <= p < n1 ==> #[trigger] arena_view(nodes@)[p] == pre_nv[p],
        decreases n1 - i,
    {
        let ir = nodes[i].ir.clone();
        proof {
            if all_st {
                assert(arena_view(nodes@)[i as int] == pre_nv[i as int]);
                assert(ir_view(ir) == pre_nv[i as int].1);
                assert(ir_calls_stateful(pre_nv[i as int].1));
            }
        }
        match fold_value(&ir, ctx, Ghost(n1 as int)) {
            Some(v) => {
                let ghost pre = nodes@;
                proof {
                    assert(nodes@[i as int].parents@.len() == 0) by {
                        if nodes@[i as int].parents@.len() > 0 {
                            assert(ir_refs(ir_view(nodes@[i as int].ir)).contains(
                                nodes@[i as int].parents@[0] as int,
                            ));
                        }
                    }
                }
                nodes[i].ir = IRNode::Value(v);
                proof {
                    assert(ir_refs(ir_view(nodes@[i as int].ir)) =~= Set::<int>::empty());
                    assert forall|i2: int, t: int|
                        0 <= i2 < n1 && #[trigger] ir_refs(ir_view(nodes@[i2].ir)).contains(
                            t,
                        ) implies exists|j2: int|
                        0 <= j2 < nodes@[i2].parents@.len() && nodes@[i2].parents@[j2] == t by {
                        if i2 != i as int {
                            assert(nodes@[i2] == pre[i2]);
                        }
                    }
                    assert forall|i2: int, j2: int|
                        0 <= i2 < n1 && 0 <= j2 < nodes@[i2].parents@.len() implies ir_refs(
                            ir_view(nodes@[i2].ir),
                        ).contains((#[trigger] nodes@[i2].parents@[j2]) as int) by {
                        if i2 != i as int {
                            assert(nodes@[i2] == pre[i2]);
                        } else {
                            assert(nodes@[i2].parents@ == pre[i2].parents@);
                        }
                    }
                    assert forall|i2: int|
                        0 <= i2 < n1 implies (#[trigger] nodes@[i2].parents@) == old(nodes)@[i2].parents@ && nodes@[i2].children@ == old(nodes)@[i2].children@
                        && nodes@[i2].name@ == old(nodes)@[i2].name@ by {
                        if i2 != i as int {
                            assert(nodes@[i2] == pre[i2]);
                        } else {
                            assert(nodes@[i2].parents@ == pre[i2].parents@);
                            assert(nodes@[i2].children@ == pre[i2].children@);
                            assert(nodes@[i2].name@ == pre[i2].name@);
                        }
                    }
                    if all_st {
                        assert(call_free(pre_nv[i as int].1));
                        assert(fold_arena(pre_nv)[i as int] == (
                            pre_nv[i as int].0,
                            apply_fold(pre_nv[i as int].1),
                        ));
                        assert forall|p: int|
                            0 <= p < n1 implies #[trigger] arena_view(nodes@)[p] == (if p < i
                            + 1 {
                            fold_arena(pre_nv)[p]
                        } else {
                            pre_nv[p]
                        }) by {
                            if p != i as int {
                                assert(arena_view(nodes@)[p] == arena_view(pre)[p]);
                            }
                        }
                    } else {
                        assert forall|p: int|
                            i + 1 <= p < n1 implies #[trigger] arena_view(nodes@)[p]
                            == pre_nv[p] by {
                            assert(arena_view(nodes@)[p] == arena_view(pre)[p]);
                        }
                    }
                }
            },
            None => {
                proof {
                    if all_st {
                        assert forall|p: int|
                            0 <= p < n1 implies #[trigger] arena_view(nodes@)[p] == (if p < i
                            + 1 {
                            fold_arena(pre_nv)[p]
                        } else {
                            pre_nv[p]
                        }) by {
                            if p == i as int {
                                if call_free(pre_nv[i as int].1) {
                                    assert(opt_type_view(None::<Type>) == fold_pure(
                                        pre_nv[i as int].1,
                                    ));
                                    assert(apply_fold(pre_nv[i as int].1)
                                        == pre_nv[i as int].1);
                                }
                                assert(fold_arena(pre_nv)[p] == (
                                    pre_nv[p].0,
                                    if call_free(pre_nv[p].1) {
                                        apply_fold(pre_nv[p].1)
                                    } else {
                                        pre_nv[p].1
                                    },
                                ));
                            }
                        }
                    }
                }
            },
        }
        i = i + 1;
    }
    proof {
        if all_st {
            assert(arena_view(nodes@) =~= fold_arena(pre_nv));
        }
    }
}


/// Collects the per-tick entry points: the parentless formulas, in slot
/// order.
#[verifier::loop_isolation(false)]
fn collect_roots(nodes: &Vec<Formula>) -> (r: Vec<usize>)
    ensures
        r@ == roots_of(nodes@, nodes@.len() as int),
        forall|k: int| 0 <= k < r@.len() ==> (#[trigger] r@[k]) < nodes@.len(),
        forall|i2: int|
            0 <= i2 < nodes@.len() && (#[trigger] nodes@[i2].parents@).len() == 0 ==> r@.len()
                >= 1,
        r@.len() <= nodes@.len(),
{
    let n1 = nodes.len();
    let mut root_nodes: Vec<usize> = Vec::new();
    let mut i: usize = 0;
    proof {
        assert(root_nodes@ =~= roots_of(nodes@, 0));
    }
    while i < n1
        invariant
            i <= n1,
            n1 == nodes@.len(),
            root_nodes@ == roots_of(nodes@, i as int),
            forall|j2: int|
                0 <= j2 < root_nodes@.len() ==> (#[trigger] root_nodes@[j2]) < n1,
            forall|i2: int|
                0 <= i2 < i && (#[trigger] nodes@[i2].parents@).len() == 0 ==> root_nodes@.len()
                    >= 1,
            root_nodes@.len() <= i,
        decreases n1 - i,
    {
        if nodes[i].parents.len() == 0 {
            root_nodes.push(i);
        }
        i = i + 1;
        proof {
            assert(root_nodes@ =~= roots_of(nodes@, i as int));
        }
    }
    root_nodes
}

/// Hands every stateful call site of the arena its one build-time `init`.
#[verifier::loop_isolation(false)]
fn init_all<C: Callable>(nodes: &Vec<Formula>, ctx: &mut Context<C>, Ghost(fs0): Ghost<
    Seq<FnMeta>,
>)
    requires
        old(ctx).fns_m() == fs0,
        forall|i: int|
            0 <= i < nodes@.len() ==> ir_runtime_wf(
                ir_view(#[trigger] nodes@[i].ir),
                fs0.len() as int,
                nodes@.len() as int,
            ),
    ensures
        final(ctx).fns_m() == fs0,
        final(ctx).consts_m() == old(ctx).consts_m(),
{
    let n1 = nodes.len();
    let mut i: usize = 0;
    while i < n1
        invariant
            i <= n1,
            n1 == nodes@.len(),
            ctx.fns_m() == fs0,
            ctx.consts_m() == old(ctx).consts_m(),
        decreases n1 - i,
    {
        let ir = nodes[i].ir.clone();
        init_calls(&ir, ctx, Ghost(n1 as int));
        i = i + 1;
    }
}


/// A set of formulas trapped by their parent edges is trapped by the
/// references themselves, once every parent entry mirrors a reference.
proof fn lemma_trapped_to_refs(ns: Seq<Formula>, s: Set<int>)
    requires
        trapped(parents_view(ns), s),
        forall|i: int, j: int|
            0 <= i < ns.len() && 0 <= j < ns[i].parents@.len() ==> ir_refs(
                ir_view(ns[i].ir),
            ).contains((#[trigger] ns[i].parents@[j]) as int),
    ensures
        trapped_refs(arena_view(ns), s),
{
    assert forall|m: int| s.contains(m) implies 0 <= m < arena_view(ns).len() && (exists|t: int|
        #[trigger] ir_refs(arena_view(ns)[m].1).contains(t) && s.contains(t)) by {
        let j = choose|j: int|
            0 <= j < parents_view(ns)[m].len() && s.contains(
                #[trigger] parents_view(ns)[m][j] as int,
            );
        assert(parents_view(ns)[m] == ns[m].parents@);
        assert(ir_refs(ir_view(ns[m].ir)).contains(ns[m].parents@[j] as int));
        assert(arena_view(ns)[m].1 == ir_view(ns[m].ir));
    }
}

/// The graph stages after resolution: records the reverse edges, orders
/// the graph or reports a cycle (a cycle leaves a set of formulas trapped
/// by their own references), collects the roots (absent exactly when the
/// arena is empty), folds whole-tree constants, and hands out the `init`
/// calls. On nonempty, untrapped input it always succeeds; when every
/// surviving call is stateful, the final arena is exactly `fold_arena` of
/// the entry arena.
#[verifier::loop_isolation(false)]
#[verifier::rlimit(100)]
fn finish_build<C: Callable>(nodes: Vec<Formula>, ctx: Context<C>, Ghost(fs0): Ghost<
    Seq<FnMeta>,
>) -> (r: Result<Interpreter<C>, Error>)
    requires
        ctx.fns_m() == fs0,
        forall|i: int|
            0 <= i < nodes@.len() ==> ir_runtime_wf(
                ir_view(#[trigger] nodes@[i].ir),
                fs0.len() as int,
                nodes@.len() as int,
            ),
        forall|i: int, j: int|
            0 <= i < nodes@.len() && 0 <= j < nodes@[i].parents@.len() ==> (#[trigger] nodes@[i]
                .parents@[j]) < nodes@.len(),
        forall|i: int, t: int|
            0 <= i < nodes@.len() && #[trigger] ir_refs(ir_view(nodes@[i].ir)).contains(t)
                ==> exists|j: int|
                0 <= j < nodes@[i].parents@.len() && nodes@[i].parents@[j] == t,
        forall|i: int, j: int|
            0 <= i < nodes@.len() && 0 <= j < nodes@[i].parents@.len() ==> ir_refs(
                ir_view(nodes@[i].ir),
            ).contains((#[trigger] nodes@[i].parents@[j]) as int),
        forall|i: int| 0 <= i < nodes@.len() ==> (#[trigger] nodes@[i].children@).len() == 0,
        forall|i: int| 0 <= i < nodes@.len() ==> (#[trigger] nodes@[i].result) is None,
        forall|i1: int, i2: int|
            0 <= i1 < i2 < nodes@.len() ==> nodes@[i1].name@ != nodes@[i2].name@,
    ensures
        (match r {
            Ok(it) => {
                &&& it.wf()
                &&& it.nodes@.len() == nodes@.len()
                &&& (forall|p: int|
                    0 <= p < it.n() ==> (#[trigger] it.nodes@[p].children@) == child_entries(
                        parents_view(it.nodes@),
                        p,
                        it.n(),
                    ))
                &&& it.root_nodes@ == roots_of(it.nodes@, it.n())
                &&& it.root_nodes@.len() >= 1
                &&& (forall|i: int, j: int|
                    0 <= i < it.n() && 0 <= j < it.nodes@[i].parents@.len() ==> ir_refs(
                        ir_view(it.nodes@[i].ir),
                    ).contains((#[trigger] it.nodes@[i].parents@[j]) as int))
                &&& ((forall|p: int|
                    0 <= p < nodes@.len() ==> ir_calls_stateful(
                        #[trigger] arena_view(nodes@)[p].1,
                    )) ==> arena_view(it.nodes@) == fold_arena(arena_view(nodes@)))
            },
            Err(Error::Graph(GraphError::CyclicReference { from, to })) => exists|
                s: Set<int>,
                m: int,
            |
                trapped_refs(arena_view(nodes@), s) && s.contains(m),
            Err(Error::Graph(GraphError::EmptyRootSet)) => nodes@.len() == 0,
            Err(_) => false,
        }),
        (r matches Err(Error::Graph(GraphError::EmptyRootSet))) <==> nodes@.len() == 0,
        (nodes@.len() >= 1 && (forall|s: Set<int>, m: int|
            trapped_refs(arena_view(nodes@), s) ==> !(#[trigger] s.contains(m)))) ==> r is Ok,
{
    let mut nodes = nodes;
    let mut ctx = ctx;
    let n1 = nodes.len();
    let ghost resolved_nodes = nodes@;
        // record the reverse edges
        link_children(&mut nodes);
        let ghost topo_nodes = nodes@;
        proof {
            assert forall|i2: int|
                0 <= i2 < topo_nodes.len() implies (#[trigger] topo_nodes[i2]).name@
                == resolved_nodes[i2].name@ && topo_nodes[i2].parents@
                == resolved_nodes[i2].parents@ by {
                assert(topo_nodes[i2] == nodes@[i2]);
                assert(nodes@[i2].name@ == resolved_nodes[i2].name@);
                assert(nodes@[i2].parents@ == resolved_nodes[i2].parents@);
            }
            assert forall|i1: int, i2: int|
                0 <= i1 < i2 < topo_nodes.len() implies topo_nodes[i1].name@ != topo_nodes[i2]
                .name@ by {
                assert(resolved_nodes[i1].name@ != resolved_nodes[i2].name@);
            }
            assert forall|i2: int, j2: int|
                0 <= i2 < topo_nodes.len() && 0 <= j2 < topo_nodes[i2].parents@.len() implies (
                #[trigger] topo_nodes[i2].parents@[j2]) < topo_nodes.len() by {
                assert(resolved_nodes[i2].parents@[j2] < n1);
            }
            assert forall|i2: int, j2: int|
                0 <= i2 < topo_nodes.len() && 0 <= j2 < topo_nodes[i2].children@.len() implies (
                #[trigger] topo_nodes[i2].children@[j2]) < topo_nodes.len() by {
                assert(nodes@[i2].children@ == topo_nodes[i2].children@);
            }
            assert(parents_view(topo_nodes) =~= parents_view(resolved_nodes));
            assert forall|p: int|
                0 <= p < topo_nodes.len() implies (#[trigger] topo_nodes[p].children@)
                == child_entries(
                parents_view(topo_nodes),
                p,
                topo_nodes.len() as int,
            ) by {
                assert(topo_nodes[p].children@ == resolved_nodes[p].children@ + child_entries(
                    parents_view(resolved_nodes),
                    p,
                    resolved_nodes.len() as int,
                ));
                assert(resolved_nodes[p].children@.len() == 0);
                assert(resolved_nodes[p].children@ =~= Seq::<usize>::empty());
                assert(topo_nodes[p].children@ =~= child_entries(
                    parents_view(topo_nodes),
                    p,
                    topo_nodes.len() as int,
                ));
            }
        }
        // order the graph, or report a cycle
        let (order, order_pos) = match topo_order(&nodes) {
            Ok(x) => x,
            Err((p, u)) => {
                proof {
                    assert(n1 >= 1);
                    let sw = choose|sw: Set<int>|
                        trapped(parents_view(nodes@), sw) && sw.contains(p as int)
                            && sw.contains(u as int);
                    assert(trapped(parents_view(resolved_nodes), sw));
                    lemma_trapped_to_refs(resolved_nodes, sw);
                    assert(trapped_refs(arena_view(resolved_nodes), sw) && sw.contains(
                        p as int,
                    ));
                }
                return Err(
                    Error::Graph(
                        GraphError::CyclicReference {
                            from: nodes[p].name.clone(),
                            to: nodes[u].name.clone(),
                        },
                    ),
                );
            },
        };
        // the entry points for each tick
        let root_nodes: Vec<usize> = collect_roots(&nodes);
        if root_nodes.len() == 0 {
            proof {
                // an ordered, nonempty graph has a first formula, whose
                // parents all sit earlier: there are none, so it is a
                // root; no root means no formula, hence no input
                if n1 >= 1 {
                    let first = order@[0] as int;
                    assert(0 <= first < n1);
                    lemma_first_has_no_parents(parents_view(nodes@), order@, order_pos@);
                    assert(nodes@[first].parents@ == parents_view(nodes@)[first]);
                    assert(nodes@[first].parents@.len() == 0);
                    assert(root_nodes@.len() >= 1);
                }
                assert(n1 == 0);
            }
            return Err(Error::Graph(GraphError::EmptyRootSet));
        }
        proof {
            assert(n1 >= 1) by {
                if n1 == 0 {
                    assert(root_nodes@.len() == 0);
                }
            }
        }
        // fold whole-tree constants
        proof {
            assert(topo_nodes == nodes@);
            assert(arena_view(topo_nodes) =~= arena_view(resolved_nodes));
        }
        let ghost pre_fold = nodes@;
        fold_all(&mut nodes, &mut ctx, Ghost(fs0));
        proof {
            if forall|p: int|
                0 <= p < resolved_nodes.len() ==> ir_calls_stateful(
                    #[trigger] arena_view(resolved_nodes)[p].1,
                ) {
                assert forall|p: int|
                    0 <= p < pre_fold.len() implies ir_calls_stateful(
                        #[trigger] arena_view(pre_fold)[p].1,
                    ) by {
                    assert(arena_view(pre_fold)[p] == arena_view(resolved_nodes)[p]);
                }
                assert(arena_view(nodes@) == fold_arena(arena_view(pre_fold)));
                assert(fold_arena(arena_view(pre_fold)) == fold_arena(
                    arena_view(resolved_nodes),
                ));
            }
        }
        // hand every stateful call its build-time init
        init_all(&nodes, &mut ctx, Ghost(fs0));
        let it = Interpreter { ctx, nodes, root_nodes, order, order_pos };
        proof {
            assert forall|i2: int| 0 <= i2 < it.n() implies it.node_wf(i2) by {
                assert(ir_runtime_wf(
                    ir_view(it.nodes@[i2].ir),
                    it.ctx.fns_m().len() as int,
                    it.n(),
                ));
                assert(it.nodes@[i2].parents@ == topo_nodes[i2].parents@);
                assert forall|j2: int|
                    0 <= j2 < it.nodes@[i2].parents@.len() implies (#[trigger] it.nodes@[i2]
                        .parents@[j2]) < it.n() by {
                    assert(topo_nodes[i2].parents@[j2] < topo_nodes.len());
                }
                assert forall|j2: int|
                    0 <= j2 < it.nodes@[i2].children@.len() implies (#[trigger] it.nodes@[i2]
                        .children@[j2]) < it.n() by {
                    assert(topo_nodes[i2].children@[j2] < topo_nodes.len());
                }
            }
            assert(it.order_wf()) by {
                assert forall|k: int, j2: int|
                    0 <= k < it.n() && 0 <= j2 < it.nodes@[it.order@[k] as int].parents@.len()
                        implies (it.order_pos@[#[trigger] it.nodes@[it.order@[k]
                        as int].parents@[j2] as int] as int) < k by {
                    let ii = it.order@[k] as int;
                    assert(it.nodes@[ii].parents@ == topo_nodes[ii].parents@);
                }
            }
            assert forall|i1: int, i2: int|
                0 <= i1 < i2 < it.n() implies it.nodes@[i1].name@ != it.nodes@[i2].name@ by {
                assert(it.nodes@[i1].parents@ == topo_nodes[i1].parents@);
                assert(it.nodes@[i2].parents@ == topo_nodes[i2].parents@);
                assert(it.nodes@[i1].name@ == topo_nodes[i1].name@);
                assert(it.nodes@[i2].name@ == topo_nodes[i2].name@);
                assert(topo_nodes[i1].name@ != topo_nodes[i2].name@);
            }
            assert(it.wf());
            assert forall|i2: int|
                0 <= i2 < it.n() implies #[trigger] parents_view(it.nodes@)[i2] == parents_view(
                    topo_nodes,
                )[i2] by {
                assert(it.nodes@[i2].parents@ == topo_nodes[i2].parents@);
            }
            assert(parents_view(it.nodes@) =~= parents_view(topo_nodes));
            lemma_roots_of_congruent(topo_nodes, it.nodes@, it.n());
            assert(it.root_nodes@ == roots_of(it.nodes@, it.n()));
            assert forall|i2: int, j2: int|
                0 <= i2 < it.n() && 0 <= j2 < it.nodes@[i2].parents@.len() implies ir_refs(
                    ir_view(it.nodes@[i2].ir),
                ).contains((#[trigger] it.nodes@[i2].parents@[j2]) as int) by {}
            assert forall|p: int|
                0 <= p < it.n() implies (#[trigger] it.nodes@[p].children@) == child_entries(
                    parents_view(it.nodes@),
                    p,
                    it.n(),
                ) by {
                assert(it.nodes@[p].parents@ == topo_nodes[p].parents@);
                assert(it.nodes@[p].children@ == topo_nodes[p].children@);
                assert(topo_nodes[p].children@ == child_entries(
                    parents_view(topo_nodes),
                    p,
                    topo_nodes.len() as int,
                ));
            }
        }
        Ok(it)
}

} // verus!
