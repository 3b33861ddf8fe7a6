//! A named formula: its lowered tree, its place in the dependency graph,
//! and its last computed result.
use crate::ast::expr_view;
use crate::ctx::Context;
use crate::ctx::lower_pure;
use crate::ctx::lower_stateful;
use crate::ctx::all_calls_stateful;
use crate::ctx::no_funcs;
use crate::ctx::wf_lowered;
use crate::errors::BindErrorV;
use crate::errors::Error;
use crate::errors::bind_error_view;
use crate::ir::IRNode;
use crate::ir::IRV;
use crate::ir::ir_view;
use crate::parser::parse_expression;
use crate::parser::spec_parse_source;
use crate::types::Callable;
use crate::types::Type;
use vstd::prelude::*;

verus! {

/// One formula of the graph: its name, its lowered tree, the slots of the
/// formulas it depends on (`parents`) and of those that depend on it
/// (`children`), and the result of its most recent evaluation.
#[derive(Debug)]
pub struct Formula {
    pub name: String,
    pub ir: IRNode,
    pub parents: Vec<usize>,
    pub children: Vec<usize>,
    pub result: Option<Type>,
}

impl Formula {
    /// Parses and lowers one formula source against the context. On a text
    /// the parser rejects, exactly its parse error; on an expression
    /// without calls, exactly what `lower_pure` prescribes; any success has
    /// the lowered shape, an empty neighborhood, and no result yet.
    pub fn new<C: Callable>(name: &str, expression: &str, eval_ctx: &mut Context<C>) -> (r:
        Result<Formula, Error>)
        ensures
            final(eval_ctx).fns_m() == old(eval_ctx).fns_m(),
            final(eval_ctx).consts_m() == old(eval_ctx).consts_m(),
            (match r {
                Ok(f) => {
                    &&& f.name@ == name@
                    &&& f.parents@ == Seq::<usize>::empty()
                    &&& f.children@ == Seq::<usize>::empty()
                    &&& f.result is None
                    &&& wf_lowered(ir_view(f.ir), old(eval_ctx).fns_m())
                    &&& (match spec_parse_source(expression@) {
                        Ok(ev) => (no_funcs(ev) ==> lower_pure(old(eval_ctx).consts_m(), ev)
                            == Ok::<IRV, BindErrorV>(ir_view(f.ir))) && (all_calls_stateful(
                            old(eval_ctx).fns_m(),
                            ev,
                        ) ==> lower_stateful(old(eval_ctx).fns_m(), old(eval_ctx).consts_m(), ev)
                            == Ok::<IRV, BindErrorV>(ir_view(f.ir))),
                        Err(_) => false,
                    })
                },
                Err(Error::Parse(pe)) => spec_parse_source(expression@) == Err::<
                    crate::ast::ExprV,
                    crate::lex::ParseError,
                >(pe),
                Err(Error::Bind(be)) => (match spec_parse_source(expression@) {
                    Ok(ev) => (no_funcs(ev) ==> lower_pure(old(eval_ctx).consts_m(), ev) == Err::<
                        IRV,
                        BindErrorV,
                    >(bind_error_view(be))) && (all_calls_stateful(old(eval_ctx).fns_m(), ev)
                        ==> lower_stateful(old(eval_ctx).fns_m(), old(eval_ctx).consts_m(), ev)
                        == Err::<IRV, BindErrorV>(bind_error_view(be))),
                    Err(_) => false,
                }),
                Err(Error::Graph(_)) => false,
            }),
    {
        let ast = match parse_expression(expression) {
            Ok(e) => e,
            Err(pe) => {
                return Err(Error::Parse(pe));
            },
        };
        let ir = match eval_ctx.lower(&ast) {
            Ok(ir) => ir,
            Err(be) => {
                return Err(Error::Bind(be));
            },
        };
        Ok(
            Formula {
                name: name.to_owned(),
                ir,
                parents: Vec::new(),
                children: Vec::new(),
                result: None,
            },
        )
    }
}

} // verus!
