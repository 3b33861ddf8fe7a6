//! Tests of lowering, graph building, optimization, and evaluation.
use express::ctx::Context;
use express::errors::BindError;
use express::errors::Error;
use express::interp::Interpreter;
use express::ir::IRNode;
use express::types::Callable;
use express::types::CallableType;
use express::types::TimeStep;
use express::types::Type;
use std::cell::RefCell;
use std::rc::Rc;

/// The host functions the tests register.
#[derive(Clone)]
enum HostFn {
    /// Pure two-argument sum.
    Add,
    /// The same sum, but registered as stateful, so it is never folded.
    AddStateful,
    /// Pure `log(base, value)`.
    Log,
    /// Pure successor.
    Succ,
    /// Stateful `42 + x`.
    AddAnswer,
    /// Pure: prefixes a string.
    TakeStr,
    /// Pure: repeats a string.
    Repeat,
    /// Stateful two-argument function that counts its invocations.
    State(Rc<RefCell<u32>>),
    /// Pure function that never produces a value.
    Barren,
    /// Stateful source that yields its argument a limited number of
    /// times, then runs dry.
    Limited(Rc<RefCell<u32>>),
}

fn num(x: f64) -> Type {
    Type::Number(x.to_bits())
}

fn as_f64(t: &Type) -> f64 {
    match t {
        Type::Number(b) => f64::from_bits(*b),
        _ => panic!("expected a number"),
    }
}

impl Callable for HostFn {
    fn name(&self) -> String {
        match self {
            HostFn::Add => "add".to_string(),
            HostFn::AddStateful => "add".to_string(),
            HostFn::Log => "log".to_string(),
            HostFn::Succ => "succ".to_string(),
            HostFn::AddAnswer => "add_answer".to_string(),
            HostFn::TakeStr => "take_str".to_string(),
            HostFn::Repeat => "repeat".to_string(),
            HostFn::State(_) => "state".to_string(),
            HostFn::Barren => "barren".to_string(),
            HostFn::Limited(_) => "limited".to_string(),
        }
    }

    fn argcnt(&self) -> usize {
        match self {
            HostFn::Add | HostFn::AddStateful | HostFn::Log | HostFn::Repeat | HostFn::State(_) => {
                2
            }
            HostFn::Succ | HostFn::AddAnswer | HostFn::TakeStr | HostFn::Barren
            | HostFn::Limited(_) => 1,
        }
    }

    fn of_type(&self) -> CallableType {
        match self {
            HostFn::AddStateful | HostFn::AddAnswer | HostFn::State(_) | HostFn::Limited(_) => {
                CallableType::Stateful
            }
            _ => CallableType::Pure,
        }
    }

    fn init(&mut self, _args: &Vec<Type>, _consts: &Vec<(String, u64)>) {}

    fn call(&mut self, args: &Vec<Type>) -> Option<Type> {
        match self {
            HostFn::Add | HostFn::AddStateful => {
                Some(num(as_f64(&args[0]) + as_f64(&args[1])))
            }
            HostFn::Log => Some(num(as_f64(&args[1]).log(as_f64(&args[0])))),
            HostFn::Succ => Some(num(as_f64(&args[0]) + 1.0)),
            HostFn::AddAnswer => Some(num(42.0 + as_f64(&args[0]))),
            HostFn::TakeStr => match &args[0] {
                Type::String(s) => Some(Type::String(format!("New {} ", s))),
                _ => None,
            },
            HostFn::Repeat => match &args[0] {
                Type::String(s) => Some(Type::String(s.repeat(as_f64(&args[1]) as usize))),
                _ => None,
            },
            HostFn::State(counter) => {
                *counter.borrow_mut() += 1;
                Some(num(as_f64(&args[0]) + as_f64(&args[1])))
            }
            HostFn::Barren => None,
            HostFn::Limited(left) => {
                if *left.borrow() == 0 {
                    return None;
                }
                *left.borrow_mut() -= 1;
                Some(args[0].clone())
            }
        }
    }
}

fn fml(pairs: &[(&str, &str)]) -> Vec<(String, String)> {
    pairs
        .iter()
        .map(|(a, b)| (a.to_string(), b.to_string()))
        .collect()
}

fn report_get(rep: &Vec<(String, Option<Type>)>, name: &str) -> Option<Type> {
    for (n, v) in rep {
        if n == name {
            return v.clone();
        }
    }
    panic!("no sink named {}", name);
}

fn find(intrp: &Interpreter<HostFn>, name: &str) -> usize {
    for (i, f) in intrp.nodes.iter().enumerate() {
        if f.name == name {
            return i;
        }
    }
    panic!("no formula named {}", name);
}

fn lower_one(src: &str, ctx: &mut Context<HostFn>) -> IRNode {
    let ast = express::parser::parse_expression(src).unwrap();
    ctx.lower(&ast).unwrap()
}

// --- lowering ---

#[test]
pub fn test_const_inline() {
    let mut ctx: Context<HostFn> = Context::new();
    ctx.register_constant("PI", 3.14f64.to_bits());
    assert_eq!(lower_one("PI", &mut ctx), IRNode::Value(num(3.14)));
}

#[test]
pub fn test_const_inline_add() {
    let mut ctx: Context<HostFn> = Context::new();
    ctx.register_constant("PI", 3.14f64.to_bits());
    assert_eq!(lower_one("PI + PI", &mut ctx), IRNode::Value(num(3.14 + 3.14)));
}

#[test]
pub fn test_const_inline_paren() {
    let mut ctx: Context<HostFn> = Context::new();
    ctx.register_constant("PI", 3.14f64.to_bits());
    assert_eq!(lower_one("PI + (2 - 3)", &mut ctx), IRNode::Value(num(3.14 - 1.0)));
}

#[test]
pub fn test_inline_paren() {
    let mut ctx: Context<HostFn> = Context::new();
    ctx.register_constant("TWO", 2.0f64.to_bits());
    assert_eq!(lower_one("2 + 2 * TWO", &mut ctx), IRNode::Value(num(6.0)));
}

#[test]
pub fn test_const_inline_un() {
    let mut ctx: Context<HostFn> = Context::new();
    ctx.register_constant("Foo", 1.0f64.to_bits());
    assert_eq!(lower_one("-Foo", &mut ctx), IRNode::Value(num(-1.0)));
}

#[test]
pub fn test_inline_un_expr() {
    let mut ctx: Context<HostFn> = Context::new();
    ctx.register_constant("Foo", 1.0f64.to_bits());
    assert_eq!(
        lower_one("-Foo * 2 + (10**2)", &mut ctx),
        IRNode::Value(num(-1.0 * 2.0 + 10.0f64.powf(2.0)))
    );
}

#[test]
pub fn test_inline_fn_expr() {
    let mut ctx: Context<HostFn> = Context::new();
    ctx.register_function("add_answer", HostFn::AddAnswer);
    let ir = lower_one("-add_answer(1)", &mut ctx);
    assert_eq!(
        ir,
        IRNode::UnOp(
            Box::new(IRNode::Call(
                0,
                CallableType::Stateful,
                vec![IRNode::Value(num(1.0))]
            )),
            express::ast::Operation::Minus,
        )
    );
}

#[test]
pub fn test_inline_const_fn_expr() {
    let mut ctx: Context<HostFn> = Context::new();
    ctx.register_constant("PI", 3.14f64.to_bits());
    ctx.register_function("add_answer", HostFn::AddAnswer);
    let ir = lower_one("-add_answer(1) * PI + 2", &mut ctx);
    assert_eq!(
        ir,
        IRNode::BinOp(
            Box::new(IRNode::BinOp(
                Box::new(IRNode::UnOp(
                    Box::new(IRNode::Call(
                        0,
                        CallableType::Stateful,
                        vec![IRNode::Value(num(1.0))]
                    )),
                    express::ast::Operation::Minus
                )),
                Box::new(IRNode::Value(num(3.14))),
                express::ast::Operation::Times,
            )),
            Box::new(IRNode::Value(num(2.0))),
            express::ast::Operation::Plus,
        )
    );
}

#[test]
pub fn test_pure_function_optimization() {
    let mut ctx: Context<HostFn> = Context::new();
    ctx.register_function("succ", HostFn::Succ);
    assert_eq!(lower_one("succ(succ(succ(1)))", &mut ctx), IRNode::Value(num(4.0)));
}

#[test]
pub fn test_pure_complex_optimization() {
    let mut ctx: Context<HostFn> = Context::new();
    ctx.register_constant("TWO", 2.0f64.to_bits());
    ctx.register_function("succ", HostFn::Succ);
    ctx.register_function("add_answer", HostFn::AddAnswer);
    let ir = lower_one("add_answer(succ(succ(succ(1)))**TWO)", &mut ctx);
    assert_eq!(
        ir,
        IRNode::Call(1, CallableType::Stateful, vec![IRNode::Value(num(16.0))])
    );
}

#[test]
pub fn test_all_pure_optimization() {
    let mut ctx: Context<HostFn> = Context::new();
    ctx.register_constant("TWO", 2.0f64.to_bits());
    ctx.register_function("succ", HostFn::Succ);
    ctx.register_function("add", HostFn::Add);
    assert_eq!(
        lower_one("add(4, succ(succ(succ(1)))**TWO)", &mut ctx),
        IRNode::Value(num(20.0))
    );
}

#[test]
pub fn test_all_str_optimization() {
    let mut ctx: Context<HostFn> = Context::new();
    ctx.register_function("take_str", HostFn::TakeStr);
    ctx.register_function("repeat", HostFn::Repeat);
    ctx.register_function("succ", HostFn::Succ);
    assert_eq!(
        lower_one("repeat(take_str(blah), succ(succ(succ(2))))", &mut ctx),
        IRNode::Value(Type::String(
            "New blah New blah New blah New blah New blah ".to_string()
        ))
    );
}

#[test]
fn test_bind_errors() {
    let mut ctx: Context<HostFn> = Context::new();
    ctx.register_function("add", HostFn::Add);
    let ast = express::parser::parse_expression("nosuch(1)").unwrap();
    assert!(matches!(ctx.lower(&ast), Err(BindError::UnknownFunction(_))));
    let ast = express::parser::parse_expression("add(1)").unwrap();
    assert!(matches!(
        ctx.lower(&ast),
        Err(BindError::ArityMismatch { expected: 2, got: 1 })
    ));
    let ast = express::parser::parse_expression("foo + bar").unwrap();
    assert!(matches!(ctx.lower(&ast), Err(BindError::TypeMismatch(_))));
    let mut ctx2: Context<HostFn> = Context::new();
    ctx2.register_function("barren", HostFn::Barren);
    let ast = express::parser::parse_expression("barren(1)").unwrap();
    assert!(matches!(ctx2.lower(&ast), Err(BindError::PureReturnedNone(_))));
}

#[test]
fn test_registry_lookup() {
    let mut ctx: Context<HostFn> = Context::new();
    ctx.register_constant("PI", 3.14f64.to_bits());
    ctx.register_constant("PI", 3.15f64.to_bits());
    assert_eq!(ctx.find_constant("PI"), Some(3.15f64.to_bits()));
    assert_eq!(ctx.find_constant("TAU"), None);
    ctx.register_function("add", HostFn::Add);
    ctx.register_function("log", HostFn::Log);
    assert_eq!(ctx.find_function("add"), Some(0));
    assert_eq!(ctx.find_function("log"), Some(1));
    assert_eq!(ctx.find_function("none"), None);
}

// --- interpreter ---

#[test]
pub fn simple_expression() {
    let mut ctx: Context<HostFn> = Context::new();
    ctx.register_function("add", HostFn::Add);
    let i = Interpreter::new(&fml(&[("foo", "2 + add(12 - 2, add(1, 1))")]), ctx).unwrap();
    let f = find(&i, "foo");
    assert_eq!(i.nodes[f].ir, IRNode::Value(num(14.0)));
    let mut i = i;
    let rep = i.compute_pass();
    assert_eq!(as_f64(&report_get(&rep, "foo").unwrap()), 14.0);
}

#[test]
pub fn expr_with_std_call() {
    let mut ctx: Context<HostFn> = Context::new();
    ctx.register_function("log", HostFn::Log);
    let mut intrp = Interpreter::new(&fml(&[("foo", "2+2*2+log(2,4)")]), ctx).unwrap();
    let rep = intrp.compute_pass();
    assert_eq!(as_f64(&report_get(&rep, "foo").unwrap()) as i64, 8);
}

#[test]
pub fn expr_with_ref_call() {
    let mut ctx: Context<HostFn> = Context::new();
    ctx.register_function("add", HostFn::AddStateful);
    let mut intrp =
        Interpreter::new(&fml(&[("foo", "2+2*2+add(2,4)"), ("bar", "&foo * 2")]), ctx).unwrap();
    let foo = find(&intrp, "foo");
    let bar = find(&intrp, "bar");
    let rep = intrp.compute_pass();
    assert_eq!(as_f64(&report_get(&rep, "bar").unwrap()) as i64, 24);
    assert!(!intrp.nodes[foo].children.is_empty());
    assert_eq!(intrp.nodes[foo].children[0], bar);
    assert!(intrp.nodes[bar].children.is_empty());
    assert_eq!(as_f64(intrp.nodes[foo].result.as_ref().unwrap()) as i64, 12);
}

#[test]
fn expr_opt_inline_const() {
    let mut ctx: Context<HostFn> = Context::new();
    ctx.register_function("log", HostFn::Log);
    let intrp = Interpreter::new(
        &fml(&[("far", "2 + 2 * 2 + log(2, 4)"), ("bor", "&far * 2")]),
        ctx,
    )
    .unwrap();
    let far = find(&intrp, "far");
    let bor = find(&intrp, "bor");
    assert!(intrp.nodes[far].children.is_empty());
    assert_eq!(intrp.nodes[bor].ir, IRNode::Value(num(16.0)));
}

#[test]
fn expr_opt_const_2nd_pass() {
    let mut ctx: Context<HostFn> = Context::new();
    ctx.register_function("log", HostFn::Log);
    ctx.register_function("add", HostFn::AddStateful);
    let intrp = Interpreter::new(
        &fml(&[
            ("foo", "2 + 2 * 2 + log(2, 4)"),
            ("bar", "log(2, &foo)"),
            ("fuz", "add(2, &foo)"), // stateful: kept as a live call site
        ]),
        ctx,
    )
    .unwrap();
    let bar = find(&intrp, "bar");
    assert_eq!(intrp.nodes[bar].ir, IRNode::Value(num(3.0)));
    // the single-use stateful call went through hoisting and came back
    // inlined, with the reference inside it replaced by foo's folded value
    let fuz = find(&intrp, "fuz");
    assert_eq!(
        intrp.nodes[fuz].ir,
        IRNode::Call(
            0,
            CallableType::Stateful,
            vec![IRNode::Value(num(2.0)), IRNode::Value(num(8.0))],
        )
    );
}

#[test]
pub fn expr_with_simple_cyclic_ref() {
    let ctx: Context<HostFn> = Context::new();
    let intrp = Interpreter::new(&fml(&[("foo", "11 + &bary"), ("bary", "&foo + 11")]), ctx);
    assert!(matches!(intrp, Err(_)));
}

#[test]
pub fn expr_with_nested_call() {
    let mut ctx: Context<HostFn> = Context::new();
    ctx.register_function("add", HostFn::AddStateful);
    let intrp =
        Interpreter::new(&fml(&[("foo", "add(1, add(1, add(1, add(1, 1))))")]), ctx).unwrap();
    assert!(!intrp.nodes.is_empty());
}

#[test]
pub fn expr_with_repeating_calls() {
    let mut ctx: Context<HostFn> = Context::new();
    ctx.register_function("add", HostFn::AddStateful);
    let intrp = Interpreter::new(
        &fml(&[("f1", "11 + add(1, 1)"), ("f2", "2 * add(1, 1) + add(1, 1)")]),
        ctx,
    )
    .unwrap();
    assert_eq!(intrp.nodes.len(), 3);
}

#[test]
pub fn test_compute_pass() {
    let mut ctx: Context<HostFn> = Context::new();
    ctx.register_function("add", HostFn::AddStateful);
    let mut intrp = Interpreter::new(
        &fml(&[("f1", "11 + add(1, 1)"), ("f2", "2 * add(1, 1) + add(1, 1)")]),
        ctx,
    )
    .unwrap();
    let result = intrp.compute_pass();
    assert!(!result.is_empty());
    assert_eq!(as_f64(&report_get(&result, "f1").unwrap()), 13.0);
    assert_eq!(as_f64(&report_get(&result, "f2").unwrap()), 6.0);
}

#[test]
pub fn test_compute_pass_single_end() {
    let mut ctx: Context<HostFn> = Context::new();
    ctx.register_function("add", HostFn::AddStateful);
    let mut intrp = Interpreter::new(
        &fml(&[
            ("f1", "11 + add(1, 1)"),
            ("f2", "2 * add(1, 1) + add(1, 1)"),
            ("f3", "&f1 + &f2"),
        ]),
        ctx,
    )
    .unwrap();
    let result = intrp.compute_pass();
    assert!(!result.is_empty());
    assert_eq!(result.len(), 1);
    assert_eq!(as_f64(&report_get(&result, "f3").unwrap()), 19.0);
}

#[test]
pub fn test_compute_pass_iterator() {
    let mut ctx: Context<HostFn> = Context::new();
    ctx.register_function("add", HostFn::AddStateful);
    let mut intrp = Interpreter::new(
        &fml(&[
            ("f1", "11 + add(1, 1)"),
            ("f2", "2 * add(1, 1) + add(1, 1)"),
            ("f3", "&f1 + &f2"),
        ]),
        ctx,
    )
    .unwrap();
    let result = intrp.next_tick().unwrap();
    assert!(!result.is_empty());
}

// --- the stated properties, on concrete values ---

#[test]
fn precedence_values() {
    let ctx: Context<HostFn> = Context::new();
    let mut i = Interpreter::new(&fml(&[("a", "2 + 2 * 2"), ("b", "(2 + 2) * 2")]), ctx).unwrap();
    let rep = i.compute_pass();
    assert_eq!(as_f64(&report_get(&rep, "a").unwrap()), 6.0);
    assert_eq!(as_f64(&report_get(&rep, "b").unwrap()), 8.0);
}

#[test]
fn power_right_assoc_value() {
    let ctx: Context<HostFn> = Context::new();
    let mut i = Interpreter::new(&fml(&[("p", "2 ** 3 ** 2")]), ctx).unwrap();
    let rep = i.compute_pass();
    assert_eq!(as_f64(&report_get(&rep, "p").unwrap()), 512.0);
}

#[test]
fn power_negative_and_fractional_exponents() {
    let ctx: Context<HostFn> = Context::new();
    let mut i = Interpreter::new(&fml(&[("n", "2 ** -2"), ("h", "2 ** 0.5")]), ctx).unwrap();
    let rep = i.compute_pass();
    // an exactly-integral exponent computes; a fractional one yields no
    // value
    assert_eq!(as_f64(&report_get(&rep, "n").unwrap()), 0.25);
    assert!(report_get(&rep, "h").is_none());
}

#[test]
fn ref_reads_same_tick_value() {
    let ctx: Context<HostFn> = Context::new();
    let mut i = Interpreter::new(&fml(&[("x", "1"), ("y", "&x + 1")]), ctx).unwrap();
    let rep = i.compute_pass();
    assert_eq!(as_f64(&report_get(&rep, "y").unwrap()), 2.0);
}

#[test]
fn stateful_cse_single_invocation() {
    let counter = Rc::new(RefCell::new(0u32));
    let mut ctx: Context<HostFn> = Context::new();
    ctx.register_function("state", HostFn::State(counter.clone()));
    let mut intrp = Interpreter::new(
        &fml(&[("f1", "11 + state(1,1)"), ("f2", "2 * state(1,1) + state(1,1)")]),
        ctx,
    )
    .unwrap();
    // one input formula pair plus exactly one hoisted shared formula
    assert_eq!(intrp.nodes.len(), 3);
    let rep = intrp.compute_pass();
    // one tick invoked the shared stateful call exactly once
    assert_eq!(*counter.borrow(), 1);
    assert_eq!(as_f64(&report_get(&rep, "f1").unwrap()), 13.0);
    assert_eq!(as_f64(&report_get(&rep, "f2").unwrap()), 6.0);
}

#[test]
fn unresolved_ref_rejected() {
    let ctx: Context<HostFn> = Context::new();
    let r = Interpreter::new(&fml(&[("a", "&nothing + 1")]), ctx);
    assert!(matches!(r, Err(Error::Bind(BindError::UnresolvedRef(_)))));
}

#[test]
fn cycle_rejected_as_graph_error() {
    let ctx: Context<HostFn> = Context::new();
    let r = Interpreter::new(&fml(&[("a", "11 + &b"), ("b", "&a + 11")]), ctx);
    match r {
        Err(e) => assert!(e.is_graph()),
        Ok(_) => panic!("a cyclic graph must be rejected"),
    }
}

#[test]
fn empty_input_rejected() {
    let ctx: Context<HostFn> = Context::new();
    let r = Interpreter::new(&fml(&[]), ctx);
    assert!(matches!(r, Err(Error::Graph(_))));
}

#[test]
fn parse_error_surfaces() {
    let ctx: Context<HostFn> = Context::new();
    let r = Interpreter::new(&fml(&[("a", "2 +")]), ctx);
    match r {
        Err(e) => assert!(e.is_parse()),
        Ok(_) => panic!("an ill-formed formula must be rejected"),
    }
}

#[test]
fn ticks_repeat_and_update_state() {
    let counter = Rc::new(RefCell::new(0u32));
    let mut ctx: Context<HostFn> = Context::new();
    ctx.register_function("state", HostFn::State(counter.clone()));
    let mut intrp = Interpreter::new(&fml(&[("f", "state(1,2) * 2")]), ctx).unwrap();
    let r1 = intrp.next_tick().unwrap();
    assert_eq!(as_f64(&report_get(&r1, "f").unwrap()), 6.0);
    let r2 = intrp.next_tick().unwrap();
    assert_eq!(as_f64(&report_get(&r2, "f").unwrap()), 6.0);
    assert_eq!(*counter.borrow(), 2);
}

#[test]
fn eval_reads_current_slots() {
    let counter = Rc::new(RefCell::new(0u32));
    let mut ctx: Context<HostFn> = Context::new();
    ctx.register_function("state", HostFn::State(counter));
    let mut i = Interpreter::new(&fml(&[("x", "state(1,2)"), ("y", "&x * 3")]), ctx).unwrap();
    // y reads x's slot, which holds nothing before the first tick
    let y = find(&i, "y");
    assert!(i.eval(y).is_none());
    i.compute_pass();
    assert_eq!(as_f64(&i.eval(y).unwrap()), 9.0);
}

#[test]
fn iteration_ends_when_sinks_run_dry() {
    let budget = Rc::new(RefCell::new(2u32));
    let mut ctx: Context<HostFn> = Context::new();
    ctx.register_function("limited", HostFn::Limited(budget));
    let mut i = Interpreter::new(&fml(&[("f", "limited(7)")]), ctx).unwrap();
    assert_eq!(as_f64(&report_get(&i.next_tick().unwrap(), "f").unwrap()), 7.0);
    assert_eq!(as_f64(&report_get(&i.next_tick().unwrap(), "f").unwrap()), 7.0);
    assert!(i.next_tick().is_none());
}

#[test]
fn constants_fold_in_formulas() {
    let mut ctx: Context<HostFn> = Context::new();
    ctx.register_constant("PI", 3.14f64.to_bits());
    let mut i = Interpreter::new(&fml(&[("c", "PI * 2")]), ctx).unwrap();
    let c = find(&i, "c");
    assert_eq!(i.nodes[c].ir, IRNode::Value(num(3.14 * 2.0)));
    let rep = i.compute_pass();
    assert_eq!(as_f64(&report_get(&rep, "c").unwrap()), 6.28);
}

#[test]
fn factorial_is_a_reserved_form() {
    // the factorial marker parses, and its unary meaning passes the
    // operand through
    let ctx: Context<HostFn> = Context::new();
    let mut i = Interpreter::new(&fml(&[("f", "!5")]), ctx).unwrap();
    let rep = i.compute_pass();
    assert_eq!(as_f64(&report_get(&rep, "f").unwrap()), 5.0);
}

#[test]
fn register_function_replaces_by_name() {
    let mut ctx: Context<HostFn> = Context::new();
    ctx.register_function("f", HostFn::Succ);
    ctx.register_function("f", HostFn::AddAnswer);
    assert_eq!(ctx.find_function("f"), Some(0));
    let mut i = Interpreter::new(&fml(&[("a", "f(1)")]), ctx).unwrap();
    let rep = i.compute_pass();
    assert_eq!(as_f64(&report_get(&rep, "a").unwrap()), 43.0);
}

#[test]
fn duplicate_formula_names_replace() {
    let ctx: Context<HostFn> = Context::new();
    let mut i = Interpreter::new(&fml(&[("a", "1"), ("a", "2")]), ctx).unwrap();
    let rep = i.compute_pass();
    assert_eq!(as_f64(&report_get(&rep, "a").unwrap()), 2.0);
    assert_eq!(i.nodes.len(), 1);
}

#[test]
fn division_and_subtraction_values() {
    let ctx: Context<HostFn> = Context::new();
    let mut i = Interpreter::new(&fml(&[("d", "7 / 2"), ("s", "1 - 4")]), ctx).unwrap();
    let rep = i.compute_pass();
    assert_eq!(as_f64(&report_get(&rep, "d").unwrap()), 3.5);
    assert_eq!(as_f64(&report_get(&rep, "s").unwrap()), -3.0);
}

#[test]
fn collection_values_compare_by_contents() {
    let a = Type::Collection(vec![
        TimeStep { price: 1.0f64.to_bits(), time: 0.0f64.to_bits() },
        TimeStep { price: 2.0f64.to_bits(), time: 1.0f64.to_bits() },
    ]);
    let b = Type::Collection(vec![
        TimeStep { price: 1.0f64.to_bits(), time: 0.0f64.to_bits() },
        TimeStep { price: 2.0f64.to_bits(), time: 1.0f64.to_bits() },
    ]);
    let c = Type::Collection(vec![]);
    assert_eq!(a, b);
    assert_ne!(a, c);
    assert_ne!(a, Type::Nil);
}

#[test]
fn shared_and_single_use_hoisting() {
    let counter = Rc::new(RefCell::new(0u32));
    let mut ctx: Context<HostFn> = Context::new();
    ctx.register_function("state", HostFn::State(counter.clone()));
    let mut i = Interpreter::new(
        &fml(&[
            ("f1", "state(1,1) + state(2,2)"),
            ("f2", "state(1,1) * 10"),
        ]),
        ctx,
    )
    .unwrap();
    // state(1,1) appears in both formulas and stays hoisted as one shared
    // formula; state(2,2) has one caller and is folded back into it
    assert_eq!(i.nodes.len(), 3);
    let rep = i.compute_pass();
    // one tick runs the shared call once and the inlined call once
    assert_eq!(*counter.borrow(), 2);
    assert_eq!(as_f64(&report_get(&rep, "f1").unwrap()), 6.0);
    assert_eq!(as_f64(&report_get(&rep, "f2").unwrap()), 20.0);
}
