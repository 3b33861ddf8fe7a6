//! Tests of the value sort, the tokenizer, and the parser.
use express::ast::Expression;
use express::ast::Literal;
use express::ast::Operation;
use express::lex::Arithm;
use express::lex::Lexer;
use express::lex::ParseError;
use express::lex::Token;
use express::parser::parse_expression;
use express::types::TimeStep;
use express::types::Type;

fn num(x: f64) -> Literal {
    Literal::Number(x.to_bits())
}

fn cnum(x: f64) -> Expression {
    Expression::Const(num(x))
}

fn ident(s: &str) -> Expression {
    Expression::Const(Literal::Ident(s.to_string()))
}

fn tokenize(src: &str) -> Vec<Token> {
    Lexer::new(src)
        .tokenize()
        .unwrap()
        .into_iter()
        .map(|p| p.0)
        .collect()
}

#[test]
fn test_f64() {
    let v = 0.12f64;
    let t = Type::Number(v.to_bits());
    let back = match t {
        Type::Number(b) => f64::from_bits(b),
        _ => panic!("not a number"),
    };
    assert_eq!(back, v);
    let _: Type = Type::Number(back.to_bits());
}

#[test]
fn test_string() {
    let v = "abcd".to_string();
    let t = Type::String(v.clone());
    let back = match t {
        Type::String(s) => s,
        _ => panic!("not a string"),
    };
    assert_eq!(back, v);
    let _: Type = Type::String(back);
}

#[test]
fn test_tuple() {
    let v = (0.1f64, 2.2f64);
    let t = Type::TimeStep(TimeStep { price: v.0.to_bits(), time: v.1.to_bits() });
    let back = match t {
        Type::TimeStep(ts) => (f64::from_bits(ts.price), f64::from_bits(ts.time)),
        _ => panic!("not a time step"),
    };
    assert_eq!(back, v);
    let _: Type = Type::TimeStep(TimeStep { price: back.0.to_bits(), time: back.1.to_bits() });
}

#[test]
fn test_timestep() {
    let v = TimeStep { price: 22.0f64.to_bits(), time: 11.0f64.to_bits() };
    let t = Type::TimeStep(v);
    let back = match t {
        Type::TimeStep(ts) => ts,
        _ => panic!("not a time step"),
    };
    assert_eq!(back, v);
    let _: Type = Type::TimeStep(back);
}

#[test]
fn test_op() {
    assert_eq!(tokenize("+")[0], Token::Op(Arithm::Plus));
    assert_eq!(tokenize("-")[0], Token::Op(Arithm::Minus));
    assert_eq!(tokenize("*")[0], Token::Op(Arithm::Times));
    assert_eq!(tokenize("/")[0], Token::Op(Arithm::Div));
    assert_eq!(tokenize("!")[0], Token::Op(Arithm::Fact));
    assert_eq!(tokenize("**")[0], Token::Op(Arithm::Pow));
    assert_eq!(tokenize("**garbage")[0], Token::Op(Arithm::Pow));
}

#[test]
pub fn test_simple_expr() {
    let tokens = tokenize("2 + 2 * 2");
    assert_eq!(tokens.len(), 5);
    assert_eq!(tokens[0], Token::Number(2.0f64.to_bits()));
    assert_eq!(tokens[1], Token::Op(Arithm::Plus));
    assert_eq!(tokens[2], Token::Number(2.0f64.to_bits()));
    assert_eq!(tokens[3], Token::Op(Arithm::Times));
    assert_eq!(tokens[4], Token::Number(2.0f64.to_bits()));
}

#[test]
pub fn test_paren() {
    let tokens = tokenize("(2 + 2) * 2");
    assert_eq!(tokens.len(), 7);
    assert_eq!(tokens[0], Token::LParen);
    assert_eq!(tokens[1], Token::Number(2.0f64.to_bits()));
    assert_eq!(tokens[2], Token::Op(Arithm::Plus));
    assert_eq!(tokens[3], Token::Number(2.0f64.to_bits()));
    assert_eq!(tokens[4], Token::RParen);
    assert_eq!(tokens[5], Token::Op(Arithm::Times));
    assert_eq!(tokens[6], Token::Number(2.0f64.to_bits()));
}

#[test]
pub fn test_ident() {
    let tokens = tokenize("name() + 2");
    assert_eq!(tokens.len(), 5);
    assert_eq!(tokens[0], Token::Ident(String::from("name")));
    assert_eq!(tokens[1], Token::LParen);
    assert_eq!(tokens[2], Token::RParen);
    assert_eq!(tokens[3], Token::Op(Arithm::Plus));
    assert_eq!(tokens[4], Token::Number(2.0f64.to_bits()));
}

#[test]
pub fn test_func() {
    let tokens = tokenize("fn(arg, arg2) ** 2");
    assert_eq!(tokens.len(), 8);
    assert_eq!(tokens[0], Token::Ident(String::from("fn")));
    assert_eq!(tokens[1], Token::LParen);
    assert_eq!(tokens[2], Token::Ident(String::from("arg")));
    assert_eq!(tokens[3], Token::Comma);
    assert_eq!(tokens[4], Token::Ident(String::from("arg2")));
    assert_eq!(tokens[5], Token::RParen);
    assert_eq!(tokens[6], Token::Op(Arithm::Pow));
    assert_eq!(tokens[7], Token::Number(2.0f64.to_bits()));
}

#[test]
fn test_id() {
    assert_eq!(parse_expression("hello").unwrap(), ident("hello"));
    // trailing text is not silently dropped: the whole text must be one
    // expression
    assert!(matches!(
        parse_expression("hello world"),
        Err(ParseError::UnexpectedToken(6))
    ));
}

#[test]
fn test_num() {
    assert_eq!(parse_expression("12").unwrap(), cnum(12.0));
    assert_eq!(parse_expression("22.22").unwrap(), cnum(22.22));
    assert_eq!(parse_expression("1e-10").unwrap(), cnum(1e-10));
}

#[test]
fn test_fn() {
    assert_eq!(
        parse_expression("foo()").unwrap(),
        Expression::Function { name: "foo".to_string(), args: vec![] }
    );
    assert_eq!(
        parse_expression("foo(bar(), baz())").unwrap(),
        Expression::Function {
            name: "foo".to_string(),
            args: vec![
                Expression::Function { name: "bar".to_string(), args: vec![] },
                Expression::Function { name: "baz".to_string(), args: vec![] },
            ]
        }
    );
    assert_eq!(
        parse_expression("foo(22, 2 + 2)").unwrap(),
        Expression::Function {
            name: "foo".to_string(),
            args: vec![
                cnum(22.0),
                Expression::BinOp(Box::new(cnum(2.0)), Box::new(cnum(2.0)), Operation::Plus),
            ]
        }
    );
}

#[test]
fn test_unary() {
    assert_eq!(parse_expression("-12").unwrap(), cnum(-12.0));
    assert_eq!(
        parse_expression("-ema()").unwrap(),
        Expression::UnOp(
            Operation::Minus,
            Box::new(Expression::Function { name: "ema".to_string(), args: vec![] })
        )
    );
    assert_eq!(
        parse_expression("!12").unwrap(),
        Expression::UnOp(Operation::Factorial, Box::new(cnum(12.0)))
    );
}

#[test]
fn test_bin_exp() {
    // the tree of `a ** b` holds the exponent first
    assert_eq!(
        parse_expression("2 ** 3").unwrap(),
        Expression::BinOp(Box::new(cnum(3.0)), Box::new(cnum(2.0)), Operation::Power)
    );
    // power chains associate to the right: 2 ** (3 ** 4)
    assert_eq!(
        parse_expression("2 ** 3 ** 4").unwrap(),
        Expression::BinOp(
            Box::new(Expression::BinOp(
                Box::new(cnum(4.0)),
                Box::new(cnum(3.0)),
                Operation::Power
            )),
            Box::new(cnum(2.0)),
            Operation::Power
        )
    );
}

#[test]
fn test_bin() {
    assert_eq!(
        parse_expression("12 + 12").unwrap(),
        Expression::BinOp(Box::new(cnum(12.0)), Box::new(cnum(12.0)), Operation::Plus)
    );
    assert_eq!(
        parse_expression("foo() + 12").unwrap(),
        Expression::BinOp(
            Box::new(Expression::Function { name: "foo".to_string(), args: vec![] }),
            Box::new(cnum(12.0)),
            Operation::Plus
        )
    );
    assert_eq!(
        parse_expression("12 + foo()").unwrap(),
        Expression::BinOp(
            Box::new(cnum(12.0)),
            Box::new(Expression::Function { name: "foo".to_string(), args: vec![] }),
            Operation::Plus
        )
    );
}

#[test]
fn test_bin_expr() {
    assert_eq!(
        parse_expression("2 + 2 * 2").unwrap(),
        Expression::BinOp(
            Box::new(cnum(2.0)),
            Box::new(Expression::BinOp(
                Box::new(cnum(2.0)),
                Box::new(cnum(2.0)),
                Operation::Times
            )),
            Operation::Plus
        )
    );
    assert_eq!(
        parse_expression("(2 + 2) * 2").unwrap(),
        Expression::BinOp(
            Box::new(Expression::BinOp(
                Box::new(cnum(2.0)),
                Box::new(cnum(2.0)),
                Operation::Plus
            )),
            Box::new(cnum(2.0)),
            Operation::Times
        )
    );
    assert_eq!(
        parse_expression("3.14 + (3 - 2)").unwrap(),
        Expression::BinOp(
            Box::new(cnum(3.14)),
            Box::new(Expression::BinOp(
                Box::new(cnum(3.0)),
                Box::new(cnum(2.0)),
                Operation::Minus
            )),
            Operation::Plus
        )
    );
}

#[test]
fn test_const() {
    assert_eq!(parse_expression("12").unwrap(), cnum(12.0));
}

#[test]
fn test_ref_literal() {
    assert_eq!(
        parse_expression("&foo * 2").unwrap(),
        Expression::BinOp(
            Box::new(Expression::Const(Literal::Ref("foo".to_string()))),
            Box::new(cnum(2.0)),
            Operation::Times
        )
    );
}

#[test]
fn test_number_round_trip() {
    // parsing the printed form of a double gives back exactly its bits
    for v in [0.12f64, 1e-10, 12345.6789, 2.0, 0.1, 1e300, 5e-324] {
        let printed = format!("{}", v);
        assert_eq!(parse_expression(&printed).unwrap(), cnum(v));
    }
}

#[test]
fn test_parse_errors() {
    assert!(matches!(
        parse_expression("2 + @"),
        Err(ParseError::UnexpectedToken(4))
    ));
    assert!(matches!(
        parse_expression("(2 + 1"),
        Err(ParseError::MissingRParen(0))
    ));
    assert!(matches!(
        parse_expression("2 +"),
        Err(ParseError::MissingArgument(_))
    ));
    assert!(matches!(
        parse_expression("& x"),
        Err(ParseError::UnterminatedRef(0))
    ));
    assert!(matches!(
        parse_expression("foo(1, 2"),
        Err(ParseError::MissingRParen(_))
    ));
}

#[test]
fn test_scientific_and_dots() {
    assert_eq!(parse_expression("1.5e3").unwrap(), cnum(1500.0));
    assert_eq!(parse_expression(".5").unwrap(), cnum(0.5));
    assert_eq!(parse_expression("5.").unwrap(), cnum(5.0));
    assert_eq!(parse_expression("2E+2").unwrap(), cnum(200.0));
}

#[test]
fn lib_test_f64() {
    let v = 0.12f64;
    let t = Type::Number(v.to_bits());
    let back = match t {
        Type::Number(b) => f64::from_bits(b),
        _ => panic!("not a number"),
    };
    assert_eq!(back, v);
    let _: Type = Type::Number(back.to_bits());
}

#[test]
fn lib_test_string() {
    let v = "abcd".to_string();
    let t = Type::String(v.clone());
    let back = match t {
        Type::String(s) => s,
        _ => panic!("not a string"),
    };
    assert_eq!(back, v);
    let _: Type = Type::String(back);
}

#[test]
fn lib_test_tuple() {
    let v = (0.1f64, 2.2f64);
    let t = Type::TimeStep(TimeStep { price: v.0.to_bits(), time: v.1.to_bits() });
    let back = match t {
        Type::TimeStep(ts) => (f64::from_bits(ts.price), f64::from_bits(ts.time)),
        _ => panic!("not a time step"),
    };
    assert_eq!(back, v);
    let _: Type = Type::TimeStep(TimeStep { price: back.0.to_bits(), time: back.1.to_bits() });
}
