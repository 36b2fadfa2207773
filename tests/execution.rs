use exprflow::evaluate;
use exprflow::Evaluatable;
use exprflow::execution::{combine, ArithOp, Dtype, ExecutionGraph, FloatKernel, Var};
use exprflow::lexer::{lex, Term, Token};
use exprflow::parser::{parse, ParseNode};

struct F64Kernel;

impl FloatKernel for F64Kernel {
    fn from_literal(text: &str) -> u64 {
        text.parse::<f64>().unwrap().to_bits()
    }

    fn from_int(i: i64) -> u64 {
        (i as f64).to_bits()
    }

    fn apply(op: ArithOp, a: u64, b: u64) -> u64 {
        let (x, y) = (f64::from_bits(a), f64::from_bits(b));
        let r = match op {
            ArithOp::Add => x + y,
            ArithOp::Mul => x * y,
            ArithOp::Sub => x - y,
        };
        r.to_bits()
    }
}

fn floats(v: &Var) -> Vec<f64> {
    v.float_bits().unwrap().iter().map(|b| f64::from_bits(*b)).collect()
}

fn float_var(xs: &[f64]) -> Var {
    Var::FloatV(xs.iter().map(|x| x.to_bits()).collect())
}

#[test]
fn test_addition() {
    let a_node = ParseNode {
        dependencies: vec![],
        token: Token::Term(Term::IntV(5)),
    };

    let b_node = ParseNode {
        dependencies: vec![],
        token: Token::Term(Term::IntV(15)),
    };

    let c_node = ParseNode {
        dependencies: vec![a_node, b_node],
        token: Token::Plus,
    };

    let mut g = ExecutionGraph::build_execution_graph(&c_node).unwrap();
    let handle = g.subscribe().unwrap();
    g.initialize::<F64Kernel>().unwrap();
    let result = g.recv(&handle).unwrap();
    assert_eq!(result.i64().unwrap().to_owned(), vec![20i64]);
}

#[test]
fn end_to_end() {
    let program = "5 * (10 + 3)";
    let tokens = lex(program).unwrap();
    let ast = parse(&tokens).unwrap();
    let mut g = ExecutionGraph::build_execution_graph(&ast).unwrap();
    let handle = g.subscribe().unwrap();
    g.initialize::<F64Kernel>().unwrap();
    let result = g.recv(&handle).unwrap();
    assert_eq!(result.i64().unwrap().to_owned(), vec![65]);
}

#[test]
fn end_to_end_with_par_iter() {
    let program = "5 * (10 + 3)";
    let tokens = lex(program).unwrap();
    let ast = parse(&tokens).unwrap();
    let mut g = ExecutionGraph::build_execution_graph(&ast).unwrap();
    let handle = g.subscribe().unwrap();
    g.initialize_par_iter::<F64Kernel>().unwrap();
    let result = g.recv(&handle).unwrap();
    assert_eq!(result.i64().unwrap().to_owned(), vec![65]);
}

#[test]
fn int_plus_float_promotes() {
    let l = Var::IntV(vec![1, 2]);
    let r = float_var(&[0.5, 0.25]);
    let sum = combine::<F64Kernel>(ArithOp::Add, &l, &r).unwrap();
    assert_eq!(sum.dtype(), Dtype::Float);
    assert_eq!(floats(&sum), vec![1.5, 2.25]);
    let diff = combine::<F64Kernel>(ArithOp::Sub, &r, &l).unwrap();
    assert_eq!(floats(&diff), vec![-0.5, -1.75]);
    let prod = combine::<F64Kernel>(ArithOp::Mul, &r, &r).unwrap();
    assert_eq!(floats(&prod), vec![0.25, 0.0625]);
}

#[test]
fn bool_operands_are_invalid() {
    let b = Var::BoolV(vec![true]);
    let i = Var::IntV(vec![1]);
    let f = float_var(&[1.0]);
    assert_eq!(combine::<F64Kernel>(ArithOp::Add, &b, &i).unwrap_err(), "Invalid types");
    assert_eq!(combine::<F64Kernel>(ArithOp::Mul, &f, &b).unwrap_err(), "Invalid types");
    assert_eq!(combine::<F64Kernel>(ArithOp::Sub, &b, &b).unwrap_err(), "Invalid types");
}

#[test]
fn zip_truncates_to_shorter() {
    let l = Var::IntV(vec![1, 2, 3]);
    let r = Var::IntV(vec![10, 20, 30, 40, 50]);
    let sum = combine::<F64Kernel>(ArithOp::Add, &l, &r).unwrap();
    assert_eq!(sum.i64().unwrap().to_owned(), vec![11, 22, 33]);
    let prod = combine::<F64Kernel>(ArithOp::Mul, &r, &l).unwrap();
    assert_eq!(prod.i64().unwrap().to_owned(), vec![10, 40, 90]);
    let mixed = combine::<F64Kernel>(ArithOp::Sub, &float_var(&[1.0, 2.0, 3.0, 4.0, 5.0]), &l).unwrap();
    assert_eq!(floats(&mixed), vec![0.0, 0.0, 0.0]);
}

#[test]
fn integer_overflow_is_an_error() {
    let l = Var::IntV(vec![i64::MAX]);
    let r = Var::IntV(vec![1]);
    assert_eq!(combine::<F64Kernel>(ArithOp::Add, &l, &r).unwrap_err(), "Integer overflow");
    assert_eq!(combine::<F64Kernel>(ArithOp::Sub, &Var::IntV(vec![i64::MIN]), &r).unwrap_err(), "Integer overflow");
}

#[test]
fn fan_out_delivers_to_every_subscriber() {
    let tokens = lex("2 * 21").unwrap();
    let ast = parse(&tokens).unwrap();
    let mut g = ExecutionGraph::build_execution_graph(&ast).unwrap();
    let a = g.subscribe().unwrap();
    let b = g.subscribe().unwrap();
    let c = g.subscribe().unwrap();
    g.initialize_par_iter::<F64Kernel>().unwrap();
    for h in [&a, &b, &c] {
        let v = g.recv(h).unwrap();
        assert_eq!(v.i64().unwrap().to_owned(), vec![42]);
    }
    assert!(g.recv(&a).is_none());
}

#[test]
fn graph_computes_once() {
    let tokens = lex("1 + 1").unwrap();
    let ast = parse(&tokens).unwrap();
    let mut g = ExecutionGraph::build_execution_graph(&ast).unwrap();
    let h = g.subscribe().unwrap();
    g.initialize::<F64Kernel>().unwrap();
    assert_eq!(g.initialize::<F64Kernel>().unwrap_err(), "Graph already computed");
    assert_eq!(g.initialize_par_iter::<F64Kernel>().unwrap_err(), "Graph already computed");
    assert_eq!(g.recv(&h).unwrap().i64().unwrap().to_owned(), vec![2]);
}

#[test]
fn variables_and_other_operators_do_not_build() {
    for text in [":a + 1", ":a", "1 < 2", "sin 1", "true && false"] {
        let tokens = lex(text).unwrap();
        let ast = parse(&tokens).unwrap();
        assert!(ExecutionGraph::build_execution_graph(&ast).is_err(), "{text}");
    }
}

#[test]
fn failing_node_fails_both_schedulers() {
    let tokens = lex("true + 1").unwrap();
    let ast = parse(&tokens).unwrap();
    let mut g = ExecutionGraph::build_execution_graph(&ast).unwrap();
    assert_eq!(g.initialize::<F64Kernel>().unwrap_err(), "Invalid types");
    let mut g = ExecutionGraph::build_execution_graph(&ast).unwrap();
    assert_eq!(g.initialize_par_iter::<F64Kernel>().unwrap_err(), "Failed initialization");
}

#[test]
fn schedulers_agree_on_nested_expression() {
    let tokens = lex("1 + (2 * (3 - (4 * 5)))").unwrap();
    let ast = parse(&tokens).unwrap();
    let mut g1 = ExecutionGraph::build_execution_graph(&ast).unwrap();
    let h1 = g1.subscribe().unwrap();
    g1.initialize::<F64Kernel>().unwrap();
    let mut g2 = ExecutionGraph::build_execution_graph(&ast).unwrap();
    let h2 = g2.subscribe().unwrap();
    g2.initialize_par_iter::<F64Kernel>().unwrap();
    let v1 = g1.recv(&h1).unwrap().i64().unwrap().to_owned();
    let v2 = g2.recv(&h2).unwrap().i64().unwrap().to_owned();
    assert_eq!(v1, vec![-33]);
    assert_eq!(v1, v2);
}

#[test]
fn evaluate_one_value_per_line() {
    let values = evaluate::<F64Kernel>("5 * (10 + 3)\n1.5 + 2\n10 - 3 - 2").unwrap();
    assert_eq!(values.len(), 3);
    assert_eq!(values[0].i64().unwrap().to_owned(), vec![65]);
    assert_eq!(floats(&values[1]), vec![3.5]);
    assert_eq!(values[2].i64().unwrap().to_owned(), vec![9]);
    assert_eq!(values[0].bool(), None);
}

#[test]
fn evaluate_failures() {
    assert_eq!(evaluate::<F64Kernel>("1 + 2\n3 ? 4").unwrap_err(), "Unexpected character: ?");
    assert_eq!(evaluate::<F64Kernel>("1 +").unwrap_err(), "Failed to parse");
    assert_eq!(evaluate::<F64Kernel>(":a + 1").unwrap_err(), "Failed to build");
    assert_eq!(evaluate::<F64Kernel>("true * 2").unwrap_err(), "Failed initialization");
    assert_eq!(evaluate::<F64Kernel>("").unwrap().len(), 0);
}

#[test]
fn string_is_its_own_source() {
    let text = "2 * 3".to_string().to_owned_string().unwrap();
    assert_eq!(text, "2 * 3");
    let values = evaluate::<F64Kernel>(&text).unwrap();
    assert_eq!(values[0].i64().unwrap().to_owned(), vec![6]);
}

#[test]
fn constant_fans_out_to_three_subscribers() {
    let node = ParseNode {
        dependencies: vec![],
        token: Token::Term(Term::IntV(5)),
    };
    let mut g = ExecutionGraph::build_execution_graph(&node).unwrap();
    let r1 = g.subscribe().unwrap();
    let r2 = g.subscribe().unwrap();
    let r3 = g.subscribe().unwrap();
    g.initialize::<F64Kernel>().unwrap();
    for h in [&r1, &r2, &r3] {
        assert_eq!(g.recv(h).unwrap().i64().unwrap().to_owned(), vec![5]);
        assert!(g.recv(h).is_none());
    }
}

#[test]
fn failed_initialize_leaves_root_empty() {
    let tokens = lex("true + 1").unwrap();
    let ast = parse(&tokens).unwrap();
    let mut g = ExecutionGraph::build_execution_graph(&ast).unwrap();
    let h = g.subscribe().unwrap();
    assert_eq!(g.initialize::<F64Kernel>().unwrap_err(), "Invalid types");
    assert!(g.recv(&h).is_none());
}

#[test]
fn failed_parallel_initialize_leaves_root_empty() {
    let tokens = lex("2 + (true + 1)").unwrap();
    let ast = parse(&tokens).unwrap();
    let mut g = ExecutionGraph::build_execution_graph(&ast).unwrap();
    let h = g.subscribe().unwrap();
    assert_eq!(g.initialize_par_iter::<F64Kernel>().unwrap_err(), "Failed initialization");
    assert!(g.recv(&h).is_none());
}

#[test]
fn second_initialize_delivers_nothing() {
    let tokens = lex("3 * 4").unwrap();
    let ast = parse(&tokens).unwrap();
    let mut g = ExecutionGraph::build_execution_graph(&ast).unwrap();
    let h = g.subscribe().unwrap();
    g.initialize::<F64Kernel>().unwrap();
    assert_eq!(g.recv(&h).unwrap().i64().unwrap().to_owned(), vec![12]);
    assert!(g.initialize::<F64Kernel>().is_err());
    assert!(g.recv(&h).is_none());
}

#[test]
fn malformed_float_text_does_not_build() {
    for text in ["abc", "", "1.2.3", ".5"] {
        let node = ParseNode {
            dependencies: vec![],
            token: Token::Term(Term::FloatV(text.to_string())),
        };
        assert!(ExecutionGraph::build_execution_graph(&node).is_err(), "{text}");
    }
    let node = ParseNode {
        dependencies: vec![],
        token: Token::Term(Term::FloatV("2.5".to_string())),
    };
    assert!(ExecutionGraph::build_execution_graph(&node).is_ok());
}
