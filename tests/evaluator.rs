use patmat::desugar::{Expression, Tree};
use patmat::eval::{equality, Env, EvalError, Value};
use patmat::lexer::Lexer;
use patmat::parser::Parser;

fn env_of(src: &str) -> Env {
    let program = Parser::new(Lexer::new(src)).program().unwrap();
    Env::from_program(program.desugar().unwrap())
}

fn expr(src: &str) -> Expression {
    Parser::new(Lexer::new(src)).expression().unwrap().desugar().unwrap()
}

fn number(v: &Value) -> i32 {
    match v {
        Value::Number(n) => *n,
        other => panic!("not a number: {other:?}"),
    }
}

#[test]
fn calls_a_defined_function() {
    let mut env = env_of("fn id(x) -> x fn main() -> id(42)");
    let v = env.eval(expr("main()"), 10).unwrap();
    assert_eq!(number(&v), 42);
}

#[test]
fn clauses_pick_the_first_match() {
    let mut env = env_of("fn f({1, 1}) -> 42 fn f({1, x}) -> x fn f(_) -> 69");
    assert_eq!(number(&env.eval(expr("f({1, 99})"), 10).unwrap()), 99);
    assert_eq!(number(&env.eval(expr("f({1, 1})"), 10).unwrap()), 42);
    assert_eq!(number(&env.eval(expr("f(#x)"), 10).unwrap()), 69);
}

#[test]
fn recursion_stops_when_fuel_runs_out() {
    let mut env = env_of("fn spin(x) -> spin(x)");
    assert!(matches!(env.eval(expr("spin(1)"), 50), Err(EvalError::OutOfFuel)));
}

#[test]
fn recursion_over_a_list() {
    let mut env = env_of("fn len([]) -> 0 fn len([_ | t]) -> 1 + len(t)");
    assert_eq!(number(&env.eval(expr("len([5, 6, 7])"), 10).unwrap()), 3);
}

#[test]
fn arithmetic_is_checked() {
    let mut env = env_of("");
    assert_eq!(number(&env.eval(expr("1 + 2 * 3"), 1).unwrap()), 7);
    assert_eq!(number(&env.eval(expr("0 - 7 / 2"), 1).unwrap()), -3);
    assert_eq!(number(&env.eval(expr("-7 / 2"), 1).unwrap()), -3);
    assert!(matches!(env.eval(expr("2147483647 + 1"), 1), Err(EvalError::Arithmetic)));
    assert!(matches!(env.eval(expr("1 / 0"), 1), Err(EvalError::Arithmetic)));
    assert!(matches!(env.eval(expr("#a + 1"), 1), Err(EvalError::TypeMismatch)));
}

#[test]
fn equality_is_structural() {
    let mut env = env_of("");
    match env.eval(expr("{1, #a} == {1, #a}"), 1).unwrap() {
        Value::Atom(a) => assert_eq!(a, "true"),
        other => panic!("unexpected {other:?}"),
    }
    match env.eval(expr("[1] == [2]"), 1).unwrap() {
        Value::Atom(a) => assert_eq!(a, "false"),
        other => panic!("unexpected {other:?}"),
    }
    assert!(equality(&Value::Nil, &Value::Nil));
    assert!(!equality(&Value::Number(1), &Value::Atom("1".to_string())));
}

#[test]
fn if_follows_the_atom_true() {
    let mut env = env_of("");
    assert_eq!(number(&env.eval(expr("if 1 == 1 then 10 else 20"), 1).unwrap()), 10);
    assert_eq!(number(&env.eval(expr("if #no then 10 else 20"), 1).unwrap()), 20);
}

#[test]
fn unbound_name_and_failed_match() {
    let mut env = env_of("");
    assert!(matches!(env.eval(expr("nope"), 1), Err(EvalError::Unbound)));
    assert!(matches!(env.eval(expr("case 3 of 1 -> 0 end"), 1), Err(EvalError::MatchFailure)));
    assert!(matches!(env.eval(expr("1(2)"), 1), Err(EvalError::TypeMismatch)));
}

#[test]
fn tree_evaluation_selects_an_action() {
    let mut env = env_of("");
    assert_eq!(Tree::Leaf(2).eval(&mut env, 1), Ok(2));
    assert_eq!(Tree::Failure.eval(&mut env, 1), Err(EvalError::MatchFailure));
}
