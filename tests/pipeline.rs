use patmat::compile::{Bytecode, BytecodeInfo, Ctx, Machine, Value, VmError};
use patmat::lexer::Lexer;
use patmat::parser::Parser;

fn compile_source(src: &str) -> BytecodeInfo {
    let mut parser = Parser::new(Lexer::new(src));
    let expr = parser.expression().unwrap();
    let expr = expr.desugar().unwrap();
    let mut ctx = Ctx::new();
    ctx.fn_clause(expr).unwrap();
    ctx.bytecode()
}

fn run(info: &BytecodeInfo) -> (Result<(), VmError>, Vec<Value>) {
    let mut machine = Machine::new(info);
    let mut stack = vec![];
    let mut locals = Vec::new();
    for _ in 0..info.locals + 1 {
        locals.push(Value::default());
    }
    let r = machine.run(&mut stack, locals);
    (r, stack)
}

fn number(v: &Value) -> i32 {
    match v {
        Value::Number(n) => *n,
        other => panic!("not a number: {other:?}"),
    }
}

#[test]
fn test_compile() {
    let src = r#"
case [1, 2] of
  [2, 3] -> 4;
  _ -> 0
end
"#;
    let info = compile_source(src);
    for (idx, b) in info.bytecode.iter().enumerate() {
        println!("{idx}: {b:?}");
    }
    for (c, id) in info.constants.iter() {
        println!("{c:?}: {id}");
    }
    println!("locals = {}", info.locals);
    let (r, stack) = run(&info);
    println!("{stack:?}");
    assert!(r.is_ok());
    assert_eq!(number(stack.last().unwrap()), 0);
}

#[test]
fn first_match_wins_over_later_clauses() {
    let src = r#"
let x = {1, 99} in
case x of
  {1, 1} -> 42;
  {1, x} -> x;
  "oi"   -> "tchau";
  _      -> 69
end
"#;
    let info = compile_source(src);
    let (r, stack) = run(&info);
    assert!(r.is_ok());
    assert_eq!(number(stack.last().unwrap()), 99);
}

#[test]
fn first_clause_taken_when_it_matches() {
    let src = "case {1, 1} of {1, 1} -> 42; {1, x} -> x; _ -> 69 end";
    let (r, stack) = run(&compile_source(src));
    assert!(r.is_ok());
    assert_eq!(number(stack.last().unwrap()), 42);
}

#[test]
fn wildcard_catches_a_string() {
    let src = r#"case "oi" of {1, 1} -> 42; "oi" -> "tchau"; _ -> 69 end"#;
    let (r, stack) = run(&compile_source(src));
    assert!(r.is_ok());
    match stack.last().unwrap() {
        Value::String(s) => assert_eq!(s, "tchau"),
        other => panic!("unexpected {other:?}"),
    }
}

#[test]
fn list_mismatch_falls_to_default() {
    let src = "case [1, 2] of [2, 3] -> 4; _ -> 0 end";
    let (r, stack) = run(&compile_source(src));
    assert!(r.is_ok());
    assert_eq!(number(stack.last().unwrap()), 0);
}

#[test]
fn list_pattern_with_tail_binds_head_and_tail() {
    let src = "case [1, 2, 3] of [] -> 0; [h | t] -> {h, t} end";
    let (r, stack) = run(&compile_source(src));
    assert!(r.is_ok());
    match stack.last().unwrap() {
        Value::Tuple(vs) => {
            assert_eq!(vs.len(), 2);
            assert_eq!(number(&vs[0]), 1);
            match &vs[1] {
                Value::Cons(h, _) => assert_eq!(number(h), 2),
                other => panic!("unexpected {other:?}"),
            }
        }
        other => panic!("unexpected {other:?}"),
    }
}

#[test]
fn empty_list_matches_nil() {
    let src = "case [] of [x | _] -> x; [] -> 7 end";
    let (r, stack) = run(&compile_source(src));
    assert!(r.is_ok());
    assert_eq!(number(stack.last().unwrap()), 7);
}

#[test]
fn tuple_elements_keep_their_order() {
    let info = compile_source("{1, 2, 3}");
    let (r, stack) = run(&info);
    assert!(r.is_ok());
    match stack.last().unwrap() {
        Value::Tuple(vs) => {
            let ns: Vec<i32> = vs.iter().map(number).collect();
            assert_eq!(ns, vec![1, 2, 3]);
        }
        other => panic!("unexpected {other:?}"),
    }
}

#[test]
fn repeated_atom_gets_one_pool_entry() {
    let info = compile_source("{#ok, #ok, #ok}");
    assert_eq!(info.constants.len(), 1);
    let ids: Vec<u16> = info
        .bytecode
        .iter()
        .filter_map(|b| match b {
            Bytecode::LoadConstant { id } => Some(*id),
            _ => None,
        })
        .collect();
    assert_eq!(ids, vec![0, 0, 0]);
}

#[test]
fn distinct_constants_get_ids_in_order() {
    let info = compile_source(r#"{#ok, "ok", #err, #ok}"#);
    assert_eq!(info.constants.len(), 3);
    let ids: Vec<u16> = info
        .bytecode
        .iter()
        .filter_map(|b| match b {
            Bytecode::LoadConstant { id } => Some(*id),
            _ => None,
        })
        .collect();
    assert_eq!(ids, vec![0, 1, 2, 0]);
    let (r, stack) = run(&info);
    assert!(r.is_ok());
    match stack.last().unwrap() {
        Value::Tuple(vs) => match (&vs[1], &vs[2]) {
            (Value::String(s), Value::Atom(a)) => {
                assert_eq!(s, "ok");
                assert_eq!(a, "err");
            }
            other => panic!("unexpected {other:?}"),
        },
        other => panic!("unexpected {other:?}"),
    }
}

#[test]
fn branch_targets_lie_within_the_code() {
    let src = r#"
let x = {1, 99} in
case x of
  {1, 1} -> 42;
  {1, x} -> x;
  "oi"   -> "tchau";
  _      -> 69
end
"#;
    let info = compile_source(src);
    let n = info.bytecode.len();
    assert!(matches!(info.bytecode[n - 1], Bytecode::Return));
    for (i, b) in info.bytecode.iter().enumerate() {
        let target = match b {
            Bytecode::TestExact { branch, .. }
            | Bytecode::TestTuple { branch, .. }
            | Bytecode::TestCons { branch }
            | Bytecode::TestNil { branch } => Some(*branch),
            Bytecode::Jump { index } => Some(*index),
            _ => None,
        };
        if let Some(t) = target {
            assert!(i < t && t < n, "instruction {i} branches to {t}");
        }
    }
}

#[test]
fn if_takes_the_then_branch_on_true() {
    let (r, stack) = run(&compile_source("if #true then 1 else 2"));
    assert!(r.is_ok());
    assert_eq!(number(stack.last().unwrap()), 1);
    let (r, stack) = run(&compile_source("if #false then 1 else 2"));
    assert!(r.is_ok());
    assert_eq!(number(stack.last().unwrap()), 2);
}

#[test]
fn non_exhaustive_case_fails_at_run_time() {
    let (r, _) = run(&compile_source("case 3 of 1 -> 0 end"));
    assert_eq!(r, Err(VmError::MatchFailure));
}

#[test]
fn multiple_scrutinees_are_matched_together() {
    let src = "case 1, {2, 3} of 1, {2, y} -> y; _, _ -> 0 end";
    let (r, stack) = run(&compile_source(src));
    assert!(r.is_ok());
    assert_eq!(number(stack.last().unwrap()), 3);
}
