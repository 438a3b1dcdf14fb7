use patmat::ast;
use patmat::compile::{CompileError, Constant, Ctx};
use patmat::desugar::pattern::{Problem, Row};
use patmat::desugar::{self, DesugarError, Tree};
use patmat::lexer::{Lexer, TokenKind};
use patmat::names::numbered_name;
use patmat::parser::{parse_number, ParseError, Parser};

#[test]
fn test_lexer() {
    let src = r#"
oi
42
#teste
-33330
"texi"
fn let x = 2 in x
#
->
match case 0
+-/*
"#;
    let mut lexer = Lexer::new(src);
    let mut kinds = vec![];
    while let Some(token) = lexer.next() {
        println!("{token:?}");
        kinds.push(token.kind);
    }
    assert_eq!(kinds[0], TokenKind::Identifier);
    assert_eq!(kinds[1], TokenKind::Number);
    assert_eq!(kinds[2], TokenKind::Atom);
    assert_eq!(kinds[3], TokenKind::Number);
    assert_eq!(kinds[4], TokenKind::String);
    assert_eq!(kinds[5], TokenKind::Fn);
    assert_eq!(kinds[6], TokenKind::Let);
}

#[test]
fn lexemes_drop_quotes_and_hash() {
    let mut lexer = Lexer::new(r#"#teste "texi" -33330 case x_1"#);
    let t = lexer.next_token();
    assert_eq!((t.kind, t.lexeme.as_str()), (TokenKind::Atom, "teste"));
    let t = lexer.next_token();
    assert_eq!((t.kind, t.lexeme.as_str()), (TokenKind::String, "texi"));
    let t = lexer.next_token();
    assert_eq!((t.kind, t.lexeme.as_str()), (TokenKind::Number, "-33330"));
    let t = lexer.next_token();
    assert_eq!(t.kind, TokenKind::Case);
    let t = lexer.next_token();
    assert_eq!((t.kind, t.lexeme.as_str()), (TokenKind::Identifier, "x"));
    let t = lexer.next_token();
    assert_eq!(t.kind, TokenKind::Wildcard);
    let t = lexer.next_token();
    assert_eq!(t.kind, TokenKind::Number);
    assert_eq!(lexer.next_token().kind, TokenKind::Eof);
}

#[test]
fn parser_test() {
    let src = r#"
fn id({#batata}) -> 42
fn id(#error) -> 0
fn id(x) ->
  case x of
    {} -> 1;
    _ -> 2
  end

fn main() -> id(42)
"#;
    let mut parser = Parser::new(Lexer::new(src));
    let program = parser.program().unwrap();
    assert_eq!(program.definitions.len(), 2);
    assert_eq!(program.definitions[0].clauses.len(), 3);
    let expression = program.desugar();
    println!("{expression:?}");
    let program = expression.unwrap();
    assert_eq!(program.definitions.len(), 2);
    assert_eq!(program.definitions[0].name, "id");
    assert_eq!(program.definitions[0].parameters, vec!["x_0".to_string()]);
    assert!(matches!(*program.definitions[0].body, desugar::Expression::Match { .. }));
    assert_eq!(program.definitions[1].name, "main");
    assert!(program.definitions[1].parameters.is_empty());
}

#[test]
fn mismatched_arity_is_rejected_with_the_name() {
    let src = "fn f(a, b) -> a fn f(a, b, c) -> c";
    let program = Parser::new(Lexer::new(src)).program().unwrap();
    match program.desugar() {
        Err(DesugarError::Arity { name, expected, found }) => {
            assert_eq!(name, "f");
            assert_eq!(expected, 2);
            assert_eq!(found, 3);
        }
        other => panic!("unexpected {other:?}"),
    }
}

#[test]
fn case_arm_of_wrong_arity_is_rejected() {
    let mut parser = Parser::new(Lexer::new("case 1, 2 of x -> x end"));
    let e = parser.expression().unwrap();
    match e.desugar() {
        Err(DesugarError::CaseArity { expected, found }) => {
            assert_eq!(expected, 2);
            assert_eq!(found, 1);
        }
        other => panic!("unexpected {other:?}"),
    }
}

#[test]
fn lone_variable_clause_keeps_its_names() {
    let program = Parser::new(Lexer::new("fn second(_, y) -> y")).program().unwrap();
    let program = program.desugar().unwrap();
    let f = &program.definitions[0];
    assert_eq!(f.parameters, vec!["x_0".to_string(), "y".to_string()]);
    assert!(matches!(*f.body, desugar::Expression::Variable { .. }));
    let mut ctx = Ctx::new();
    assert!(ctx.fn_definition(program.definitions.into_iter().next().unwrap()).is_ok());
}

#[test]
fn later_definition_replaces_earlier_one() {
    let program = Parser::new(Lexer::new("fn f() -> 1 fn g() -> 2 fn f() -> 3"))
        .program()
        .unwrap();
    assert_eq!(program.definitions.len(), 3);
    let program = program.desugar().unwrap();
    assert_eq!(program.definitions.len(), 2);
    assert_eq!(program.definitions[0].name, "f");
    assert!(matches!(*program.definitions[0].body, desugar::Expression::Number { value: 3 }));
}

#[test]
fn catch_all_clause_leaves_no_failure() {
    fn has_failure(t: &Tree) -> bool {
        match t {
            Tree::Failure => true,
            Tree::Leaf(_) => false,
            Tree::Switch(_, bs, d) => bs.iter().any(|(_, t)| has_failure(t)) || has_failure(d),
        }
    }
    let pats = vec![
        vec![desugar::Pattern::Number { value: 1 }, desugar::Pattern::Tuple {
            elements: vec![desugar::Pattern::Wildcard, desugar::Pattern::Atom { value: "a".to_string() }],
        }],
        vec![desugar::Pattern::Nil, desugar::Pattern::Wildcard],
        vec![desugar::Pattern::Wildcard, desugar::Pattern::Variable { name: "z".to_string() }],
    ];
    let scrutinee = vec![
        desugar::Expression::Variable { name: "p".to_string() },
        desugar::Expression::Variable { name: "q".to_string() },
    ];
    let tree = Problem::new(pats, scrutinee).derive();
    assert!(!has_failure(&tree));
    assert!(matches!(tree, Tree::Switch(..)));
}

#[test]
fn without_catch_all_failure_remains() {
    let pats = vec![vec![desugar::Pattern::Number { value: 1 }]];
    let scrutinee = vec![desugar::Expression::Variable { name: "p".to_string() }];
    let tree = Problem::new(pats, scrutinee).derive();
    match tree {
        Tree::Switch(_, bs, d) => {
            assert_eq!(bs.len(), 1);
            assert!(matches!(bs[0].1, Tree::Leaf(0)));
            assert!(matches!(*d, Tree::Failure));
        }
        other => panic!("unexpected {other:?}"),
    }
}

#[test]
fn empty_matrix_fails_and_empty_row_is_a_leaf() {
    assert!(matches!(Problem { matrix: vec![] }.derive(), Tree::Failure));
    let p = Problem { matrix: vec![Row(vec![], 4)] };
    assert_eq!(p.matching_leaf(), Some(4));
    assert!(matches!(p.derive(), Tree::Leaf(4)));
}

#[test]
fn scrutinee_that_is_not_a_variable_is_let_bound() {
    let scrutinee = vec![desugar::Expression::Number { value: 5 }];
    let pats = vec![vec![desugar::Pattern::Variable { name: "n".to_string() }]];
    let actions = vec![desugar::Expression::Variable { name: "n".to_string() }];
    match Problem::compile(scrutinee, pats, actions) {
        desugar::Expression::Let { bind, .. } => assert_eq!(bind, "a_1"),
        other => panic!("unexpected {other:?}"),
    }
}

#[test]
fn binders_replay_their_paths() {
    let p = desugar::Pattern::Tuple {
        elements: vec![
            desugar::Pattern::Wildcard,
            desugar::Pattern::Cons {
                head: Box::new(desugar::Pattern::Variable { name: "h".to_string() }),
                tail: Box::new(desugar::Pattern::Variable { name: "t".to_string() }),
            },
        ],
    };
    let bs = p.binders(desugar::Expression::Variable { name: "v".to_string() });
    assert_eq!(bs.len(), 2);
    assert_eq!(bs[0].0, "h");
    assert_eq!(bs[0].1 .1, vec![desugar::Acc::Tup(1), desugar::Acc::Head]);
    assert_eq!(bs[1].0, "t");
    assert_eq!(bs[1].1 .1, vec![desugar::Acc::Tup(1), desugar::Acc::Tail]);
}

#[test]
fn numbered_names_are_decimal() {
    assert_eq!(numbered_name("a_", 12), "a_12");
    assert_eq!(numbered_name("x_", 0), "x_0");
    assert_eq!(numbered_name("x_", 907), "x_907");
}

#[test]
fn numbers_parse_within_32_bits() {
    assert_eq!(parse_number(&"-33330".to_string()), Some(-33330));
    assert_eq!(parse_number(&"2147483647".to_string()), Some(i32::MAX));
    assert_eq!(parse_number(&"-2147483648".to_string()), Some(i32::MIN));
    assert_eq!(parse_number(&"2147483648".to_string()), None);
    assert_eq!(parse_number(&"-".to_string()), None);
    assert_eq!(parse_number(&"12a".to_string()), None);
}

#[test]
fn parse_errors_name_what_was_expected() {
    let mut parser = Parser::new(Lexer::new("let 1 = 2 in 3"));
    assert!(matches!(
        parser.expression(),
        Err(ParseError::Expected { expected: TokenKind::Identifier, .. })
    ));
    let mut parser = Parser::new(Lexer::new(")"));
    assert!(matches!(parser.expression(), Err(ParseError::ExpectedPrimary { .. })));
    let mut parser = Parser::new(Lexer::new("case 1 of ) -> 2 end"));
    assert!(matches!(parser.expression(), Err(ParseError::ExpectedPattern { .. })));
    let mut parser = Parser::new(Lexer::new("99999999999"));
    assert!(matches!(parser.expression(), Err(ParseError::NumberOutOfRange { .. })));
}

#[test]
fn operators_parse_by_precedence() {
    let mut parser = Parser::new(Lexer::new("1 + 2 * 3 == 7"));
    match parser.expression().unwrap() {
        ast::Expression::Binary { op: ast::Operation::Equal, lhs, .. } => match *lhs {
            ast::Expression::Binary { op: ast::Operation::Add, rhs, .. } => {
                assert!(matches!(*rhs, ast::Expression::Binary { op: ast::Operation::Mul, .. }))
            }
            other => panic!("unexpected {other:?}"),
        },
        other => panic!("unexpected {other:?}"),
    }
}

#[test]
fn arithmetic_is_not_compiled() {
    let e = Parser::new(Lexer::new("1 + 2")).expression().unwrap().desugar().unwrap();
    let mut ctx = Ctx::new();
    assert!(matches!(ctx.compile_expr(e), Err(CompileError::Unsupported)));
}

#[test]
fn unbound_variable_is_reported() {
    let e = Parser::new(Lexer::new("y")).expression().unwrap().desugar().unwrap();
    let mut ctx = Ctx::new();
    match ctx.compile_expr(e) {
        Err(CompileError::UnboundVariable(name)) => assert_eq!(name, "y"),
        other => panic!("unexpected {other:?}"),
    }
}

#[test]
fn leaf_without_action_is_reported() {
    let e = desugar::Expression::Match { tree: Tree::Leaf(3), actions: vec![] };
    let mut ctx = Ctx::new();
    assert!(matches!(ctx.compile_expr(e), Err(CompileError::InvalidAction)));
}

#[test]
fn pool_overflow_is_reported() {
    let mut elements = Vec::new();
    for i in 0..65537 {
        elements.push(desugar::Expression::Atom { value: format!("c{i}") });
    }
    let mut ctx = Ctx::new();
    assert!(matches!(
        ctx.compile_expr(desugar::Expression::Tuple { elements }),
        Err(CompileError::ConstantPoolOverflow)
    ));
}

#[test]
fn make_constant_reuses_equal_constants() {
    let mut ctx = Ctx::new();
    assert_eq!(ctx.make_constant(Constant::Atom("a".to_string())).unwrap(), 0);
    assert_eq!(ctx.make_constant(Constant::Number(7)).unwrap(), 1);
    assert_eq!(ctx.make_constant(Constant::Atom("a".to_string())).unwrap(), 0);
    assert_eq!(ctx.make_constant(Constant::String("a".to_string())).unwrap(), 2);
    let info = ctx.bytecode();
    assert_eq!(info.constants.len(), 3);
}

#[test]
fn branches_come_in_canonical_order() {
    let pats = vec![
        vec![desugar::Pattern::Number { value: 2 }],
        vec![desugar::Pattern::Atom { value: "b".to_string() }],
        vec![desugar::Pattern::Number { value: 1 }],
        vec![desugar::Pattern::Atom { value: "a".to_string() }],
        vec![desugar::Pattern::Number { value: 2 }],
        vec![desugar::Pattern::Wildcard],
    ];
    let scrutinee = vec![desugar::Expression::Variable { name: "p".to_string() }];
    match Problem::new(pats, scrutinee).derive() {
        Tree::Switch(_, bs, _) => {
            assert_eq!(bs.len(), 4);
            assert!(matches!(bs[0].0, desugar::Cond::Number(1)));
            assert!(matches!(bs[1].0, desugar::Cond::Number(2)));
            assert!(matches!(&bs[2].0, desugar::Cond::Atom(a) if a == "a"));
            assert!(matches!(&bs[3].0, desugar::Cond::Atom(a) if a == "b"));
        }
        other => panic!("unexpected {other:?}"),
    }
}

#[test]
fn first_failing_definition_gives_the_error() {
    let src = "fn ok(x) -> x fn bad(a) -> a fn bad(a, b) -> b fn worse(a) -> a fn worse() -> 1";
    let program = Parser::new(Lexer::new(src)).program().unwrap();
    match program.desugar() {
        Err(DesugarError::Arity { name, .. }) => assert_eq!(name, "bad"),
        other => panic!("unexpected {other:?}"),
    }
}

#[test]
fn generated_scrutinee_names_avoid_user_names() {
    let scrutinee = vec![desugar::Expression::Number { value: 5 }];
    let pats = vec![vec![desugar::Pattern::Variable { name: "a_1".to_string() }]];
    let actions = vec![desugar::Expression::Variable { name: "a_1".to_string() }];
    match Problem::compile(scrutinee, pats, actions) {
        desugar::Expression::Let { bind, .. } => assert_eq!(bind, "aaa_1"),
        other => panic!("unexpected {other:?}"),
    }
}
