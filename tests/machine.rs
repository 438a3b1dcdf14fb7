use patmat::compile::{Bytecode, BytecodeInfo, Ctx, Machine, Value, VmError};

fn info_of(code: Vec<Bytecode>) -> BytecodeInfo {
    let mut ctx = Ctx::new();
    let mut info = ctx.bytecode();
    info.bytecode = code;
    info
}

fn run_code(code: Vec<Bytecode>) -> (Result<(), VmError>, Vec<Value>) {
    let info = info_of(code);
    let mut machine = Machine::new(&info);
    let mut stack = vec![];
    let r = machine.run(&mut stack, vec![Value::default()]);
    (r, stack)
}

#[test]
fn projection_of_a_non_tuple_is_a_type_mismatch() {
    let (r, _) = run_code(vec![Bytecode::PushNumber { val: 1 }, Bytecode::GetTuple { index: 0 }, Bytecode::Return]);
    assert_eq!(r, Err(VmError::TypeMismatch));
    let (r, _) = run_code(vec![Bytecode::PushNil, Bytecode::GetHd, Bytecode::Return]);
    assert_eq!(r, Err(VmError::TypeMismatch));
}

#[test]
fn popping_an_empty_stack_underflows() {
    let (r, _) = run_code(vec![Bytecode::MakeTuple { size: 1 }, Bytecode::Return]);
    assert_eq!(r, Err(VmError::StackUnderflow));
}

#[test]
fn backward_jump_and_running_off_the_end_are_invalid() {
    let (r, _) = run_code(vec![Bytecode::PushNil, Bytecode::Jump { index: 0 }]);
    assert_eq!(r, Err(VmError::InvalidCode));
    let (r, _) = run_code(vec![Bytecode::PushNil]);
    assert_eq!(r, Err(VmError::InvalidCode));
    let (r, _) = run_code(vec![Bytecode::LoadConstant { id: 0 }, Bytecode::Return]);
    assert_eq!(r, Err(VmError::InvalidCode));
}

#[test]
fn cons_cells_are_built_and_taken_apart() {
    let (r, stack) = run_code(vec![
        Bytecode::PushNumber { val: 5 },
        Bytecode::PushNil,
        Bytecode::MakeCons,
        Bytecode::GetTl,
        Bytecode::Return,
    ]);
    assert!(r.is_ok());
    assert!(matches!(stack.last(), Some(Value::Nil)));
}

#[test]
fn locals_are_set_and_read() {
    let (r, stack) = run_code(vec![
        Bytecode::PushNumber { val: 8 },
        Bytecode::SetLocal { id: 0 },
        Bytecode::GetLocal { id: 0 },
        Bytecode::GetLocal { id: 0 },
        Bytecode::MakeTuple { size: 2 },
        Bytecode::Return,
    ]);
    assert!(r.is_ok());
    match stack.last() {
        Some(Value::Tuple(vs)) => {
            assert!(matches!(vs[0], Value::Number(8)));
            assert!(matches!(vs[1], Value::Number(8)));
        }
        other => panic!("unexpected {other:?}"),
    }
}

#[test]
fn failed_test_branches_to_its_target() {
    let mut ctx = Ctx::new();
    let id = ctx.make_constant(patmat::compile::Constant::Number(1)).unwrap();
    let mut info = ctx.bytecode();
    info.bytecode = vec![
        Bytecode::PushNumber { val: 2 },
        Bytecode::TestExact { id, branch: 4 },
        Bytecode::PushNumber { val: 10 },
        Bytecode::Return,
        Bytecode::PushNumber { val: 20 },
        Bytecode::Return,
    ];
    let mut machine = Machine::new(&info);
    let mut stack = vec![];
    assert!(machine.run(&mut stack, vec![]).is_ok());
    assert!(matches!(stack.last(), Some(Value::Number(20))));
}
