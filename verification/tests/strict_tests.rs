use quentin::ast::Value;
use quentin::ir::{Instruction, LogType, Program};
use quentin::vm::{VmError, VM};

fn s(x: &str) -> String {
    x.to_string()
}

fn program(instructions: Vec<Instruction>) -> Program {
    Program { instructions, string_table: Vec::new(), symbol_table: Vec::new() }
}

#[test]
fn strict_run_agrees_with_lenient_on_a_clean_program() {
    let instructions = vec![
        Instruction::InitVar { symbol_id: 0, value: Value::Number(s("5")) },
        Instruction::LoadValue { value: Value::Str(s("x=")) },
        Instruction::LoadVar { symbol_id: 0 },
        Instruction::Concat,
        Instruction::Log { log_type: LogType::Info, message_expr_start: 1, message_expr_end: 4 },
    ];
    let mut lenient = VM::new(program(instructions.clone()));
    lenient.execute();
    let mut strict = VM::new(program(instructions));
    assert_eq!(strict.execute_strict(), Ok(()));
    assert_eq!(strict.output(), lenient.output());
    assert_eq!(strict.output().len(), 1);
    assert_eq!(strict.output()[0].render(), s("[info] x=5"));
}

#[test]
fn strict_flags_an_undefined_symbol() {
    let mut vm = VM::new(program(vec![Instruction::LoadVar { symbol_id: 7 }]));
    assert_eq!(vm.execute_strict(), Err(VmError::UndefinedSymbol { symbol_id: 7 }));
}

#[test]
fn strict_flags_concat_underflow() {
    let mut vm = VM::new(program(vec![
        Instruction::LoadValue { value: Value::Str(s("only")) },
        Instruction::Concat,
    ]));
    assert_eq!(vm.execute_strict(), Err(VmError::StackUnderflow));
}

#[test]
fn strict_flags_store_underflow() {
    let mut vm = VM::new(program(vec![Instruction::SetVarFromStack { symbol_id: 0 }]));
    assert_eq!(vm.execute_strict(), Err(VmError::StackUnderflow));
}

#[test]
fn strict_flags_an_undeclared_function() {
    let mut vm = VM::new(program(vec![Instruction::CallFunc { symbol_id: 9, arg_count: 0 }]));
    assert_eq!(vm.execute_strict(), Err(VmError::UndeclaredFunction { symbol_id: 9 }));
}

#[test]
fn strict_flags_an_arity_mismatch() {
    let mut vm = VM::new(program(vec![
        Instruction::DeclareFunc {
            symbol_id: 0,
            param_count: 2,
            param_symbol_ids: vec![1, 2],
            body_start: 0,
            body_end: 0,
        },
        Instruction::LoadValue { value: Value::Null },
        Instruction::LoadValue { value: Value::Null },
        Instruction::LoadValue { value: Value::Null },
        Instruction::CallFunc { symbol_id: 0, arg_count: 3 },
    ]));
    assert_eq!(
        vm.execute_strict(),
        Err(VmError::ArityMismatch { expected: 2, found: 3 })
    );
}

#[test]
fn strict_keeps_the_output_written_before_the_fault() {
    let mut vm = VM::new(program(vec![
        Instruction::LoadValue { value: Value::Str(s("first")) },
        Instruction::Log { log_type: LogType::Warn, message_expr_start: 0, message_expr_end: 1 },
        Instruction::LoadVar { symbol_id: 3 },
    ]));
    assert_eq!(vm.execute_strict(), Err(VmError::UndefinedSymbol { symbol_id: 3 }));
    // The sweep pushes "first" once more before the log re-runs its range;
    // the line itself is already out when the fault stops the machine.
    assert_eq!(vm.output().len(), 1);
    assert_eq!(vm.output()[0].render(), s("[warn] first"));
}
