use quentin::ast::{
    AstNode, DataType, Expression, FunctionCall, FunctionDeclaration, Log, Statement, Value,
    VariableAssignment, VariableDeclaration,
};
use quentin::ir::{ast_to_ir, Instruction, LogType, Program};
use quentin::vm::VM;

fn s(x: &str) -> String {
    x.to_string()
}

fn empty_program(instructions: Vec<Instruction>) -> Program {
    Program { instructions, string_table: Vec::new(), symbol_table: Vec::new() }
}

fn stmt(st: Statement) -> AstNode {
    AstNode::Statement(st)
}

#[test]
fn concat_evaluates_left_to_right() {
    // `name` is bound to "World"; the expression Concat(Value("Hello, "),
    // Variable(name)) leaves exactly "Hello, World" on the stack.
    let program = empty_program(vec![
        Instruction::InitVar { symbol_id: 0, value: Value::Str(s("World")) },
        Instruction::LoadValue { value: Value::Str(s("Hello, ")) },
        Instruction::LoadVar { symbol_id: 0 },
        Instruction::Concat,
    ]);
    let mut vm = VM::new(program);
    vm.execute();
    assert_eq!(vm.stack().len(), 1);
    assert_eq!(vm.stack()[0], Value::Str(s("Hello, World")));
}

#[test]
fn concat_order_is_not_swapped() {
    let program = empty_program(vec![
        Instruction::LoadValue { value: Value::Str(s("a")) },
        Instruction::LoadValue { value: Value::Str(s("b")) },
        Instruction::Concat,
    ]);
    let mut vm = VM::new(program);
    vm.execute();
    assert_eq!(vm.stack()[0], Value::Str(s("ab")));
}

#[test]
fn log_formatting_renders_level_and_message() {
    // x = Number(5); log info Concat("x=", x) writes the line `[info] x=5`.
    let ast = vec![
        stmt(Statement::SystemInit(VariableDeclaration {
            name: s("x"),
            data_type: DataType::Number,
            value: Some(Expression::Value(Value::Number(s("5")))),
        })),
        stmt(Statement::SystemLog(Log {
            log_type: s("info"),
            message: Expression::Concat(
                Box::new(Expression::Value(Value::Str(s("x=")))),
                Box::new(Expression::Variable(s("x"))),
            ),
        })),
    ];
    let program = ast_to_ir(&ast);
    let mut vm = VM::new(program);
    vm.execute();
    assert_eq!(vm.output().len(), 1);
    assert_eq!(vm.output()[0].level, LogType::Info);
    assert_eq!(vm.output()[0].message, s("x=5"));
    assert_eq!(vm.output()[0].render(), s("[info] x=5"));
}

#[test]
fn scope_isolation_discards_callee_writes() {
    // A function body assigns to a variable the caller has bound; after the
    // call completes, the caller's binding is unchanged — callee writes
    // never persist. The binding is made after the body's position in the
    // flat sequence, so only the call itself touches it.
    let program = empty_program(vec![
        Instruction::LoadValue { value: Value::Str(s("new")) },
        Instruction::SetVarFromStack { symbol_id: 0 },
        Instruction::DeclareFunc {
            symbol_id: 1,
            param_count: 0,
            param_symbol_ids: vec![],
            body_start: 0,
            body_end: 2,
        },
        Instruction::InitVar { symbol_id: 0, value: Value::Str(s("old")) },
        Instruction::CallFunc { symbol_id: 1, arg_count: 0 },
        Instruction::LoadVar { symbol_id: 0 },
        Instruction::Log { log_type: LogType::Info, message_expr_start: 5, message_expr_end: 6 },
    ]);
    let mut vm = VM::new(program);
    vm.execute();
    assert_eq!(vm.output().len(), 1);
    assert_eq!(vm.output()[0].message, s("old"));
}

#[test]
fn body_instructions_are_swept_inline_before_their_declaration() {
    // There are no jumps: the top-level loop also walks straight through a
    // lowered function body once, before the DeclareFunc that follows it,
    // so a body assignment runs once at the top level as well.
    let ast = vec![
        stmt(Statement::SystemInit(VariableDeclaration {
            name: s("x"),
            data_type: DataType::Str,
            value: Some(Expression::Value(Value::Str(s("old")))),
        })),
        stmt(Statement::FunctionDeclaration(FunctionDeclaration {
            name: s("clobber"),
            params: vec![],
            body: vec![Statement::SystemSet(VariableAssignment {
                name: s("x"),
                value: Expression::Value(Value::Str(s("new"))),
            })],
        })),
        stmt(Statement::SystemLog(Log {
            log_type: s("info"),
            message: Expression::Variable(s("x")),
        })),
    ];
    let program = ast_to_ir(&ast);
    let mut vm = VM::new(program);
    vm.execute();
    assert_eq!(vm.output().len(), 1);
    assert_eq!(vm.output()[0].message, s("new"));
}

fn two_param_logger() -> Vec<AstNode> {
    // fn pair(a, b) { log info Concat(a, b) }
    vec![stmt(Statement::FunctionDeclaration(FunctionDeclaration {
        name: s("pair"),
        params: vec![(s("a"), DataType::Str), (s("b"), DataType::Str)],
        body: vec![Statement::SystemLog(Log {
            log_type: s("info"),
            message: Expression::Concat(
                Box::new(Expression::Variable(s("a"))),
                Box::new(Expression::Variable(s("b"))),
            ),
        })],
    }))]
}

#[test]
fn extra_arguments_are_ignored() {
    let mut ast = two_param_logger();
    ast.push(stmt(Statement::SystemExec(FunctionCall {
        name: s("pair"),
        args: vec![
            (s("a"), Expression::Value(Value::Str(s("one")))),
            (s("b"), Expression::Value(Value::Str(s("two")))),
            (s("c"), Expression::Value(Value::Str(s("three")))),
        ],
    })));
    let program = ast_to_ir(&ast);
    let mut vm = VM::new(program);
    vm.execute();
    // The first line is the top-level sweep through the body (parameters
    // unbound there); the second is the call, with the extra third
    // argument discarded.
    assert_eq!(vm.output().len(), 2);
    assert_eq!(vm.output()[0].message, s("nullnull"));
    assert_eq!(vm.output()[1].message, s("onetwo"));
    // A log statement evaluates its message range twice — once as the loop
    // sweeps it, once on the log's own re-run — and the first result stays
    // beneath the log's recorded depth, so each of the two log lines leaves
    // one residual value. The discarded third argument does not linger.
    assert_eq!(
        vm.stack(),
        &vec![Value::Str(s("nullnull")), Value::Str(s("onetwo"))]
    );
}

#[test]
fn missing_arguments_read_as_null() {
    let mut ast = two_param_logger();
    ast.push(stmt(Statement::SystemExec(FunctionCall { name: s("pair"), args: vec![] })));
    let program = ast_to_ir(&ast);
    let mut vm = VM::new(program);
    vm.execute();
    // Sweep line, then the call: with no arguments supplied, both
    // parameters read as null inside the body.
    assert_eq!(vm.output().len(), 2);
    assert_eq!(vm.output()[1].message, s("nullnull"));
}

#[test]
fn stack_underflow_is_a_silent_no_op() {
    let program = empty_program(vec![
        Instruction::Concat,
        Instruction::SetVarFromStack { symbol_id: 0 },
        Instruction::LoadValue { value: Value::Bool(true) },
        Instruction::Concat,
    ]);
    let mut vm = VM::new(program);
    vm.execute();
    // Concat with one operand and SetVarFromStack with none do nothing.
    assert_eq!(vm.stack().len(), 1);
    assert_eq!(vm.stack()[0], Value::Bool(true));
    assert!(vm.output().is_empty());
}

#[test]
fn undeclared_function_call_is_skipped() {
    let program = empty_program(vec![
        Instruction::LoadValue { value: Value::Str(s("arg")) },
        Instruction::CallFunc { symbol_id: 99, arg_count: 1 },
    ]);
    let mut vm = VM::new(program);
    vm.execute();
    // The call is a no-op: the pushed argument is not even popped.
    assert_eq!(vm.stack().len(), 1);
}

#[test]
fn unbound_variable_reads_as_null() {
    let program = empty_program(vec![Instruction::LoadVar { symbol_id: 7 }]);
    let mut vm = VM::new(program);
    vm.execute();
    assert_eq!(vm.stack().len(), 1);
    assert_eq!(vm.stack()[0], Value::Null);
}

#[test]
fn top_level_return_only_advances() {
    let program = empty_program(vec![
        Instruction::LoadValue { value: Value::Number(s("1")) },
        Instruction::Return,
        Instruction::LoadValue { value: Value::Number(s("2")) },
    ]);
    let mut vm = VM::new(program);
    vm.execute();
    assert_eq!(vm.stack().len(), 2);
}

#[test]
fn log_coerces_every_value_kind() {
    let ast = vec![
        stmt(Statement::SystemLog(Log {
            log_type: s("warn"),
            message: Expression::Value(Value::Bool(false)),
        })),
        stmt(Statement::SystemLog(Log {
            log_type: s("error"),
            message: Expression::Value(Value::Null),
        })),
    ];
    let program = ast_to_ir(&ast);
    let mut vm = VM::new(program);
    vm.execute();
    assert_eq!(vm.output()[0].render(), s("[warn] false"));
    assert_eq!(vm.output()[1].render(), s("[error] null"));
}

#[test]
fn log_with_empty_message_range_logs_empty_text() {
    let program = empty_program(vec![Instruction::Log {
        log_type: LogType::Info,
        message_expr_start: 0,
        message_expr_end: 0,
    }]);
    let mut vm = VM::new(program);
    vm.execute();
    assert_eq!(vm.output().len(), 1);
    assert_eq!(vm.output()[0].message, s(""));
}
