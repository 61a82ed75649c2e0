use quentin::ast::{
    AstNode, DataType, Expression, FunctionCall, FunctionDeclaration, Log, Statement, Value,
    VariableAssignment, VariableDeclaration,
};
use quentin::ir::{ast_to_ir, Instruction, LogType, SymbolKind};

fn s(x: &str) -> String {
    x.to_string()
}

fn stmt(st: Statement) -> AstNode {
    AstNode::Statement(st)
}

fn init(name: &str, dt: DataType, value: Option<Expression>) -> AstNode {
    stmt(Statement::SystemInit(VariableDeclaration { name: s(name), data_type: dt, value }))
}

#[test]
fn literal_initializer_is_folded() {
    let ast = vec![init(
        "x",
        DataType::Number,
        Some(Expression::Value(Value::Number(s("7")))),
    )];
    let program = ast_to_ir(&ast);
    assert_eq!(
        program.instructions,
        vec![Instruction::InitVar { symbol_id: 0, value: Value::Number(s("7")) }]
    );
    assert_eq!(program.symbol_table.len(), 1);
    assert_eq!(program.symbol_table[0].id, 0);
    assert_eq!(program.symbol_table[0].name, s("x"));
    assert!(program.string_table.is_empty());
}

#[test]
fn computed_initializer_degrades_to_null() {
    // Only literal initializers are folded at declaration time; a computed
    // one degrades to null rather than lowering to a runtime computation.
    let ast = vec![
        init("a", DataType::Str, Some(Expression::Value(Value::Str(s("v"))))),
        init("b", DataType::Str, Some(Expression::Variable(s("a")))),
        init("c", DataType::Str, None),
    ];
    let program = ast_to_ir(&ast);
    assert_eq!(
        program.instructions,
        vec![
            Instruction::InitVar { symbol_id: 0, value: Value::Str(s("v")) },
            Instruction::InitVar { symbol_id: 1, value: Value::Null },
            Instruction::InitVar { symbol_id: 2, value: Value::Null },
        ]
    );
}

#[test]
fn assignment_lowers_expression_then_stores() {
    let ast = vec![
        init("x", DataType::Str, None),
        stmt(Statement::SystemSet(VariableAssignment {
            name: s("x"),
            value: Expression::Concat(
                Box::new(Expression::Value(Value::Str(s("a")))),
                Box::new(Expression::Value(Value::Str(s("b")))),
            ),
        })),
    ];
    let program = ast_to_ir(&ast);
    assert_eq!(
        program.instructions,
        vec![
            Instruction::InitVar { symbol_id: 0, value: Value::Null },
            Instruction::LoadValue { value: Value::Str(s("a")) },
            Instruction::LoadValue { value: Value::Str(s("b")) },
            Instruction::Concat,
            Instruction::SetVarFromStack { symbol_id: 0 },
        ]
    );
}

#[test]
fn unresolved_variable_degrades_to_null_load() {
    let ast = vec![stmt(Statement::SystemLog(Log {
        log_type: s("info"),
        message: Expression::Variable(s("ghostly")),
    }))];
    let program = ast_to_ir(&ast);
    assert_eq!(
        program.instructions,
        vec![
            Instruction::LoadValue { value: Value::Null },
            Instruction::Log { log_type: LogType::Info, message_expr_start: 0, message_expr_end: 1 },
        ]
    );
}

#[test]
fn dotted_path_resolves_only_the_root() {
    let ast = vec![
        init("a", DataType::Str, Some(Expression::Value(Value::Str(s("root"))))),
        stmt(Statement::SystemLog(Log {
            log_type: s("info"),
            message: Expression::Variable(s("a.b.c")),
        })),
    ];
    let program = ast_to_ir(&ast);
    assert_eq!(program.instructions[1], Instruction::LoadVar { symbol_id: 0 });
}

#[test]
fn log_level_is_matched_case_insensitively() {
    let levels = vec![
        ("info", LogType::Info),
        ("WARN", LogType::Warn),
        ("Error", LogType::Error),
        ("wArN", LogType::Warn),
        ("fatal", LogType::Info),
        ("", LogType::Info),
    ];
    for (text, expected) in levels {
        let ast = vec![stmt(Statement::SystemLog(Log {
            log_type: s(text),
            message: Expression::Value(Value::Null),
        }))];
        let program = ast_to_ir(&ast);
        match &program.instructions[1] {
            Instruction::Log { log_type, .. } => assert_eq!(*log_type, expected, "level {:?}", text),
            other => panic!("expected a log instruction, got {:?}", other),
        }
    }
}

#[test]
fn function_body_precedes_its_declaration() {
    // The body is emitted first and the declaring instruction appended
    // after, carrying the body's half-open range as metadata.
    let ast = vec![
        stmt(Statement::FunctionDeclaration(FunctionDeclaration {
            name: s("greet"),
            params: vec![(s("who"), DataType::Str)],
            body: vec![Statement::SystemLog(Log {
                log_type: s("info"),
                message: Expression::Variable(s("who")),
            })],
        })),
        stmt(Statement::SystemExec(FunctionCall {
            name: s("greet"),
            args: vec![(s("who"), Expression::Value(Value::Str(s("you"))))],
        })),
    ];
    let program = ast_to_ir(&ast);
    assert_eq!(
        program.instructions,
        vec![
            Instruction::LoadVar { symbol_id: 1 },
            Instruction::Log { log_type: LogType::Info, message_expr_start: 0, message_expr_end: 1 },
            Instruction::DeclareFunc {
                symbol_id: 0,
                param_count: 1,
                param_symbol_ids: vec![1],
                body_start: 0,
                body_end: 2,
            },
            Instruction::LoadValue { value: Value::Str(s("you")) },
            Instruction::CallFunc { symbol_id: 0, arg_count: 1 },
        ]
    );
}

#[test]
fn symbol_ids_are_unique_across_vars_funcs_and_params() {
    let ast = vec![
        init("x", DataType::Str, None),
        init("y", DataType::Number, None),
        stmt(Statement::FunctionDeclaration(FunctionDeclaration {
            name: s("f"),
            params: vec![(s("p"), DataType::Str), (s("q"), DataType::Bool)],
            body: vec![],
        })),
    ];
    let program = ast_to_ir(&ast);
    // One shared counter: two variables, one function, then two parameters.
    let ids: Vec<u32> = program.symbol_table.iter().map(|sym| sym.id).collect();
    assert_eq!(ids, vec![0, 1, 2, 3, 4]);
    for i in 0..ids.len() {
        for j in 0..i {
            assert_ne!(ids[i], ids[j]);
        }
    }
    match &program.instructions[2] {
        Instruction::DeclareFunc { param_symbol_ids, .. } => {
            assert_eq!(param_symbol_ids, &vec![3, 4]);
        }
        other => panic!("expected the declaring instruction, got {:?}", other),
    }
}

#[test]
fn function_symbol_records_parameter_types() {
    let ast = vec![stmt(Statement::FunctionDeclaration(FunctionDeclaration {
        name: s("f"),
        params: vec![(s("p"), DataType::Number)],
        body: vec![],
    }))];
    let program = ast_to_ir(&ast);
    match &program.symbol_table[0].kind {
        SymbolKind::Function { param_types, return_type } => {
            assert_eq!(param_types, &vec![DataType::Number]);
            assert_eq!(*return_type, None);
        }
        other => panic!("expected a function symbol, got {:?}", other),
    }
}

#[test]
fn nested_declarations_and_calls_inside_a_body_lower_to_nothing() {
    let ast = vec![
        stmt(Statement::FunctionDeclaration(FunctionDeclaration {
            name: s("outer"),
            params: vec![],
            body: vec![
                Statement::SystemExec(FunctionCall { name: s("outer"), args: vec![] }),
                Statement::SystemInclude,
            ],
        })),
    ];
    let program = ast_to_ir(&ast);
    assert_eq!(
        program.instructions,
        vec![Instruction::DeclareFunc {
            symbol_id: 0,
            param_count: 0,
            param_symbol_ids: vec![],
            body_start: 0,
            body_end: 0,
        }]
    );
}
