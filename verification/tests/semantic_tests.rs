use quentin::ast::{
    AstNode, DataType, Expression, FunctionCall, FunctionDeclaration, Statement, Value,
    VariableAssignment, VariableDeclaration,
};
use quentin::semantic::{analyze, SemanticError};

fn s(x: &str) -> String {
    x.to_string()
}

fn stmt(st: Statement) -> AstNode {
    AstNode::Statement(st)
}

fn init(name: &str) -> AstNode {
    stmt(Statement::SystemInit(VariableDeclaration {
        name: s(name),
        data_type: DataType::Str,
        value: Some(Expression::Value(Value::Str(s("v")))),
    }))
}

fn set(name: &str) -> Statement {
    Statement::SystemSet(VariableAssignment {
        name: s(name),
        value: Expression::Value(Value::Str(s("w"))),
    })
}

fn func(name: &str, params: Vec<&str>, body: Vec<Statement>) -> AstNode {
    stmt(Statement::FunctionDeclaration(FunctionDeclaration {
        name: s(name),
        params: params.into_iter().map(|p| (s(p), DataType::Str)).collect(),
        body,
    }))
}

#[test]
fn valid_program_passes() {
    let ast = vec![
        init("x"),
        stmt(set("x")),
        func("f", vec!["p"], vec![set("p"), set("x")]),
        stmt(Statement::SystemExec(FunctionCall { name: s("f"), args: vec![] })),
    ];
    assert_eq!(analyze(&ast), Ok(()));
}

#[test]
fn duplicate_variable_is_rejected() {
    let ast = vec![init("x"), init("x")];
    assert_eq!(analyze(&ast), Err(SemanticError::DuplicateVariable(s("x"))));
}

#[test]
fn duplicate_function_is_rejected() {
    let ast = vec![func("f", vec![], vec![]), func("f", vec![], vec![])];
    assert_eq!(analyze(&ast), Err(SemanticError::DuplicateFunction(s("f"))));
}

#[test]
fn undefined_variable_is_rejected() {
    let ast = vec![stmt(set("nowhere"))];
    assert_eq!(analyze(&ast), Err(SemanticError::UndefinedVariable(s("nowhere"))));
}

#[test]
fn undefined_function_is_rejected() {
    let ast = vec![stmt(Statement::SystemExec(FunctionCall { name: s("g"), args: vec![] }))];
    assert_eq!(analyze(&ast), Err(SemanticError::UndefinedFunction(s("g"))));
}

#[test]
fn parameters_are_visible_inside_the_body() {
    let ast = vec![func("f", vec!["p"], vec![set("p")])];
    assert_eq!(analyze(&ast), Ok(()));
}

#[test]
fn body_variables_do_not_leak_out() {
    let body_decl = Statement::SystemInit(VariableDeclaration {
        name: s("local"),
        data_type: DataType::Str,
        value: None,
    });
    let ast = vec![func("f", vec![], vec![body_decl]), stmt(set("local"))];
    assert_eq!(analyze(&ast), Err(SemanticError::UndefinedVariable(s("local"))));
}

#[test]
fn functions_share_one_namespace_with_nested_declarations() {
    let nested = Statement::FunctionDeclaration(FunctionDeclaration {
        name: s("f"),
        params: vec![],
        body: vec![],
    });
    let ast = vec![func("f", vec![], vec![nested])];
    assert_eq!(analyze(&ast), Err(SemanticError::DuplicateFunction(s("f"))));
}

#[test]
fn first_error_in_source_order_wins() {
    let ast = vec![stmt(set("a")), stmt(set("b"))];
    assert_eq!(analyze(&ast), Err(SemanticError::UndefinedVariable(s("a"))));
}
