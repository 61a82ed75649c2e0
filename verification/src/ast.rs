//! The syntax tree shared by the analyzer and the lowering pass, and the
//! tagged runtime value type shared by every stage.
//!
//! A numeric literal is carried as its decimal text, fixed when the literal is
//! read from source: the language has no arithmetic, so the only thing any
//! stage ever does with a number is print it.

use vstd::prelude::*;

verus! {

/// A tagged runtime value. Values are small and copied on every move between
/// the operand stack and the variable environment.
#[derive(Debug, Clone, PartialEq, Eq)]
pub enum Value {
    /// A piece of text.
    Str(String),
    /// A number, carried as its decimal text.
    Number(String),
    /// A boolean.
    Bool(bool),
    /// The absent value; also what lenient fallbacks produce.
    Null,
}

/// The ghost shape of a [`Value`]: text fields become character sequences.
#[verifier::ext_equal]
pub enum ValueView {
    Str(Seq<char>),
    Number(Seq<char>),
    Bool(bool),
    Null,
}

impl View for Value {
    type V = ValueView;

    open spec fn view(&self) -> ValueView {
        match self {
            Value::Str(s) => ValueView::Str(s@),
            Value::Number(t) => ValueView::Number(t@),
            Value::Bool(b) => ValueView::Bool(*b),
            Value::Null => ValueView::Null,
        }
    }
}

/// The text a value shows as, used identically by concatenation and logging.
pub open spec fn value_text(v: ValueView) -> Seq<char> {
    match v {
        ValueView::Str(s) => s,
        ValueView::Number(t) => t,
        ValueView::Bool(b) => if b { "true"@ } else { "false"@ },
        ValueView::Null => "null"@,
    }
}

impl Value {
    /// An owned copy with exactly the same content.
    pub fn dup(&self) -> (r: Value)
        ensures
            r@ == self@,
    {
        match self {
            Value::Str(s) => Value::Str(s.clone()),
            Value::Number(t) => Value::Number(t.clone()),
            Value::Bool(b) => Value::Bool(*b),
            Value::Null => Value::Null,
        }
    }
}

/// Renders a value as text: a string is itself, a number is its decimal text,
/// a boolean is `true` or `false`, and null is the literal text `null`.
pub fn value_to_string(v: &Value) -> (r: String)
    ensures
        r@ == value_text(v@),
{
    match v {
        Value::Str(s) => s.clone(),
        Value::Number(t) => t.clone(),
        Value::Bool(b) => {
            if *b {
                String::from_str("true")
            } else {
                String::from_str("false")
            }
        },
        Value::Null => String::from_str("null"),
    }
}

/// The declared type of a variable or parameter. Typing is advisory: the
/// virtual machine never checks it at run time.
#[derive(Debug, Clone, Copy, PartialEq, Eq, Structural)]
pub enum DataType {
    Str,
    Number,
    Bool,
}

/// An expression: a literal, a variable reference, or a concatenation.
/// A variable name may carry a dotted path, of which only the root segment
/// is ever resolved.
#[derive(Debug, PartialEq, Eq)]
pub enum Expression {
    Value(Value),
    Variable(String),
    Concat(Box<Expression>, Box<Expression>),
}

/// Declares a variable, optionally with an initializer expression.
#[derive(Debug, PartialEq, Eq)]
pub struct VariableDeclaration {
    pub name: String,
    pub data_type: DataType,
    pub value: Option<Expression>,
}

/// Assigns the value of an expression to an already declared variable.
#[derive(Debug, PartialEq, Eq)]
pub struct VariableAssignment {
    pub name: String,
    pub value: Expression,
}

/// Writes one line of log output at the given level.
#[derive(Debug, PartialEq, Eq)]
pub struct Log {
    pub log_type: String,
    pub message: Expression,
}

/// Declares a function with typed parameters and a statement body.
#[derive(Debug, PartialEq, Eq)]
pub struct FunctionDeclaration {
    pub name: String,
    pub params: Vec<(String, DataType)>,
    pub body: Vec<Statement>,
}

/// Calls a declared function with named argument expressions.
#[derive(Debug, PartialEq, Eq)]
pub struct FunctionCall {
    pub name: String,
    pub args: Vec<(String, Expression)>,
}

/// One statement of the language.
#[derive(Debug, PartialEq, Eq)]
pub enum Statement {
    /// Placeholder for a source inclusion; carries nothing and lowers to nothing.
    SystemInclude,
    SystemInit(VariableDeclaration),
    SystemSet(VariableAssignment),
    SystemLog(Log),
    FunctionDeclaration(FunctionDeclaration),
    SystemExec(FunctionCall),
    Return(Expression),
}

/// A node of the syntax tree handed to the analyzer and the lowering pass.
#[derive(Debug, PartialEq, Eq)]
pub enum AstNode {
    Statement(Statement),
}

} // verus!
