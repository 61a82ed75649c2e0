//! The intermediate representation and the lowering pass that produces it.
//!
//! A lowered [`Program`] is one flat instruction sequence plus a symbol table.
//! Nested constructs (function bodies, log-message expressions) are half-open
//! index ranges `[start, end)` into that same flat sequence, recorded on the
//! instruction that owns them.
//!
//! Lowering is a two-pass fold over the top-level statements, specified by
//! `spec_lower` and its helpers and implemented by [`ast_to_ir`]: pass one
//! collects variable and function symbols, pass two emits instructions.
//! Symbol ids for variables, functions and function parameters all come from
//! one shared, monotonically increasing counter.

use vstd::prelude::*;

use crate::ast::{AstNode, DataType, Expression, Statement, Value, ValueView};

verus! {

/// The severity of a log line.
#[derive(Debug, Clone, Copy, PartialEq, Eq, Structural)]
pub enum LogType {
    Info,
    Warn,
    Error,
}

/// One entry of a program's symbol table.
#[derive(Debug, Clone, PartialEq, Eq)]
pub struct Symbol {
    pub id: u32,
    pub name: String,
    pub kind: SymbolKind,
}

/// What a symbol names: a typed variable, or a function with its
/// parameter types and (currently never inferred) return type.
#[derive(Debug, Clone, PartialEq, Eq)]
pub enum SymbolKind {
    Variable { data_type: DataType },
    Function { param_types: Vec<DataType>, return_type: Option<DataType> },
}

/// One unit of the flat bytecode.
#[derive(Debug, Clone, PartialEq, Eq)]
pub enum Instruction {
    /// Bind a literal value to a variable at its declaration.
    InitVar { symbol_id: u32, value: Value },
    /// Bind a constant-folded value to a variable.
    SetVar { symbol_id: u32, value: Value },
    /// Pop one value off the operand stack and bind it to a variable.
    SetVarFromStack { symbol_id: u32 },
    /// Register a function: its parameters and its body range.
    DeclareFunc {
        symbol_id: u32,
        param_count: u32,
        param_symbol_ids: Vec<u32>,
        body_start: u32,
        body_end: u32,
    },
    /// Call a registered function with `arg_count` values off the stack.
    CallFunc { symbol_id: u32, arg_count: u32 },
    /// Push a literal value.
    LoadValue { value: Value },
    /// Push the current binding of a variable.
    LoadVar { symbol_id: u32 },
    /// Pop two values and push their text concatenation.
    Concat,
    /// Evaluate the message range and write one log line.
    Log { log_type: LogType, message_expr_start: u32, message_expr_end: u32 },
    /// End a function body early.
    Return,
}

/// A lowered program: the flat instruction sequence, a reserved string table
/// (currently unused by any instruction), and the symbol table.
#[derive(Debug, Clone, PartialEq, Eq)]
pub struct Program {
    pub instructions: Vec<Instruction>,
    pub string_table: Vec<String>,
    pub symbol_table: Vec<Symbol>,
}

/// Ghost shape of a [`Symbol`].
#[verifier::ext_equal]
pub struct SymbolView {
    pub id: u32,
    pub name: Seq<char>,
    pub kind: SymbolKindView,
}

/// Ghost shape of a [`SymbolKind`].
#[verifier::ext_equal]
pub enum SymbolKindView {
    Variable { data_type: DataType },
    Function { param_types: Seq<DataType>, return_type: Option<DataType> },
}

/// Ghost shape of an [`Instruction`].
#[verifier::ext_equal]
pub enum InstructionView {
    InitVar { symbol_id: u32, value: ValueView },
    SetVar { symbol_id: u32, value: ValueView },
    SetVarFromStack { symbol_id: u32 },
    DeclareFunc {
        symbol_id: u32,
        param_count: u32,
        param_symbol_ids: Seq<u32>,
        body_start: u32,
        body_end: u32,
    },
    CallFunc { symbol_id: u32, arg_count: u32 },
    LoadValue { value: ValueView },
    LoadVar { symbol_id: u32 },
    Concat,
    Log { log_type: LogType, message_expr_start: u32, message_expr_end: u32 },
    Return,
}

/// Ghost shape of a [`Program`]; equality on it is the content equality the
/// codec's round-trip contract speaks of.
#[verifier::ext_equal]
pub struct ProgramView {
    pub instructions: Seq<InstructionView>,
    pub string_table: Seq<Seq<char>>,
    pub symbol_table: Seq<SymbolView>,
}

impl View for SymbolKind {
    type V = SymbolKindView;

    open spec fn view(&self) -> SymbolKindView {
        match self {
            SymbolKind::Variable { data_type } => SymbolKindView::Variable { data_type: *data_type },
            SymbolKind::Function { param_types, return_type } => SymbolKindView::Function {
                param_types: param_types@,
                return_type: *return_type,
            },
        }
    }
}

impl View for Symbol {
    type V = SymbolView;

    open spec fn view(&self) -> SymbolView {
        SymbolView { id: self.id, name: self.name@, kind: self.kind@ }
    }
}

impl View for Instruction {
    type V = InstructionView;

    open spec fn view(&self) -> InstructionView {
        match self {
            Instruction::InitVar { symbol_id, value } => InstructionView::InitVar {
                symbol_id: *symbol_id,
                value: value@,
            },
            Instruction::SetVar { symbol_id, value } => InstructionView::SetVar {
                symbol_id: *symbol_id,
                value: value@,
            },
            Instruction::SetVarFromStack { symbol_id } => InstructionView::SetVarFromStack {
                symbol_id: *symbol_id,
            },
            Instruction::DeclareFunc {
                symbol_id,
                param_count,
                param_symbol_ids,
                body_start,
                body_end,
            } => InstructionView::DeclareFunc {
                symbol_id: *symbol_id,
                param_count: *param_count,
                param_symbol_ids: param_symbol_ids@,
                body_start: *body_start,
                body_end: *body_end,
            },
            Instruction::CallFunc { symbol_id, arg_count } => InstructionView::CallFunc {
                symbol_id: *symbol_id,
                arg_count: *arg_count,
            },
            Instruction::LoadValue { value } => InstructionView::LoadValue { value: value@ },
            Instruction::LoadVar { symbol_id } => InstructionView::LoadVar {
                symbol_id: *symbol_id,
            },
            Instruction::Concat => InstructionView::Concat,
            Instruction::Log { log_type, message_expr_start, message_expr_end } => InstructionView::Log {
                log_type: *log_type,
                message_expr_start: *message_expr_start,
                message_expr_end: *message_expr_end,
            },
            Instruction::Return => InstructionView::Return,
        }
    }
}

/// The ghost contents of a sequence of instructions.
pub open spec fn instrs_view(s: Seq<Instruction>) -> Seq<InstructionView> {
    s.map_values(|i: Instruction| i@)
}

/// The ghost contents of a sequence of symbols.
pub open spec fn symbols_view(s: Seq<Symbol>) -> Seq<SymbolView> {
    s.map_values(|s: Symbol| s@)
}

impl View for Program {
    type V = ProgramView;

    open spec fn view(&self) -> ProgramView {
        ProgramView {
            instructions: instrs_view(self.instructions@),
            string_table: self.string_table@.map_values(|s: String| s@),
            symbol_table: symbols_view(self.symbol_table@),
        }
    }
}

// ---------------------------------------------------------------------------
// The name-resolution map: an association list where the latest binding for a
// name wins, which is how repeated insertion behaves.
// ---------------------------------------------------------------------------

/// Ghost shape of the name-to-id map built during lowering.
pub type SymMap = Seq<(Seq<char>, u32)>;

/// The ghost contents of the executable association list.
pub open spec fn map_view(s: Seq<(String, u32)>) -> SymMap {
    s.map_values(|p: (String, u32)| (p.0@, p.1))
}

/// Resolves a name against the map; the binding added last wins.
pub open spec fn sym_lookup(m: SymMap, name: Seq<char>) -> Option<u32>
    decreases m.len(),
{
    if m.len() == 0 {
        None
    } else if m.last().0 == name {
        Some(m.last().1)
    } else {
        sym_lookup(m.drop_last(), name)
    }
}

/// The root segment of a possibly dotted name: everything before the first
/// `.`, or the whole name if it has none. Only this segment is ever resolved.
pub open spec fn root_of(s: Seq<char>) -> Seq<char>
    decreases s.len(),
{
    if s.len() == 0 {
        s
    } else if s[0] == '.' {
        Seq::empty()
    } else {
        seq![s[0]] + root_of(s.drop_first())
    }
}

// ---------------------------------------------------------------------------
// The lowering specification.
// ---------------------------------------------------------------------------

/// The value an initializer folds to at declaration time: only a literal is
/// kept; a computed or absent initializer degrades to null.
pub open spec fn const_of_initializer(v: Option<Expression>) -> ValueView {
    match v {
        Some(Expression::Value(val)) => val@,
        _ => ValueView::Null,
    }
}

/// The log level a level string lowers to: matched against `info`, `warn`
/// and `error` without regard to ASCII case, and `info` for anything else.
pub open spec fn level_of(s: Seq<char>) -> LogType {
    if ci_matches(s, "info"@) {
        LogType::Info
    } else if ci_matches(s, "warn"@) {
        LogType::Warn
    } else if ci_matches(s, "error"@) {
        LogType::Error
    } else {
        LogType::Info
    }
}

/// Character equality up to ASCII case, against a lower-case target.
pub open spec fn ci_char(c: char, l: char) -> bool {
    c == l || (65 <= c as u32 && c as u32 <= 90 && c as u32 + 32 == l as u32)
}

/// Whole-string equality up to ASCII case, against a lower-case target.
pub open spec fn ci_matches(s: Seq<char>, t: Seq<char>) -> bool {
    s.len() == t.len() && forall|i: int| 0 <= i < s.len() ==> ci_char(s[i], #[trigger] t[i])
}

/// The instructions an expression lowers to. Lowering is postorder: a
/// literal loads itself, a variable reference resolves its root segment
/// (degrading to a null load if unresolved), and a concatenation lowers its
/// left operand, then its right, then one `Concat`.
pub open spec fn lower_expr(e: Expression, m: SymMap) -> Seq<InstructionView>
    decreases e,
{
    match e {
        Expression::Value(val) => seq![InstructionView::LoadValue { value: val@ }],
        Expression::Variable(name) => match sym_lookup(m, root_of(name@)) {
            Some(id) => seq![InstructionView::LoadVar { symbol_id: id }],
            None => seq![InstructionView::LoadValue { value: ValueView::Null }],
        },
        Expression::Concat(l, r) => lower_expr(*l, m) + lower_expr(*r, m)
            + seq![InstructionView::Concat],
    }
}

/// The instructions the arguments of a call lower to, left to right, each
/// leaving one value on the stack; only the first `n` arguments are covered.
pub open spec fn lower_args_upto(args: Seq<(String, Expression)>, m: SymMap, n: int) -> Seq<
    InstructionView,
>
    decreases n,
{
    if n <= 0 {
        Seq::empty()
    } else {
        lower_args_upto(args, m, n - 1) + lower_expr(args[n - 1].1, m)
    }
}

/// The instructions one statement of a function body (or, identically, one
/// simple top-level statement) lowers to. `base` is the index in the whole
/// program at which these instructions will sit; a log statement records its
/// message range relative to it. A statement whose target name does not
/// resolve lowers to nothing: the analyzer rejects such programs before
/// lowering ever runs. Declarations and calls never appear here; inside a
/// body they lower to nothing.
pub open spec fn lower_body_stmt(s: Statement, m: SymMap, base: int) -> Seq<InstructionView> {
    match s {
        Statement::SystemInit(vd) => match sym_lookup(m, vd.name@) {
            Some(id) => seq![
                InstructionView::InitVar { symbol_id: id, value: const_of_initializer(vd.value) },
            ],
            None => Seq::empty(),
        },
        Statement::SystemSet(va) => match sym_lookup(m, va.name@) {
            Some(id) => lower_expr(va.value, m) + seq![
                InstructionView::SetVarFromStack { symbol_id: id },
            ],
            None => Seq::empty(),
        },
        Statement::SystemLog(log) => {
            let expr = lower_expr(log.message, m);
            expr + seq![
                InstructionView::Log {
                    log_type: level_of(log.log_type@),
                    message_expr_start: base as u32,
                    message_expr_end: (base + expr.len()) as u32,
                },
            ]
        },
        Statement::Return(e) => lower_expr(e, m) + seq![InstructionView::Return],
        _ => Seq::empty(),
    }
}

/// The instructions the first `n` statements of a function body lower to,
/// starting at index `base` of the whole program.
pub open spec fn lower_body_upto(ss: Seq<Statement>, m: SymMap, base: int, n: int) -> Seq<
    InstructionView,
>
    decreases n,
{
    if n <= 0 {
        Seq::empty()
    } else {
        let prefix = lower_body_upto(ss, m, base, n - 1);
        prefix + lower_body_stmt(ss[n - 1], m, base + prefix.len())
    }
}

/// The first declared type for a parameter name, or `Str` if none matches
/// (unreachable in practice, since the name comes from the same list).
pub open spec fn first_param_type(params: Seq<(String, DataType)>, name: Seq<char>) -> DataType
    decreases params.len(),
{
    if params.len() == 0 {
        DataType::Str
    } else if params[0].0@ == name {
        params[0].1
    } else {
        first_param_type(params.drop_first(), name)
    }
}

/// The ids handed to a function's parameters when the shared counter
/// stands at `counter`: one fresh id per parameter, in order.
pub open spec fn param_ids(counter: int, k: nat) -> Seq<u32> {
    Seq::new(k, |i: int| (counter + i) as u32)
}

/// The symbol-table entries a function's parameters add.
pub open spec fn param_symbols(params: Seq<(String, DataType)>, counter: int) -> Seq<SymbolView> {
    Seq::new(
        params.len(),
        |i: int| SymbolView {
            id: (counter + i) as u32,
            name: params[i].0@,
            kind: SymbolKindView::Variable {
                data_type: first_param_type(params, params[i].0@),
            },
        },
    )
}

/// The map a function body is lowered under: everything visible at the
/// declaration point, extended by the parameter bindings.
pub open spec fn func_map(m: SymMap, params: Seq<(String, DataType)>, counter: int) -> SymMap {
    m + Seq::new(params.len(), |i: int| (params[i].0@, (counter + i) as u32))
}

/// State threaded through pass one: the symbols collected so far, the next
/// id the shared counter will hand out, and the name map built so far.
#[verifier::ext_equal]
pub struct Pass1State {
    pub symbols: Seq<SymbolView>,
    pub counter: int,
    pub map: SymMap,
}

/// One step of pass one: a top-level variable or function declaration gets
/// the next id and a symbol-table entry; every other statement adds nothing.
/// Pass one never walks into function bodies.
pub open spec fn pass1_step(st: Pass1State, node: AstNode) -> Pass1State {
    match node {
        AstNode::Statement(stmt) => match stmt {
            Statement::SystemInit(vd) => Pass1State {
                symbols: st.symbols.push(
                    SymbolView {
                        id: st.counter as u32,
                        name: vd.name@,
                        kind: SymbolKindView::Variable { data_type: vd.data_type },
                    },
                ),
                counter: st.counter + 1,
                map: st.map.push((vd.name@, st.counter as u32)),
            },
            Statement::FunctionDeclaration(fd) => Pass1State {
                symbols: st.symbols.push(
                    SymbolView {
                        id: st.counter as u32,
                        name: fd.name@,
                        kind: SymbolKindView::Function {
                            param_types: fd.params@.map_values(|p: (String, DataType)| p.1),
                            return_type: None,
                        },
                    },
                ),
                counter: st.counter + 1,
                map: st.map.push((fd.name@, st.counter as u32)),
            },
            _ => st,
        },
    }
}

/// Pass one over the first `n` nodes.
pub open spec fn pass1_upto(ast: Seq<AstNode>, n: int) -> Pass1State
    decreases n,
{
    if n <= 0 {
        Pass1State { symbols: Seq::empty(), counter: 0, map: Seq::empty() }
    } else {
        pass1_step(pass1_upto(ast, n - 1), ast[n - 1])
    }
}

/// State threaded through pass two: the instructions emitted so far, the
/// symbol table as extended by parameter symbols, and the shared counter.
#[verifier::ext_equal]
pub struct Pass2State {
    pub instructions: Seq<InstructionView>,
    pub symbols: Seq<SymbolView>,
    pub counter: int,
}

/// One step of pass two, under the fixed top-level map `m0`. A function
/// declaration first assigns one fresh id per parameter, lowers its body
/// under the extended map, and then appends the declaring instruction, so a
/// body range never includes its own `DeclareFunc`. A declaration or call
/// whose name does not resolve lowers to nothing (the analyzer rejects such
/// programs before lowering ever runs).
pub open spec fn pass2_step(st: Pass2State, node: AstNode, m0: SymMap) -> Pass2State {
    match node {
        AstNode::Statement(stmt) => match stmt {
            Statement::FunctionDeclaration(fd) => match sym_lookup(m0, fd.name@) {
                Some(fid) => {
                    let k = fd.params@.len();
                    let fm = func_map(m0, fd.params@, st.counter);
                    let body_start = st.instructions.len();
                    let body = lower_body_upto(fd.body@, fm, body_start as int, fd.body@.len() as int);
                    Pass2State {
                        instructions: st.instructions + body + seq![
                            InstructionView::DeclareFunc {
                                symbol_id: fid,
                                param_count: k as u32,
                                param_symbol_ids: param_ids(st.counter, k),
                                body_start: body_start as u32,
                                body_end: (body_start + body.len()) as u32,
                            },
                        ],
                        symbols: st.symbols + param_symbols(fd.params@, st.counter),
                        counter: st.counter + k,
                    }
                },
                None => st,
            },
            Statement::SystemExec(fc) => match sym_lookup(m0, fc.name@) {
                Some(fid) => Pass2State {
                    instructions: st.instructions + lower_args_upto(
                        fc.args@,
                        m0,
                        fc.args@.len() as int,
                    ) + seq![
                        InstructionView::CallFunc {
                            symbol_id: fid,
                            arg_count: fc.args@.len() as u32,
                        },
                    ],
                    ..st
                },
                None => st,
            },
            _ => Pass2State {
                instructions: st.instructions + lower_body_stmt(
                    stmt,
                    m0,
                    st.instructions.len() as int,
                ),
                ..st
            },
        },
    }
}

/// Pass two over the first `n` nodes, starting from the state pass one left.
pub open spec fn pass2_upto(ast: Seq<AstNode>, m0: SymMap, start: Pass2State, n: int) -> Pass2State
    decreases n,
{
    if n <= 0 {
        start
    } else {
        pass2_step(pass2_upto(ast, m0, start, n - 1), ast[n - 1], m0)
    }
}

/// What the whole lowering pass produces for a syntax tree: pass one
/// collects top-level symbols, pass two emits instructions and parameter
/// symbols. The string table is reserved and left empty.
pub open spec fn spec_lower(ast: Seq<AstNode>) -> ProgramView {
    let p1 = pass1_upto(ast, ast.len() as int);
    let start = Pass2State { instructions: Seq::empty(), symbols: p1.symbols, counter: p1.counter };
    let p2 = pass2_upto(ast, p1.map, start, ast.len() as int);
    ProgramView {
        instructions: p2.instructions,
        string_table: Seq::empty(),
        symbol_table: p2.symbols,
    }
}

// ---------------------------------------------------------------------------
// Bounds on the shared id counter, used to show it never overflows.
// ---------------------------------------------------------------------------

/// How many ids the first `n` nodes demand: one per top-level variable or
/// function declaration, plus one per parameter of each function.
pub open spec fn sym_demand_upto(ast: Seq<AstNode>, n: int) -> int
    decreases n,
{
    if n <= 0 {
        0
    } else {
        sym_demand_upto(ast, n - 1) + match ast[n - 1] {
            AstNode::Statement(Statement::SystemInit(_)) => 1int,
            AstNode::Statement(Statement::FunctionDeclaration(fd)) => 1int + fd.params@.len(),
            _ => 0int,
        }
    }
}

/// How many ids the whole tree demands; lowering requires this to fit the
/// id width, which is what keeps every assigned id distinct.
pub open spec fn sym_demand(ast: Seq<AstNode>) -> int {
    sym_demand_upto(ast, ast.len() as int)
}

// ---------------------------------------------------------------------------
// Small view lemmas used while growing vectors in the executable pass.
// ---------------------------------------------------------------------------

proof fn lemma_instrs_view_push(v: Seq<Instruction>, x: Instruction)
    ensures
        instrs_view(v.push(x)) == instrs_view(v).push(x@),
{
    assert(instrs_view(v.push(x)) =~= instrs_view(v).push(x@));
}

proof fn lemma_symbols_view_push(v: Seq<Symbol>, x: Symbol)
    ensures
        symbols_view(v.push(x)) == symbols_view(v).push(x@),
{
    assert(symbols_view(v.push(x)) =~= symbols_view(v).push(x@));
}

proof fn lemma_map_view_push(v: Seq<(String, u32)>, x: (String, u32))
    ensures
        map_view(v.push(x)) == map_view(v).push((x.0@, x.1)),
{
    assert(map_view(v.push(x)) =~= map_view(v).push((x.0@, x.1)));
}

// ---------------------------------------------------------------------------
// Executable helpers of the lowering pass.
// ---------------------------------------------------------------------------

/// Resolves a name in the association list; the binding added last wins.
fn lookup_id(map: &Vec<(String, u32)>, name: &String) -> (r: Option<u32>)
    ensures
        r == sym_lookup(map_view(map@), name@),
{
    let ghost full = map_view(map@);
    let mut i: usize = map.len();
    proof {
        assert(full.take(i as int) =~= full);
    }
    while i > 0
        invariant
            i <= map@.len(),
            full == map_view(map@),
            sym_lookup(full, name@) == sym_lookup(full.take(i as int), name@),
        decreases i,
    {
        i = i - 1;
        let entry = &map[i];
        proof {
            assert(full.take(i as int + 1).last() == (entry.0@, entry.1));
            assert(full.take(i as int + 1).drop_last() =~= full.take(i as int));
        }
        if entry.0 == *name {
            return Some(entry.1);
        }
    }
    proof {
        assert(full.take(0) =~= Seq::<(Seq<char>, u32)>::empty());
    }
    None
}

proof fn lemma_root_of_prefix(s: Seq<char>, i: int)
    requires
        0 <= i <= s.len(),
        forall|j: int| 0 <= j < i ==> s[j] != '.',
        i < s.len() ==> s[i] == '.',
    ensures
        root_of(s) == s.take(i),
    decreases i,
{
    if s.len() == 0 {
        assert(s.take(0) =~= s);
    } else if i == 0 {
        if s[0] == '.' {
            assert(root_of(s) =~= s.take(0));
        } else {
            assert(i < s.len());
        }
    } else {
        let rest = s.drop_first();
        lemma_root_of_prefix(rest, i - 1);
        assert(s.take(i) =~= seq![s[0]] + rest.take(i - 1));
    }
}

/// The root segment of a possibly dotted variable name, as owned text.
fn root_segment(name: &String) -> (r: String)
    ensures
        r@ == root_of(name@),
{
    let s = name.as_str();
    let n = s.unicode_len();
    let mut i: usize = 0;
    while i < n
        invariant
            i <= n,
            n == s@.len(),
            forall|j: int| 0 <= j < i ==> s@[j] != '.',
        ensures
            i <= n,
            n == s@.len(),
            forall|j: int| 0 <= j < i ==> s@[j] != '.',
            i < n ==> s@[i as int] == '.',
        decreases n - i,
    {
        if s.get_char(i) == '.' {
            break;
        }
        i = i + 1;
    }
    proof {
        lemma_root_of_prefix(s@, i as int);
    }
    let root = s.substring_char(0, i);
    root.to_owned()
}

/// Whole-string comparison up to ASCII case, against a lower-case target.
fn eq_ignore_case(s: &str, t: &str) -> (r: bool)
    ensures
        r == ci_matches(s@, t@),
{
    let n = s.unicode_len();
    let m = t.unicode_len();
    if n != m {
        return false;
    }
    let mut i: usize = 0;
    while i < n
        invariant
            i <= n,
            n == s@.len(),
            n == t@.len(),
            forall|j: int| 0 <= j < i ==> ci_char(s@[j], #[trigger] t@[j]),
        decreases n - i,
    {
        let c = s.get_char(i);
        let tc = t.get_char(i);
        let cu: u32 = c as u32;
        if !(c == tc || (65 <= cu && cu <= 90 && cu + 32 == tc as u32)) {
            return false;
        }
        i = i + 1;
    }
    true
}

/// The log level a level string names, `info` for anything unrecognized.
fn parse_level(s: &String) -> (r: LogType)
    ensures
        r == level_of(s@),
{
    if eq_ignore_case(s.as_str(), "info") {
        LogType::Info
    } else if eq_ignore_case(s.as_str(), "warn") {
        LogType::Warn
    } else if eq_ignore_case(s.as_str(), "error") {
        LogType::Error
    } else {
        LogType::Info
    }
}

/// An owned copy of the name-resolution map, for giving a function body its
/// own extended scope.
fn copy_map(m: &Vec<(String, u32)>) -> (r: Vec<(String, u32)>)
    ensures
        r@.len() == m@.len(),
        map_view(r@) == map_view(m@),
{
    let mut r: Vec<(String, u32)> = Vec::new();
    let mut i: usize = 0;
    while i < m.len()
        invariant
            i <= m@.len(),
            r@.len() == i,
            forall|j: int| 0 <= j < i ==> #[trigger] r@[j] == (m@[j].0, m@[j].1),
        decreases m@.len() - i,
    {
        let entry = &m[i];
        r.push((entry.0.clone(), entry.1));
        i = i + 1;
    }
    proof {
        assert(map_view(r@) =~= map_view(m@));
    }
    r
}

/// The constant a declaration's initializer folds to: the literal itself,
/// or null for a computed or absent initializer.
fn fold_initializer(v: &Option<Expression>) -> (r: Value)
    ensures
        r@ == const_of_initializer(*v),
{
    match v {
        Some(Expression::Value(val)) => val.dup(),
        _ => Value::Null,
    }
}

// ---------------------------------------------------------------------------
// Counting lemmas: the shared id counter never exceeds the id demand of the
// whole tree, which is what the overflow proofs in `ast_to_ir` rest on.
// ---------------------------------------------------------------------------

/// How many ids pass one hands out over the first `n` nodes: one per
/// top-level variable or function declaration.
pub open spec fn pass1_count(ast: Seq<AstNode>, n: int) -> int
    decreases n,
{
    if n <= 0 {
        0
    } else {
        pass1_count(ast, n - 1) + match ast[n - 1] {
            AstNode::Statement(Statement::SystemInit(_)) => 1int,
            AstNode::Statement(Statement::FunctionDeclaration(_)) => 1int,
            _ => 0int,
        }
    }
}

/// How many ids the parameters of the first `n` nodes demand.
pub open spec fn params_upto(ast: Seq<AstNode>, n: int) -> int
    decreases n,
{
    if n <= 0 {
        0
    } else {
        params_upto(ast, n - 1) + match ast[n - 1] {
            AstNode::Statement(Statement::FunctionDeclaration(fd)) => fd.params@.len() as int,
            _ => 0int,
        }
    }
}

proof fn lemma_demand_decomp(ast: Seq<AstNode>, n: int)
    ensures
        sym_demand_upto(ast, n) == pass1_count(ast, n) + params_upto(ast, n),
        0 <= pass1_count(ast, n),
        0 <= params_upto(ast, n),
    decreases n,
{
    if n > 0 {
        lemma_demand_decomp(ast, n - 1);
    }
}

proof fn lemma_demand_mono(ast: Seq<AstNode>, n: int, m: int)
    requires
        n <= m,
    ensures
        sym_demand_upto(ast, n) <= sym_demand_upto(ast, m),
    decreases m - n,
{
    if n < m {
        lemma_demand_mono(ast, n, m - 1);
        match ast[m - 1] {
            AstNode::Statement(Statement::FunctionDeclaration(fd)) => {
                assert(fd.params@.len() >= 0);
            },
            _ => {},
        }
    }
}

proof fn lemma_params_mono(ast: Seq<AstNode>, n: int, m: int)
    requires
        n <= m,
    ensures
        params_upto(ast, n) <= params_upto(ast, m),
    decreases m - n,
{
    if n < m {
        lemma_params_mono(ast, n, m - 1);
    }
}

proof fn lemma_pass1_counter(ast: Seq<AstNode>, n: int)
    ensures
        pass1_upto(ast, n).counter == pass1_count(ast, n),
        pass1_upto(ast, n).symbols.len() == pass1_count(ast, n),
        pass1_upto(ast, n).map.len() == pass1_count(ast, n),
    decreases n,
{
    if n > 0 {
        lemma_pass1_counter(ast, n - 1);
    }
}

proof fn lemma_pass2_counter_le(ast: Seq<AstNode>, m0: SymMap, start: Pass2State, n: int)
    requires
        n >= 0,
    ensures
        start.counter <= pass2_upto(ast, m0, start, n).counter <= start.counter + params_upto(
            ast,
            n,
        ),
    decreases n,
{
    if n > 0 {
        lemma_pass2_counter_le(ast, m0, start, n - 1);
    }
}

proof fn lemma_first_param_type_at(params: Seq<(String, DataType)>, name: Seq<char>, t: int)
    requires
        0 <= t <= params.len(),
        forall|u: int| 0 <= u < t ==> (#[trigger] params[u]).0@ != name,
        t < params.len() ==> params[t].0@ == name,
    ensures
        first_param_type(params, name) == if t < params.len() {
            params[t].1
        } else {
            DataType::Str
        },
    decreases params.len(),
{
    if params.len() == 0 {
    } else if t == 0 {
    } else {
        let rest = params.drop_first();
        assert(forall|u: int| 0 <= u < t - 1 ==> (#[trigger] rest[u]).0@ != name && rest[u]
            == params[u + 1]);
        lemma_first_param_type_at(rest, name, t - 1);
    }
}

/// Appends the postorder lowering of one expression.
fn expression_to_instructions(
    expr: &Expression,
    instructions: &mut Vec<Instruction>,
    symbol_map: &Vec<(String, u32)>,
)
    ensures
        instrs_view(final(instructions)@) == instrs_view(old(instructions)@) + lower_expr(
            *expr,
            map_view(symbol_map@),
        ),
    decreases *expr,
{
    let ghost m = map_view(symbol_map@);
    match expr {
        Expression::Value(val) => {
            let ghost before = instructions@;
            instructions.push(Instruction::LoadValue { value: val.dup() });
            proof {
                lemma_instrs_view_push(before, instructions@.last());
                assert(instrs_view(instructions@) =~= instrs_view(before) + lower_expr(*expr, m));
            }
        },
        Expression::Variable(var_name) => {
            let root = root_segment(var_name);
            let ghost before = instructions@;
            match lookup_id(symbol_map, &root) {
                Some(id) => {
                    instructions.push(Instruction::LoadVar { symbol_id: id });
                },
                None => {
                    instructions.push(Instruction::LoadValue { value: Value::Null });
                },
            }
            proof {
                lemma_instrs_view_push(before, instructions@.last());
                assert(instrs_view(instructions@) =~= instrs_view(before) + lower_expr(*expr, m));
            }
        },
        Expression::Concat(l, r) => {
            expression_to_instructions(&**l, instructions, symbol_map);
            expression_to_instructions(&**r, instructions, symbol_map);
            let ghost before = instructions@;
            instructions.push(Instruction::Concat);
            proof {
                lemma_instrs_view_push(before, instructions@.last());
                assert(instrs_view(instructions@) =~= instrs_view(old(instructions)@) + lower_expr(
                    *expr,
                    m,
                ));
            }
        },
    }
}

/// Appends the lowering of one simple statement: a declaration binds its
/// folded initializer, an assignment lowers its expression and stores from
/// the stack, a log statement records the range of its lowered message, and
/// a return lowers its expression. Anything else lowers to nothing here.
fn statement_to_instructions(
    stmt: &Statement,
    instructions: &mut Vec<Instruction>,
    symbol_map: &Vec<(String, u32)>,
)
    ensures
        instrs_view(final(instructions)@) == instrs_view(old(instructions)@) + lower_body_stmt(
            *stmt,
            map_view(symbol_map@),
            old(instructions)@.len() as int,
        ),
{
    let ghost m = map_view(symbol_map@);
    let ghost base = instructions@.len() as int;
    match stmt {
        Statement::SystemInit(vd) => {
            match lookup_id(symbol_map, &vd.name) {
                Some(symbol_id) => {
                    let value = fold_initializer(&vd.value);
                    let ghost before = instructions@;
                    instructions.push(Instruction::InitVar { symbol_id, value });
                    proof {
                        lemma_instrs_view_push(before, instructions@.last());
                        assert(instrs_view(instructions@) =~= instrs_view(before) + lower_body_stmt(
                            *stmt,
                            m,
                            base,
                        ));
                    }
                },
                None => {
                    proof {
                        assert(instrs_view(instructions@) =~= instrs_view(instructions@)
                            + lower_body_stmt(*stmt, m, base));
                    }
                },
            }
        },
        Statement::SystemSet(va) => {
            match lookup_id(symbol_map, &va.name) {
                Some(symbol_id) => {
                    expression_to_instructions(&va.value, instructions, symbol_map);
                    let ghost before = instructions@;
                    instructions.push(Instruction::SetVarFromStack { symbol_id });
                    proof {
                        lemma_instrs_view_push(before, instructions@.last());
                        assert(instrs_view(instructions@) =~= instrs_view(old(instructions)@)
                            + lower_body_stmt(*stmt, m, base));
                    }
                },
                None => {
                    proof {
                        assert(instrs_view(instructions@) =~= instrs_view(instructions@)
                            + lower_body_stmt(*stmt, m, base));
                    }
                },
            }
        },
        Statement::SystemLog(log) => {
            let log_type = parse_level(&log.log_type);
            let expr_start = instructions.len();
            expression_to_instructions(&log.message, instructions, symbol_map);
            let expr_end = instructions.len();
            let ghost before = instructions@;
            instructions.push(
                Instruction::Log {
                    log_type,
                    message_expr_start: #[verifier::truncate] (expr_start as u32),
                    message_expr_end: #[verifier::truncate] (expr_end as u32),
                },
            );
            proof {
                lemma_instrs_view_push(before, instructions@.last());
                assert(instrs_view(instructions@) =~= instrs_view(old(instructions)@)
                    + lower_body_stmt(*stmt, m, base));
            }
        },
        Statement::Return(e) => {
            expression_to_instructions(e, instructions, symbol_map);
            let ghost before = instructions@;
            instructions.push(Instruction::Return);
            proof {
                lemma_instrs_view_push(before, instructions@.last());
                assert(instrs_view(instructions@) =~= instrs_view(old(instructions)@)
                    + lower_body_stmt(*stmt, m, base));
            }
        },
        _ => {
            proof {
                assert(instrs_view(instructions@) =~= instrs_view(instructions@) + lower_body_stmt(
                    *stmt,
                    m,
                    base,
                ));
            }
        },
    }
}

// ---------------------------------------------------------------------------
// Id uniqueness: the shared counter hands every symbol its own id.
// ---------------------------------------------------------------------------

/// Every symbol's id is its index in the table — the shape the single
/// monotonically increasing counter produces.
pub open spec fn ids_are_indices(syms: Seq<SymbolView>) -> bool {
    forall|j: int| 0 <= j < syms.len() ==> (#[trigger] syms[j]).id == j
}

/// No instruction in the sequence declares a function.
pub open spec fn no_declare(s: Seq<InstructionView>) -> bool {
    forall|j: int| 0 <= j < s.len() ==> !((#[trigger] s[j]) matches InstructionView::DeclareFunc {
        ..
    })
}

/// Every `DeclareFunc` in the sequence carries pairwise distinct parameter
/// ids, each naming an entry of a symbol table of length `nsyms`.
pub open spec fn declares_ok(instrs: Seq<InstructionView>, nsyms: int) -> bool {
    forall|j: int| 0 <= j < instrs.len() ==> ((#[trigger] instrs[j])
        matches InstructionView::DeclareFunc { param_symbol_ids, .. } ==> (forall|a: int, b: int|
        0 <= a < b < param_symbol_ids.len() ==> param_symbol_ids[a] != param_symbol_ids[b])
        && (forall|a: int| 0 <= a < param_symbol_ids.len() ==> param_symbol_ids[a] < nsyms))
}

proof fn lemma_no_declare_concat(a: Seq<InstructionView>, b: Seq<InstructionView>)
    requires
        no_declare(a),
        no_declare(b),
    ensures
        no_declare(a + b),
{
    assert forall|j: int| 0 <= j < (a + b).len() implies !((#[trigger] (a + b)[j])
        matches InstructionView::DeclareFunc { .. }) by {
        if j < a.len() {
            assert((a + b)[j] == a[j]);
        } else {
            assert((a + b)[j] == b[j - a.len()]);
        }
    }
}

proof fn lemma_expr_no_declare(e: Expression, m: SymMap)
    ensures
        no_declare(lower_expr(e, m)),
    decreases e,
{
    match e {
        Expression::Value(_) => {},
        Expression::Variable(_) => {},
        Expression::Concat(l, r) => {
            lemma_expr_no_declare(*l, m);
            lemma_expr_no_declare(*r, m);
            lemma_no_declare_concat(lower_expr(*l, m), lower_expr(*r, m));
            lemma_no_declare_concat(
                lower_expr(*l, m) + lower_expr(*r, m),
                seq![InstructionView::Concat],
            );
        },
    }
}

proof fn lemma_body_stmt_no_declare(s: Statement, m: SymMap, base: int)
    ensures
        no_declare(lower_body_stmt(s, m, base)),
{
    match s {
        Statement::SystemSet(va) => match sym_lookup(m, va.name@) {
            Some(id) => {
                lemma_expr_no_declare(va.value, m);
                lemma_no_declare_concat(
                    lower_expr(va.value, m),
                    seq![InstructionView::SetVarFromStack { symbol_id: id }],
                );
            },
            None => {},
        },
        Statement::SystemLog(log) => {
            let expr = lower_expr(log.message, m);
            lemma_expr_no_declare(log.message, m);
            lemma_no_declare_concat(
                expr,
                seq![
                    InstructionView::Log {
                        log_type: level_of(log.log_type@),
                        message_expr_start: base as u32,
                        message_expr_end: (base + expr.len()) as u32,
                    },
                ],
            );
        },
        Statement::Return(e) => {
            lemma_expr_no_declare(e, m);
            lemma_no_declare_concat(lower_expr(e, m), seq![InstructionView::Return]);
        },
        _ => {},
    }
}

proof fn lemma_body_upto_no_declare(ss: Seq<Statement>, m: SymMap, base: int, n: int)
    ensures
        no_declare(lower_body_upto(ss, m, base, n)),
    decreases n,
{
    if n > 0 {
        lemma_body_upto_no_declare(ss, m, base, n - 1);
        let prefix = lower_body_upto(ss, m, base, n - 1);
        lemma_body_stmt_no_declare(ss[n - 1], m, base + prefix.len());
        lemma_no_declare_concat(prefix, lower_body_stmt(ss[n - 1], m, base + prefix.len()));
    }
}

proof fn lemma_args_no_declare(args: Seq<(String, Expression)>, m: SymMap, n: int)
    ensures
        no_declare(lower_args_upto(args, m, n)),
    decreases n,
{
    if n > 0 {
        lemma_args_no_declare(args, m, n - 1);
        lemma_expr_no_declare(args[n - 1].1, m);
        lemma_no_declare_concat(lower_args_upto(args, m, n - 1), lower_expr(args[n - 1].1, m));
    }
}

proof fn lemma_declares_ok_grow(instrs: Seq<InstructionView>, n1: int, n2: int)
    requires
        declares_ok(instrs, n1),
        n1 <= n2,
    ensures
        declares_ok(instrs, n2),
{
}

proof fn lemma_declares_ok_append_clean(
    a: Seq<InstructionView>,
    b: Seq<InstructionView>,
    nsyms: int,
)
    requires
        declares_ok(a, nsyms),
        no_declare(b),
    ensures
        declares_ok(a + b, nsyms),
{
    assert forall|j: int| 0 <= j < (a + b).len() implies ((#[trigger] (a + b)[j])
        matches InstructionView::DeclareFunc { param_symbol_ids, .. } ==> (forall|x: int, y: int|
        0 <= x < y < param_symbol_ids.len() ==> param_symbol_ids[x] != param_symbol_ids[y])
        && (forall|x: int| 0 <= x < param_symbol_ids.len() ==> param_symbol_ids[x] < nsyms)) by {
        if j < a.len() {
            assert((a + b)[j] == a[j]);
        } else {
            assert((a + b)[j] == b[j - a.len()]);
        }
    }
}

proof fn lemma_pass1_ids(ast: Seq<AstNode>, n: int)
    requires
        0 <= n <= ast.len(),
        sym_demand_upto(ast, n) <= u32::MAX,
    ensures
        pass1_upto(ast, n).counter == pass1_upto(ast, n).symbols.len(),
        ids_are_indices(pass1_upto(ast, n).symbols),
    decreases n,
{
    if n > 0 {
        lemma_demand_decomp(ast, n - 1);
        lemma_demand_decomp(ast, n);
        lemma_demand_mono(ast, n - 1, n);
        lemma_pass1_ids(ast, n - 1);
        lemma_pass1_counter(ast, n - 1);
        let st = pass1_upto(ast, n - 1);
        let st2 = pass1_upto(ast, n);
        match ast[n - 1] {
            AstNode::Statement(stmt) => match stmt {
                Statement::SystemInit(_) => {
                    assert(st.counter < u32::MAX);
                    assert(st2.symbols.last().id == st.counter);
                },
                Statement::FunctionDeclaration(_) => {
                    assert(st.counter < u32::MAX);
                    assert(st2.symbols.last().id == st.counter);
                },
                _ => {},
            },
        }
    }
}

proof fn lemma_pass2_ids(ast: Seq<AstNode>, m0: SymMap, start: Pass2State, n: int)
    requires
        0 <= n <= ast.len(),
        sym_demand(ast) <= u32::MAX,
        start.counter == start.symbols.len(),
        start.counter == pass1_count(ast, ast.len() as int),
        ids_are_indices(start.symbols),
        declares_ok(start.instructions, start.symbols.len() as int),
    ensures
        ({
            let st = pass2_upto(ast, m0, start, n);
            &&& st.counter == st.symbols.len()
            &&& ids_are_indices(st.symbols)
            &&& declares_ok(st.instructions, st.symbols.len() as int)
        }),
    decreases n,
{
    if n > 0 {
        lemma_pass2_ids(ast, m0, start, n - 1);
        lemma_pass2_counter_le(ast, m0, start, n - 1);
        lemma_demand_decomp(ast, ast.len() as int);
        lemma_params_mono(ast, n, ast.len() as int);
        let st = pass2_upto(ast, m0, start, n - 1);
        let st2 = pass2_upto(ast, m0, start, n);
        match ast[n - 1] {
            AstNode::Statement(stmt) => match stmt {
                Statement::FunctionDeclaration(fd) => match sym_lookup(m0, fd.name@) {
                    Some(fid) => {
                        let k = fd.params@.len();
                        assert(params_upto(ast, n) == params_upto(ast, n - 1) + k);
                        assert(st.counter + k <= u32::MAX);
                        let new_syms = st.symbols + param_symbols(fd.params@, st.counter);
                        assert forall|j: int| 0 <= j < new_syms.len() implies (
                        #[trigger] new_syms[j]).id == j by {
                            if j < st.symbols.len() {
                                assert(new_syms[j] == st.symbols[j]);
                            } else {
                                assert(new_syms[j] == param_symbols(fd.params@, st.counter)[j
                                    - st.symbols.len()]);
                            }
                        }
                        let fm = func_map(m0, fd.params@, st.counter);
                        let body_start = st.instructions.len();
                        let body = lower_body_upto(fd.body@, fm, body_start as int, k as int);
                        lemma_body_upto_no_declare(
                            fd.body@,
                            fm,
                            body_start as int,
                            fd.body@.len() as int,
                        );
                        lemma_declares_ok_grow(
                            st.instructions,
                            st.symbols.len() as int,
                            new_syms.len() as int,
                        );
                        lemma_declares_ok_append_clean(
                            st.instructions,
                            lower_body_upto(fd.body@, fm, body_start as int, fd.body@.len() as int),
                            new_syms.len() as int,
                        );
                        let ids = param_ids(st.counter, k);
                        assert(forall|a: int| 0 <= a < ids.len() ==> #[trigger] ids[a] == st.counter
                            + a);
                        let one = seq![
                            InstructionView::DeclareFunc {
                                symbol_id: fid,
                                param_count: k as u32,
                                param_symbol_ids: ids,
                                body_start: body_start as u32,
                                body_end: (body_start + lower_body_upto(
                                    fd.body@,
                                    fm,
                                    body_start as int,
                                    fd.body@.len() as int,
                                ).len()) as u32,
                            },
                        ];
                        let upto_body = st.instructions + lower_body_upto(
                            fd.body@,
                            fm,
                            body_start as int,
                            fd.body@.len() as int,
                        );
                        assert forall|j: int| 0 <= j < (upto_body + one).len() implies ((
                        #[trigger] (upto_body + one)[j]) matches InstructionView::DeclareFunc {
                            param_symbol_ids,
                            ..
                        } ==> (forall|x: int, y: int|
                            0 <= x < y < param_symbol_ids.len() ==> param_symbol_ids[x]
                                != param_symbol_ids[y]) && (forall|x: int|
                            0 <= x < param_symbol_ids.len() ==> param_symbol_ids[x]
                                < new_syms.len() as int)) by {
                            if j < upto_body.len() {
                                assert((upto_body + one)[j] == upto_body[j]);
                            } else {
                                assert((upto_body + one)[j] == one[0]);
                            }
                        }
                        assert(st2.instructions =~= upto_body + one);
                        assert(st2.symbols =~= new_syms);
                    },
                    None => {},
                },
                Statement::SystemExec(fc) => match sym_lookup(m0, fc.name@) {
                    Some(fid) => {
                        lemma_args_no_declare(fc.args@, m0, fc.args@.len() as int);
                        let extra = lower_args_upto(fc.args@, m0, fc.args@.len() as int) + seq![
                            InstructionView::CallFunc {
                                symbol_id: fid,
                                arg_count: fc.args@.len() as u32,
                            },
                        ];
                        lemma_no_declare_concat(
                            lower_args_upto(fc.args@, m0, fc.args@.len() as int),
                            seq![
                                InstructionView::CallFunc {
                                    symbol_id: fid,
                                    arg_count: fc.args@.len() as u32,
                                },
                            ],
                        );
                        lemma_declares_ok_append_clean(
                            st.instructions,
                            extra,
                            st.symbols.len() as int,
                        );
                        assert(st2.instructions =~= st.instructions + extra);
                    },
                    None => {},
                },
                _ => {
                    lemma_body_stmt_no_declare(stmt, m0, st.instructions.len() as int);
                    lemma_declares_ok_append_clean(
                        st.instructions,
                        lower_body_stmt(stmt, m0, st.instructions.len() as int),
                        st.symbols.len() as int,
                    );
                },
            },
        }
    }
}

// ---------------------------------------------------------------------------
// Range sanity: every recorded half-open range lies inside the instruction
// sequence and strictly precedes the instruction that owns it.
// ---------------------------------------------------------------------------

/// Every recorded range `[start, end)` in the sequence satisfies
/// `start <= end <= j` where `j` is the index of the owning instruction.
/// Since `j < len`, every range also lies inside the sequence, and a body
/// never includes the `DeclareFunc` that declares it (the body is emitted
/// first, the declaring instruction appended after).
pub open spec fn ranges_ok(instrs: Seq<InstructionView>) -> bool {
    forall|j: int| 0 <= j < instrs.len() ==> match #[trigger] instrs[j] {
        InstructionView::DeclareFunc { body_start, body_end, .. } => body_start <= body_end
            && body_end <= j,
        InstructionView::Log { message_expr_start, message_expr_end, .. } => message_expr_start
            <= message_expr_end && message_expr_end <= j,
        _ => true,
    }
}

/// The instructions carry no range at all: what expression lowering emits.
pub open spec fn rangeless(s: Seq<InstructionView>) -> bool {
    forall|j: int| 0 <= j < s.len() ==> match #[trigger] s[j] {
        InstructionView::DeclareFunc { .. } => false,
        InstructionView::Log { .. } => false,
        _ => true,
    }
}

/// The ranges of a freshly emitted run are in order relative to the global
/// index `base` at which the run will sit.
pub open spec fn stmt_ranges_ok(s: Seq<InstructionView>, base: int) -> bool {
    forall|l: int| 0 <= l < s.len() ==> match #[trigger] s[l] {
        InstructionView::DeclareFunc { body_start, body_end, .. } => body_start <= body_end
            && body_end <= base + l,
        InstructionView::Log { message_expr_start, message_expr_end, .. } => message_expr_start
            <= message_expr_end && message_expr_end <= base + l,
        _ => true,
    }
}

proof fn lemma_ranges_ok_append(a: Seq<InstructionView>, b: Seq<InstructionView>)
    requires
        ranges_ok(a),
        stmt_ranges_ok(b, a.len() as int),
    ensures
        ranges_ok(a + b),
{
    assert forall|j: int| 0 <= j < (a + b).len() implies match #[trigger] (a + b)[j] {
        InstructionView::DeclareFunc { body_start, body_end, .. } => body_start <= body_end
            && body_end <= j,
        InstructionView::Log { message_expr_start, message_expr_end, .. } => message_expr_start
            <= message_expr_end && message_expr_end <= j,
        _ => true,
    } by {
        if j < a.len() {
            assert((a + b)[j] == a[j]);
        } else {
            assert((a + b)[j] == b[j - a.len()]);
        }
    }
}

proof fn lemma_stmt_ranges_concat(a: Seq<InstructionView>, b: Seq<InstructionView>, base: int)
    requires
        stmt_ranges_ok(a, base),
        stmt_ranges_ok(b, base + a.len()),
    ensures
        stmt_ranges_ok(a + b, base),
{
    assert forall|l: int| 0 <= l < (a + b).len() implies match #[trigger] (a + b)[l] {
        InstructionView::DeclareFunc { body_start, body_end, .. } => body_start <= body_end
            && body_end <= base + l,
        InstructionView::Log { message_expr_start, message_expr_end, .. } => message_expr_start
            <= message_expr_end && message_expr_end <= base + l,
        _ => true,
    } by {
        if l < a.len() {
            assert((a + b)[l] == a[l]);
        } else {
            assert((a + b)[l] == b[l - a.len()]);
        }
    }
}

proof fn lemma_expr_rangeless(e: Expression, m: SymMap)
    ensures
        rangeless(lower_expr(e, m)),
        stmt_ranges_ok(lower_expr(e, m), 0),
    decreases e,
{
    match e {
        Expression::Value(_) => {},
        Expression::Variable(_) => {},
        Expression::Concat(l, r) => {
            lemma_expr_rangeless(*l, m);
            lemma_expr_rangeless(*r, m);
            let a = lower_expr(*l, m);
            let b = lower_expr(*r, m);
            assert forall|j: int| 0 <= j < (a + b + seq![InstructionView::Concat]).len() implies
                match #[trigger] (a + b + seq![InstructionView::Concat])[j] {
                    InstructionView::DeclareFunc { .. } => false,
                    InstructionView::Log { .. } => false,
                    _ => true,
                } by {
                if j < a.len() {
                    assert((a + b + seq![InstructionView::Concat])[j] == a[j]);
                } else if j < a.len() + b.len() {
                    assert((a + b + seq![InstructionView::Concat])[j] == b[j - a.len()]);
                } else {
                    assert((a + b + seq![InstructionView::Concat])[j]
                        == InstructionView::Concat);
                }
            }
        },
    }
}

proof fn lemma_rangeless_ranges_ok(s: Seq<InstructionView>, base: int)
    requires
        rangeless(s),
    ensures
        stmt_ranges_ok(s, base),
{
}

proof fn lemma_body_stmt_ranges(s: Statement, m: SymMap, base: int)
    requires
        0 <= base,
        base + lower_body_stmt(s, m, base).len() <= u32::MAX + 1,
    ensures
        stmt_ranges_ok(lower_body_stmt(s, m, base), base),
{
    match s {
        Statement::SystemSet(va) => match sym_lookup(m, va.name@) {
            Some(id) => {
                lemma_expr_rangeless(va.value, m);
                lemma_rangeless_ranges_ok(lower_expr(va.value, m), base);
                lemma_stmt_ranges_concat(
                    lower_expr(va.value, m),
                    seq![InstructionView::SetVarFromStack { symbol_id: id }],
                    base,
                );
            },
            None => {},
        },
        Statement::SystemLog(log) => {
            let expr = lower_expr(log.message, m);
            lemma_expr_rangeless(log.message, m);
            lemma_rangeless_ranges_ok(expr, base);
            let one = seq![
                InstructionView::Log {
                    log_type: level_of(log.log_type@),
                    message_expr_start: base as u32,
                    message_expr_end: (base + expr.len()) as u32,
                },
            ];
            assert(stmt_ranges_ok(one, base + expr.len()));
            lemma_stmt_ranges_concat(expr, one, base);
        },
        Statement::Return(e) => {
            lemma_expr_rangeless(e, m);
            lemma_rangeless_ranges_ok(lower_expr(e, m), base);
            lemma_stmt_ranges_concat(lower_expr(e, m), seq![InstructionView::Return], base);
        },
        _ => {},
    }
}

proof fn lemma_body_upto_ranges(ss: Seq<Statement>, m: SymMap, base: int, n: int)
    requires
        0 <= base,
        base + lower_body_upto(ss, m, base, n).len() <= u32::MAX + 1,
    ensures
        stmt_ranges_ok(lower_body_upto(ss, m, base, n), base),
    decreases n,
{
    if n > 0 {
        let prefix = lower_body_upto(ss, m, base, n - 1);
        let tail = lower_body_stmt(ss[n - 1], m, base + prefix.len());
        lemma_body_upto_ranges(ss, m, base, n - 1);
        lemma_body_stmt_ranges(ss[n - 1], m, base + prefix.len());
        lemma_stmt_ranges_concat(prefix, tail, base);
    }
}

proof fn lemma_pass2_len_mono(ast: Seq<AstNode>, m0: SymMap, start: Pass2State, n: int, m: int)
    requires
        0 <= n <= m,
    ensures
        pass2_upto(ast, m0, start, n).instructions.len() <= pass2_upto(
            ast,
            m0,
            start,
            m,
        ).instructions.len(),
    decreases m - n,
{
    if n < m {
        lemma_pass2_len_mono(ast, m0, start, n, m - 1);
    }
}

proof fn lemma_pass2_ranges(ast: Seq<AstNode>, m0: SymMap, start: Pass2State, n: int)
    requires
        0 <= n <= ast.len(),
        start.instructions.len() == 0,
        pass2_upto(ast, m0, start, ast.len() as int).instructions.len() <= u32::MAX + 1,
    ensures
        ranges_ok(pass2_upto(ast, m0, start, n).instructions),
    decreases n,
{
    if n == 0 {
        assert(ranges_ok(start.instructions));
    } else {
        lemma_pass2_ranges(ast, m0, start, n - 1);
        lemma_pass2_len_mono(ast, m0, start, n, ast.len() as int);
        let st = pass2_upto(ast, m0, start, n - 1);
        let st2 = pass2_upto(ast, m0, start, n);
        match ast[n - 1] {
            AstNode::Statement(stmt) => match stmt {
                Statement::FunctionDeclaration(fd) => match sym_lookup(m0, fd.name@) {
                    Some(fid) => {
                        let k = fd.params@.len();
                        let fm = func_map(m0, fd.params@, st.counter);
                        let body_start = st.instructions.len() as int;
                        let body = lower_body_upto(fd.body@, fm, body_start, fd.body@.len() as int);
                        assert(st2.instructions.len() == body_start + body.len() + 1);
                        lemma_body_upto_ranges(fd.body@, fm, body_start, fd.body@.len() as int);
                        let one = seq![
                            InstructionView::DeclareFunc {
                                symbol_id: fid,
                                param_count: k as u32,
                                param_symbol_ids: param_ids(st.counter, k),
                                body_start: body_start as u32,
                                body_end: (body_start + body.len()) as u32,
                            },
                        ];
                        assert(stmt_ranges_ok(one, body_start + body.len()));
                        lemma_stmt_ranges_concat(body, one, body_start);
                        lemma_ranges_ok_append(st.instructions, body + one);
                        assert(st2.instructions =~= st.instructions + (body + one));
                    },
                    None => {},
                },
                Statement::SystemExec(fc) => match sym_lookup(m0, fc.name@) {
                    Some(fid) => {
                        let args = lower_args_upto(fc.args@, m0, fc.args@.len() as int);
                        let one = seq![
                            InstructionView::CallFunc {
                                symbol_id: fid,
                                arg_count: fc.args@.len() as u32,
                            },
                        ];
                        assert(rangeless(args)) by {
                            lemma_args_rangeless(fc.args@, m0, fc.args@.len() as int);
                        }
                        lemma_rangeless_ranges_ok(args, st.instructions.len() as int);
                        lemma_stmt_ranges_concat(args, one, st.instructions.len() as int);
                        lemma_ranges_ok_append(st.instructions, args + one);
                        assert(st2.instructions =~= st.instructions + (args + one));
                    },
                    None => {},
                },
                _ => {
                    lemma_body_stmt_ranges(stmt, m0, st.instructions.len() as int);
                    lemma_ranges_ok_append(
                        st.instructions,
                        lower_body_stmt(stmt, m0, st.instructions.len() as int),
                    );
                },
            },
        }
    }
}

proof fn lemma_args_rangeless(args: Seq<(String, Expression)>, m: SymMap, n: int)
    ensures
        rangeless(lower_args_upto(args, m, n)),
    decreases n,
{
    if n > 0 {
        lemma_args_rangeless(args, m, n - 1);
        lemma_expr_rangeless(args[n - 1].1, m);
        let a = lower_args_upto(args, m, n - 1);
        let b = lower_expr(args[n - 1].1, m);
        assert forall|j: int| 0 <= j < (a + b).len() implies match #[trigger] (a + b)[j] {
            InstructionView::DeclareFunc { .. } => false,
            InstructionView::Log { .. } => false,
            _ => true,
        } by {
            if j < a.len() {
                assert((a + b)[j] == a[j]);
            } else {
                assert((a + b)[j] == b[j - a.len()]);
            }
        }
    }
}

/// The lowered program's range invariant: for any tree whose lowering fits
/// the 32-bit index space — true of anything a machine can hold — every
/// recorded range `[start, end)` satisfies `start <= end <= len`, and the
/// range ends at or before the instruction that carries it, so a function
/// body never includes its own `DeclareFunc` and a log message range never
/// includes its own `Log`.
pub proof fn lemma_lowered_ranges_ok(ast: Seq<AstNode>)
    requires
        spec_lower(ast).instructions.len() <= u32::MAX + 1,
    ensures
        ranges_ok(spec_lower(ast).instructions),
{
    let len = ast.len() as int;
    let p1 = pass1_upto(ast, len);
    let start = Pass2State { instructions: Seq::empty(), symbols: p1.symbols, counter: p1.counter };
    lemma_pass2_ranges(ast, p1.map, start, len);
}

/// Id uniqueness. For any tree whose id demand fits the 32-bit id space —
/// true of anything a machine can hold — the lowered program's symbol table
/// carries each id exactly once (the id of entry `j` is `j`), so no two
/// symbols share an id; and every `DeclareFunc` instruction's parameter ids
/// are pairwise distinct and each is the id of a symbol-table entry — the
/// one appended for that parameter, since ids and indices coincide.
pub proof fn lemma_symbol_ids_unique(ast: Seq<AstNode>)
    requires
        sym_demand(ast) <= u32::MAX,
    ensures
        ({
            let p = spec_lower(ast);
            &&& ids_are_indices(p.symbol_table)
            &&& forall|i: int, j: int|
                0 <= i < j < p.symbol_table.len() ==> (#[trigger] p.symbol_table[i]).id != (
                #[trigger] p.symbol_table[j]).id
            &&& declares_ok(p.instructions, p.symbol_table.len() as int)
        }),
{
    let len = ast.len() as int;
    lemma_demand_decomp(ast, len);
    lemma_pass1_ids(ast, len);
    lemma_pass1_counter(ast, len);
    let p1 = pass1_upto(ast, len);
    let start = Pass2State { instructions: Seq::empty(), symbols: p1.symbols, counter: p1.counter };
    lemma_pass2_ids(ast, p1.map, start, len);
}

/// Lowers a validated syntax tree into one flat [`Program`].
///
/// Pass one walks the top-level statements and collects a symbol for every
/// variable and function declaration; pass two walks them again and emits
/// instructions, handing fresh ids to function parameters from the same
/// shared counter. Lowering never fails: unresolved names degrade to null
/// loads or to nothing, trusting the analyzer to have rejected them first.
///
/// The one precondition is a machine limit: the tree may not demand more
/// symbol ids than the 32-bit id space holds.
pub fn ast_to_ir(ast: &[AstNode]) -> (r: Program)
    requires
        sym_demand(ast@) <= u32::MAX,
    ensures
        r@ == spec_lower(ast@),
{
    let ghost n = ast@.len() as int;
    let mut symbol_table: Vec<Symbol> = Vec::new();
    let mut symbol_map: Vec<(String, u32)> = Vec::new();
    let mut counter: u32 = 0;

    // First pass: collect all top-level symbols.
    let mut idx: usize = 0;
    while idx < ast.len()
        invariant
            idx <= ast@.len(),
            sym_demand(ast@) <= u32::MAX,
            symbols_view(symbol_table@) == pass1_upto(ast@, idx as int).symbols,
            map_view(symbol_map@) == pass1_upto(ast@, idx as int).map,
            counter as int == pass1_upto(ast@, idx as int).counter,
        decreases ast@.len() - idx,
    {
        let ghost st = pass1_upto(ast@, idx as int);
        proof {
            lemma_pass1_counter(ast@, idx as int);
            lemma_demand_decomp(ast@, idx as int);
            lemma_demand_decomp(ast@, idx as int + 1);
            lemma_params_mono(ast@, idx as int, idx as int + 1);
            lemma_demand_mono(ast@, idx as int + 1, ast@.len() as int);
        }
        let AstNode::Statement(stmt) = &ast[idx];
        match stmt {
            Statement::SystemInit(vd) => {
                let symbol_id = counter;
                counter = counter + 1;
                let ghost before_map = symbol_map@;
                let ghost before_syms = symbol_table@;
                symbol_map.push((vd.name.clone(), symbol_id));
                symbol_table.push(
                    Symbol {
                        id: symbol_id,
                        name: vd.name.clone(),
                        kind: SymbolKind::Variable { data_type: vd.data_type },
                    },
                );
                proof {
                    lemma_map_view_push(before_map, symbol_map@.last());
                    lemma_symbols_view_push(before_syms, symbol_table@.last());
                    assert(symbols_view(symbol_table@) =~= pass1_step(st, ast@[idx as int]).symbols);
                    assert(map_view(symbol_map@) =~= pass1_step(st, ast@[idx as int]).map);
                }
            },
            Statement::FunctionDeclaration(fd) => {
                let symbol_id = counter;
                counter = counter + 1;
                let mut param_types: Vec<DataType> = Vec::new();
                let mut j: usize = 0;
                while j < fd.params.len()
                    invariant
                        j <= fd.params@.len(),
                        param_types@.len() == j,
                        forall|i: int| 0 <= i < j ==> param_types@[i] == fd.params@[i].1,
                    decreases fd.params@.len() - j,
                {
                    param_types.push(fd.params[j].1);
                    j = j + 1;
                }
                let ghost before_map = symbol_map@;
                let ghost before_syms = symbol_table@;
                symbol_map.push((fd.name.clone(), symbol_id));
                symbol_table.push(
                    Symbol {
                        id: symbol_id,
                        name: fd.name.clone(),
                        kind: SymbolKind::Function { param_types, return_type: None },
                    },
                );
                proof {
                    lemma_map_view_push(before_map, symbol_map@.last());
                    lemma_symbols_view_push(before_syms, symbol_table@.last());
                    assert(symbol_table@.last()@.kind->Function_param_types =~= fd.params@
                        .map_values(|p: (String, DataType)| p.1));
                    assert(symbols_view(symbol_table@) =~= pass1_step(st, ast@[idx as int]).symbols);
                    assert(map_view(symbol_map@) =~= pass1_step(st, ast@[idx as int]).map);
                }
            },
            _ => {},
        }
        idx = idx + 1;
    }

    let ghost p1 = pass1_upto(ast@, n);
    let ghost m0 = p1.map;
    let ghost start = Pass2State {
        instructions: Seq::empty(),
        symbols: p1.symbols,
        counter: p1.counter,
    };

    // Second pass: emit instructions in source order.
    let mut instructions: Vec<Instruction> = Vec::new();
    let mut idx2: usize = 0;
    while idx2 < ast.len()
        invariant
            idx2 <= ast@.len(),
            n == ast@.len() as int,
            sym_demand(ast@) <= u32::MAX,
            p1 == pass1_upto(ast@, n),
            m0 == p1.map,
            start == (Pass2State {
                instructions: Seq::<InstructionView>::empty(),
                symbols: p1.symbols,
                counter: p1.counter,
            }),
            map_view(symbol_map@) == m0,
            instrs_view(instructions@) == pass2_upto(ast@, m0, start, idx2 as int).instructions,
            symbols_view(symbol_table@) == pass2_upto(ast@, m0, start, idx2 as int).symbols,
            counter as int == pass2_upto(ast@, m0, start, idx2 as int).counter,
        decreases ast@.len() - idx2,
    {
        let ghost st = pass2_upto(ast@, m0, start, idx2 as int);
        let AstNode::Statement(stmt) = &ast[idx2];
        match stmt {
            Statement::FunctionDeclaration(fd) => {
                match lookup_id(&symbol_map, &fd.name) {
                    Some(fid) => {
                        let ghost c0 = counter as int;
                        let ghost k = fd.params@.len();
                        proof {
                            lemma_pass1_counter(ast@, n);
                            lemma_pass2_counter_le(ast@, m0, start, idx2 as int);
                            lemma_params_mono(ast@, idx2 as int + 1, n);
                            lemma_demand_decomp(ast@, n);
                            assert(params_upto(ast@, idx2 as int + 1) == params_upto(
                                ast@,
                                idx2 as int,
                            ) + k);
                            assert(c0 + k <= u32::MAX);
                        }
                        let mut param_symbol_ids: Vec<u32> = Vec::new();
                        let mut local_map = copy_map(&symbol_map);
                        let ghost syms0 = symbols_view(symbol_table@);
                        let mut j: usize = 0;
                        while j < fd.params.len()
                            invariant
                                j <= fd.params@.len(),
                                k == fd.params@.len(),
                                c0 + k <= u32::MAX,
                                counter as int == c0 + j,
                                param_symbol_ids@.len() == j,
                                forall|i: int|
                                    0 <= i < j ==> param_symbol_ids@[i] == (c0 + i) as u32,
                                map_view(local_map@) == m0 + Seq::new(
                                    j as nat,
                                    |i: int| (fd.params@[i].0@, (c0 + i) as u32),
                                ),
                                symbols_view(symbol_table@) == syms0 + param_symbols(
                                    fd.params@,
                                    c0,
                                ).take(j as int),
                                map_view(symbol_map@) == m0,
                            decreases fd.params@.len() - j,
                        {
                            let param_symbol_id = counter;
                            counter = counter + 1;
                            param_symbol_ids.push(param_symbol_id);
                            let pname = &fd.params[j].0;
                            let ghost fm_before = local_map@;
                            local_map.push((pname.clone(), param_symbol_id));
                            // The declared type of this parameter: the first
                            // entry of the list that carries its name.
                            let mut dt = DataType::Str;
                            let mut t: usize = 0;
                            while t < fd.params.len()
                                invariant_except_break
                                    dt == DataType::Str,
                                invariant
                                    t <= fd.params@.len(),
                                    forall|u: int|
                                        0 <= u < t ==> (#[trigger] fd.params@[u]).0@ != pname@,
                                ensures
                                    t <= fd.params@.len(),
                                    forall|u: int|
                                        0 <= u < t ==> (#[trigger] fd.params@[u]).0@ != pname@,
                                    t < fd.params@.len() ==> fd.params@[t as int].0@ == pname@
                                        && dt == fd.params@[t as int].1,
                                    t == fd.params@.len() ==> dt == DataType::Str,
                                decreases fd.params@.len() - t,
                            {
                                if fd.params[t].0 == *pname {
                                    dt = fd.params[t].1;
                                    break;
                                }
                                t = t + 1;
                            }
                            proof {
                                lemma_first_param_type_at(fd.params@, pname@, t as int);
                            }
                            let ghost syms_before = symbol_table@;
                            symbol_table.push(
                                Symbol {
                                    id: param_symbol_id,
                                    name: pname.clone(),
                                    kind: SymbolKind::Variable { data_type: dt },
                                },
                            );
                            proof {
                                lemma_map_view_push(fm_before, local_map@.last());
                                lemma_symbols_view_push(syms_before, symbol_table@.last());
                                assert(map_view(local_map@) =~= m0 + Seq::new(
                                    (j + 1) as nat,
                                    |i: int| (fd.params@[i].0@, (c0 + i) as u32),
                                ));
                                assert(symbols_view(symbol_table@) =~= syms0 + param_symbols(
                                    fd.params@,
                                    c0,
                                ).take(j + 1));
                            }
                            j = j + 1;
                        }
                        proof {
                            assert(map_view(local_map@) =~= func_map(m0, fd.params@, c0));
                            assert(param_symbol_ids@ =~= param_ids(c0, k));
                            assert(param_symbols(fd.params@, c0).take(k as int) =~= param_symbols(
                                fd.params@,
                                c0,
                            ));
                        }
                        let ghost fm = func_map(m0, fd.params@, c0);
                        let ghost ins0 = instrs_view(instructions@);
                        let ghost body_start_g = ins0.len() as int;
                        let body_start = instructions.len();
                        let mut b: usize = 0;
                        while b < fd.body.len()
                            invariant
                                b <= fd.body@.len(),
                                body_start == body_start_g,
                                body_start_g == ins0.len(),
                                fm == map_view(local_map@),
                                instrs_view(instructions@) == ins0 + lower_body_upto(
                                    fd.body@,
                                    fm,
                                    body_start_g,
                                    b as int,
                                ),
                            decreases fd.body@.len() - b,
                        {
                            let ghost prefix = lower_body_upto(fd.body@, fm, body_start_g, b as int);
                            statement_to_instructions(&fd.body[b], &mut instructions, &local_map);
                            proof {
                                assert(lower_body_upto(fd.body@, fm, body_start_g, b as int + 1)
                                    == prefix + lower_body_stmt(
                                    fd.body@[b as int],
                                    fm,
                                    body_start_g + prefix.len(),
                                ));
                                assert(instrs_view(instructions@) =~= ins0 + lower_body_upto(
                                    fd.body@,
                                    fm,
                                    body_start_g,
                                    b as int + 1,
                                ));
                            }
                            b = b + 1;
                        }
                        let body_end = instructions.len();
                        let ghost before = instructions@;
                        instructions.push(
                            Instruction::DeclareFunc {
                                symbol_id: fid,
                                param_count: #[verifier::truncate] (fd.params.len() as u32),
                                param_symbol_ids,
                                body_start: #[verifier::truncate] (body_start as u32),
                                body_end: #[verifier::truncate] (body_end as u32),
                            },
                        );
                        proof {
                            lemma_instrs_view_push(before, instructions@.last());
                            assert(instrs_view(instructions@) =~= pass2_step(
                                st,
                                ast@[idx2 as int],
                                m0,
                            ).instructions);
                            assert(symbols_view(symbol_table@) =~= pass2_step(
                                st,
                                ast@[idx2 as int],
                                m0,
                            ).symbols);
                        }
                    },
                    None => {},
                }
            },
            Statement::SystemExec(fc) => {
                match lookup_id(&symbol_map, &fc.name) {
                    Some(fid) => {
                        let ghost ins0 = instrs_view(instructions@);
                        let mut a: usize = 0;
                        while a < fc.args.len()
                            invariant
                                a <= fc.args@.len(),
                                m0 == map_view(symbol_map@),
                                instrs_view(instructions@) == ins0 + lower_args_upto(
                                    fc.args@,
                                    m0,
                                    a as int,
                                ),
                            decreases fc.args@.len() - a,
                        {
                            expression_to_instructions(
                                &fc.args[a].1,
                                &mut instructions,
                                &symbol_map,
                            );
                            proof {
                                assert(instrs_view(instructions@) =~= ins0 + lower_args_upto(
                                    fc.args@,
                                    m0,
                                    a as int + 1,
                                ));
                            }
                            a = a + 1;
                        }
                        let ghost before = instructions@;
                        instructions.push(
                            Instruction::CallFunc {
                                symbol_id: fid,
                                arg_count: #[verifier::truncate] (fc.args.len() as u32),
                            },
                        );
                        proof {
                            lemma_instrs_view_push(before, instructions@.last());
                            assert(instrs_view(instructions@) =~= pass2_step(
                                st,
                                ast@[idx2 as int],
                                m0,
                            ).instructions);
                        }
                    },
                    None => {},
                }
            },
            _ => {
                statement_to_instructions(stmt, &mut instructions, &symbol_map);
                proof {
                    assert(instrs_view(instructions@) =~= pass2_step(
                        st,
                        ast@[idx2 as int],
                        m0,
                    ).instructions);
                }
            },
        }
        idx2 = idx2 + 1;
    }

    let r = Program { instructions, string_table: Vec::new(), symbol_table };
    proof {
        assert(r@.string_table =~= Seq::<Seq<char>>::empty());
        assert(r@ =~= spec_lower(ast@));
    }
    r
}

} // verus!
