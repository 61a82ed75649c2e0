//! The stack-machine virtual machine.
//!
//! Execution is one fetch/decode/execute loop over the flat instruction
//! sequence. There are no jumps: the only non-linear transfers are the two
//! bounded, inline sub-executions — a function body run by `CallFunc` and a
//! log-message range run by `Log` — and both resume immediately after the
//! instruction that triggered them.
//!
//! The whole run is specified by the recursive function [`run`]: the
//! machine's only observable effect is the sequence of log lines it
//! accumulates, and [`VM::execute`] ensures the final machine state equals
//! `run` applied to the initial one.
//!
//! The machine is deliberately lenient: reads of unbound variables produce
//! null, stack underflow and calls to undeclared functions are silent
//! no-ops, and argument lists are cut or padded to the parameter list.
//! [`VM::execute_strict`] runs the same machine with those leniencies
//! surfaced as distinct error kinds instead; a faultless strict run lands
//! in exactly the lenient state (`lemma_strict_refines_lenient`).

use vstd::prelude::*;

use std::collections::HashMap;

use crate::ast::{value_text, value_to_string, Value, ValueView};
use crate::ir::{instrs_view, Instruction, InstructionView, LogType, Program, ProgramView};

verus! {

broadcast use vstd::std_specs::hash::group_hash_axioms;

/// One line of log output: a severity and the rendered message.
#[derive(Debug, Clone, PartialEq, Eq)]
pub struct LogLine {
    pub level: LogType,
    pub message: String,
}

/// Ghost shape of a [`LogLine`].
#[verifier::ext_equal]
pub struct LogLineView {
    pub level: LogType,
    pub message: Seq<char>,
}

impl View for LogLine {
    type V = LogLineView;

    open spec fn view(&self) -> LogLineView {
        LogLineView { level: self.level, message: self.message@ }
    }
}

/// What the machine remembers about a declared function.
#[derive(Debug, Clone, PartialEq, Eq)]
pub struct FunctionInfo {
    pub param_count: u32,
    pub param_symbol_ids: Vec<u32>,
    pub body_start: u32,
    pub body_end: u32,
}

/// Ghost shape of a [`FunctionInfo`].
#[verifier::ext_equal]
pub struct FuncInfoView {
    pub param_count: u32,
    pub param_symbol_ids: Seq<u32>,
    pub body_start: u32,
    pub body_end: u32,
}

impl View for FunctionInfo {
    type V = FuncInfoView;

    open spec fn view(&self) -> FuncInfoView {
        FuncInfoView {
            param_count: self.param_count,
            param_symbol_ids: self.param_symbol_ids@,
            body_start: self.body_start,
            body_end: self.body_end,
        }
    }
}

impl FunctionInfo {
    /// An owned copy with exactly the same content.
    fn dup(&self) -> (r: FunctionInfo)
        ensures
            r@ == self@,
    {
        let mut ids: Vec<u32> = Vec::new();
        let mut i: usize = 0;
        while i < self.param_symbol_ids.len()
            invariant
                i <= self.param_symbol_ids@.len(),
                ids@ == self.param_symbol_ids@.take(i as int),
            decreases self.param_symbol_ids@.len() - i,
        {
            ids.push(self.param_symbol_ids[i]);
            proof {
                assert(ids@ =~= self.param_symbol_ids@.take(i as int + 1));
            }
            i = i + 1;
        }
        proof {
            assert(self.param_symbol_ids@.take(i as int) =~= self.param_symbol_ids@);
        }
        FunctionInfo {
            param_count: self.param_count,
            param_symbol_ids: ids,
            body_start: self.body_start,
            body_end: self.body_end,
        }
    }
}

/// The machine's mutable state, in ghost form: the variable environment, the
/// registered functions, the operand stack, and the log output so far.
#[verifier::ext_equal]
pub struct VmState {
    pub vars: Map<u32, ValueView>,
    pub funcs: Map<u32, FuncInfoView>,
    pub stack: Seq<ValueView>,
    pub output: Seq<LogLineView>,
}

/// The state a fresh machine starts in: everything empty.
pub open spec fn init_state() -> VmState {
    VmState {
        vars: Map::empty(),
        funcs: Map::empty(),
        stack: Seq::empty(),
        output: Seq::empty(),
    }
}

/// Which of the three nested dispatch positions an instruction executes in.
/// Declarations and calls act only at the top level, a log statement also
/// acts inside a function body, and a message range runs only the
/// value-producing instructions; everything else is a silent no-op there.
#[derive(Clone, Copy, PartialEq, Eq, Structural, Debug)]
pub enum ExecContext {
    /// The top-level loop.
    Top,
    /// A function body run by `CallFunc`.
    Body,
    /// A log-message range run by `Log`.
    Message,
}

/// How deeply a context can still nest; the termination measure of [`run`].
pub open spec fn ctx_depth(ctx: ExecContext) -> nat {
    match ctx {
        ExecContext::Top => 2,
        ExecContext::Body => 1,
        ExecContext::Message => 0,
    }
}

/// Pushing a value onto the stack: the concatenation of two popped values,
/// as text.
pub open spec fn concat_values(l: ValueView, r: ValueView) -> ValueView {
    ValueView::Str(value_text(l) + value_text(r))
}

/// The variable environment after binding the first `n` arguments to the
/// parameter ids, in order; a later binding overwrites an earlier one.
pub open spec fn bind_params(
    vars: Map<u32, ValueView>,
    ids: Seq<u32>,
    args: Seq<ValueView>,
    n: int,
) -> Map<u32, ValueView>
    decreases n,
{
    if n <= 0 {
        vars
    } else {
        bind_params(vars, ids, args, n - 1).insert(ids[n - 1], args[n - 1])
    }
}

/// Executes instructions `[pc, end)` of `p` (clipped to the sequence) in
/// context `ctx`, starting from `st`. In a function body a `Return` pops one
/// pending value, if any, and ends the body early. A `CallFunc` pops its
/// arguments, snapshots the variable environment, binds arguments to
/// parameter ids positionally (extras discarded, missing left unbound),
/// runs the body as a nested execution, and restores the snapshot — callee
/// writes never persist. A `Log` runs its message range as a nested
/// execution, pops the one value it is expected to leave (an empty message
/// if it left none), discards any surplus down to the recorded depth, and
/// appends one log line.
pub open spec fn run(
    p: Seq<InstructionView>,
    st: VmState,
    pc: int,
    end: int,
    ctx: ExecContext,
) -> VmState
    decreases ctx_depth(ctx), (if pc < end { end - pc } else { 0 }),
{
    if pc < 0 || pc >= end || pc >= p.len() {
        st
    } else {
        match p[pc] {
            InstructionView::InitVar { symbol_id, value } => run(
                p,
                VmState { vars: st.vars.insert(symbol_id, value), ..st },
                pc + 1,
                end,
                ctx,
            ),
            InstructionView::SetVar { symbol_id, value } => run(
                p,
                VmState { vars: st.vars.insert(symbol_id, value), ..st },
                pc + 1,
                end,
                ctx,
            ),
            InstructionView::SetVarFromStack { symbol_id } => {
                let st2 = if st.stack.len() > 0 {
                    VmState {
                        vars: st.vars.insert(symbol_id, st.stack.last()),
                        stack: st.stack.drop_last(),
                        ..st
                    }
                } else {
                    st
                };
                run(p, st2, pc + 1, end, ctx)
            },
            InstructionView::LoadValue { value } => run(
                p,
                VmState { stack: st.stack.push(value), ..st },
                pc + 1,
                end,
                ctx,
            ),
            InstructionView::LoadVar { symbol_id } => {
                let v = if st.vars.contains_key(symbol_id) {
                    st.vars[symbol_id]
                } else {
                    ValueView::Null
                };
                run(p, VmState { stack: st.stack.push(v), ..st }, pc + 1, end, ctx)
            },
            InstructionView::Concat => {
                let st2 = if st.stack.len() >= 2 {
                    let r = st.stack.last();
                    let l = st.stack.drop_last().last();
                    VmState {
                        stack: st.stack.drop_last().drop_last().push(concat_values(l, r)),
                        ..st
                    }
                } else {
                    st
                };
                run(p, st2, pc + 1, end, ctx)
            },
            InstructionView::DeclareFunc {
                symbol_id,
                param_count,
                param_symbol_ids,
                body_start,
                body_end,
            } => {
                let st2 = if ctx is Top {
                    VmState {
                        funcs: st.funcs.insert(
                            symbol_id,
                            FuncInfoView { param_count, param_symbol_ids, body_start, body_end },
                        ),
                        ..st
                    }
                } else {
                    st
                };
                run(p, st2, pc + 1, end, ctx)
            },
            InstructionView::CallFunc { symbol_id, arg_count } => {
                let st2 = if ctx is Top && st.funcs.contains_key(symbol_id) {
                    let f = st.funcs[symbol_id];
                    let taken = if arg_count as int <= st.stack.len() {
                        arg_count as int
                    } else {
                        st.stack.len() as int
                    };
                    let args = st.stack.skip(st.stack.len() - taken);
                    let rest = st.stack.take(st.stack.len() - taken);
                    let bound = if args.len() <= f.param_symbol_ids.len() {
                        args.len() as int
                    } else {
                        f.param_symbol_ids.len() as int
                    };
                    let entry = VmState {
                        vars: bind_params(st.vars, f.param_symbol_ids, args, bound),
                        funcs: st.funcs,
                        stack: rest,
                        output: st.output,
                    };
                    let after = run(
                        p,
                        entry,
                        f.body_start as int,
                        f.body_end as int,
                        ExecContext::Body,
                    );
                    VmState { vars: st.vars, ..after }
                } else {
                    st
                };
                run(p, st2, pc + 1, end, ctx)
            },
            InstructionView::Log { log_type, message_expr_start, message_expr_end } => {
                let st2 = if ctx is Top || ctx is Body {
                    let depth = st.stack.len() as int;
                    let after = run(
                        p,
                        st,
                        message_expr_start as int,
                        message_expr_end as int,
                        ExecContext::Message,
                    );
                    let message = if after.stack.len() > depth {
                        value_text(after.stack.last())
                    } else {
                        Seq::empty()
                    };
                    let stack = if after.stack.len() > depth {
                        after.stack.take(depth)
                    } else {
                        after.stack
                    };
                    VmState {
                        stack,
                        output: after.output.push(LogLineView { level: log_type, message }),
                        ..after
                    }
                } else {
                    st
                };
                run(p, st2, pc + 1, end, ctx)
            },
            InstructionView::Return => {
                if ctx is Body {
                    // End the body early, discarding one pending value.
                    VmState {
                        stack: if st.stack.len() > 0 {
                            st.stack.drop_last()
                        } else {
                            st.stack
                        },
                        ..st
                    }
                } else {
                    run(p, st, pc + 1, end, ctx)
                }
            },
        }
    }
}

/// What executing a whole program from a fresh machine produces.
pub open spec fn spec_execute(p: ProgramView) -> VmState {
    run(p.instructions, init_state(), 0, p.instructions.len() as int, ExecContext::Top)
}

// ---------------------------------------------------------------------------
// The executable machine.
// ---------------------------------------------------------------------------

/// The ghost contents of the executable variable environment.
pub open spec fn vars_view(m: Map<u32, Value>) -> Map<u32, ValueView> {
    Map::new(|k: u32| m.contains_key(k), |k: u32| m[k]@)
}

/// The ghost contents of the executable function registry.
pub open spec fn funcs_view(m: Map<u32, FunctionInfo>) -> Map<u32, FuncInfoView> {
    Map::new(|k: u32| m.contains_key(k), |k: u32| m[k]@)
}

/// The ghost contents of the executable operand stack.
pub open spec fn stack_view(s: Seq<Value>) -> Seq<ValueView> {
    s.map_values(|v: Value| v@)
}

/// The ghost contents of the executable output buffer.
pub open spec fn output_view(s: Seq<LogLine>) -> Seq<LogLineView> {
    s.map_values(|l: LogLine| l@)
}

proof fn lemma_vars_insert(m: Map<u32, Value>, k: u32, v: Value)
    ensures
        vars_view(m.insert(k, v)) == vars_view(m).insert(k, v@),
{
    assert(vars_view(m.insert(k, v)) =~= vars_view(m).insert(k, v@));
}

proof fn lemma_funcs_insert(m: Map<u32, FunctionInfo>, k: u32, v: FunctionInfo)
    ensures
        funcs_view(m.insert(k, v)) == funcs_view(m).insert(k, v@),
{
    assert(funcs_view(m.insert(k, v)) =~= funcs_view(m).insert(k, v@));
}

proof fn lemma_stack_push(s: Seq<Value>, v: Value)
    ensures
        stack_view(s.push(v)) == stack_view(s).push(v@),
{
    assert(stack_view(s.push(v)) =~= stack_view(s).push(v@));
}

proof fn lemma_stack_drop(s: Seq<Value>)
    requires
        s.len() > 0,
    ensures
        stack_view(s.drop_last()) == stack_view(s).drop_last(),
        stack_view(s).last() == s.last()@,
        stack_view(s).len() == s.len(),
{
    assert(stack_view(s.drop_last()) =~= stack_view(s).drop_last());
}

proof fn lemma_output_push(s: Seq<LogLine>, l: LogLine)
    ensures
        output_view(s.push(l)) == output_view(s).push(l@),
{
    assert(output_view(s.push(l)) =~= output_view(s).push(l@));
}

/// An owned copy of a vector of ids.
fn copy_ids(v: &Vec<u32>) -> (r: Vec<u32>)
    ensures
        r@ == v@,
{
    let mut r: Vec<u32> = Vec::new();
    let mut i: usize = 0;
    while i < v.len()
        invariant
            i <= v@.len(),
            r@ == v@.take(i as int),
        decreases v@.len() - i,
    {
        r.push(v[i]);
        proof {
            assert(r@ =~= v@.take(i as int + 1));
        }
        i = i + 1;
    }
    proof {
        assert(v@.take(i as int) =~= v@);
    }
    r
}

/// The stack-machine virtual machine: a program, read-only once handed in,
/// and the runtime state it drives. The state lives for one machine and is
/// never persisted.
pub struct VM {
    variables: HashMap<u32, Value>,
    functions: HashMap<u32, FunctionInfo>,
    stack: Vec<Value>,
    program: Program,
    output: Vec<LogLine>,
}

impl VM {
    /// The machine's runtime state, in ghost form.
    pub closed spec fn state(&self) -> VmState {
        VmState {
            vars: vars_view(self.variables@),
            funcs: funcs_view(self.functions@),
            stack: stack_view(self.stack@),
            output: output_view(self.output@),
        }
    }

    /// The program the machine was given.
    pub closed spec fn prog(&self) -> ProgramView {
        self.program@
    }

    /// A fresh machine over a program: empty environment, empty registry,
    /// empty stack, no output. Functions are registered only when their
    /// `DeclareFunc` instructions execute.
    pub fn new(program: Program) -> (r: VM)
        ensures
            r.prog() == program@,
            r.state() == init_state(),
    {
        let vm = VM {
            variables: HashMap::new(),
            functions: HashMap::new(),
            stack: Vec::new(),
            program,
            output: Vec::new(),
        };
        proof {
            assert(vm.state() =~= init_state());
        }
        vm
    }

    /// The log lines written so far, oldest first.
    pub fn output(&self) -> (r: &Vec<LogLine>)
        ensures
            output_view(r@) == self.state().output,
    {
        &self.output
    }

    /// The operand stack as it currently stands, bottom first.
    pub fn stack(&self) -> (r: &Vec<Value>)
        ensures
            stack_view(r@) == self.state().stack,
    {
        &self.stack
    }

    /// Executes instructions `[start, end)` (clipped to the program) in the
    /// given context, transforming the runtime state exactly as [`run`]
    /// describes.
    fn exec_range(&mut self, start: usize, end: usize, ctx: ExecContext)
        ensures
            final(self).program == old(self).program,
            final(self).state() == run(
                instrs_view(old(self).program.instructions@),
                old(self).state(),
                start as int,
                end as int,
                ctx,
            ),
        decreases ctx_depth(ctx),
    {
        let ghost p = instrs_view(self.program.instructions@);
        let ghost st0 = self.state();
        let mut pc: usize = start;
        while pc < end && pc < self.program.instructions.len()
            invariant_except_break
                run(p, st0, start as int, end as int, ctx) == run(
                    p,
                    self.state(),
                    pc as int,
                    end as int,
                    ctx,
                ),
            invariant
                pc >= start,
                self.program == old(self).program,
                p == instrs_view(self.program.instructions@),
            ensures
                self.program == old(self).program,
                run(p, st0, start as int, end as int, ctx) == self.state(),
            decreases end - pc,
        {
            let ghost st_pre = self.state();
            proof {
                assert(p[pc as int] == self.program.instructions@[pc as int]@);
            }
            match &self.program.instructions[pc] {
                Instruction::InitVar { symbol_id, value } => {
                    let sid = *symbol_id;
                    let v = value.dup();
                    let ghost mv = self.variables@;
                    self.variables.insert(sid, v);
                    proof {
                        lemma_vars_insert(mv, sid, v);
                        assert(self.state() =~= (VmState {
                            vars: st_pre.vars.insert(sid, v@),
                            ..st_pre
                        }));
                    }
                },
                Instruction::SetVar { symbol_id, value } => {
                    let sid = *symbol_id;
                    let v = value.dup();
                    let ghost mv = self.variables@;
                    self.variables.insert(sid, v);
                    proof {
                        lemma_vars_insert(mv, sid, v);
                        assert(self.state() =~= (VmState {
                            vars: st_pre.vars.insert(sid, v@),
                            ..st_pre
                        }));
                    }
                },
                Instruction::SetVarFromStack { symbol_id } => {
                    let sid = *symbol_id;
                    let ghost sv = self.stack@;
                    match self.stack.pop() {
                        Some(v) => {
                            let ghost mv = self.variables@;
                            self.variables.insert(sid, v);
                            proof {
                                lemma_stack_drop(sv);
                                lemma_vars_insert(mv, sid, v);
                                assert(self.state() =~= (VmState {
                                    vars: st_pre.vars.insert(sid, st_pre.stack.last()),
                                    stack: st_pre.stack.drop_last(),
                                    ..st_pre
                                }));
                            }
                        },
                        None => {
                            proof {
                                assert(self.state() =~= st_pre);
                            }
                        },
                    }
                },
                Instruction::LoadValue { value } => {
                    let v = value.dup();
                    let ghost sv = self.stack@;
                    self.stack.push(v);
                    proof {
                        lemma_stack_push(sv, self.stack@.last());
                        assert(self.state() =~= (VmState {
                            stack: st_pre.stack.push(v@),
                            ..st_pre
                        }));
                    }
                },
                Instruction::LoadVar { symbol_id } => {
                    let sid = *symbol_id;
                    let v = match self.variables.get(&sid) {
                        Some(b) => b.dup(),
                        None => Value::Null,
                    };
                    let ghost sv = self.stack@;
                    self.stack.push(v);
                    proof {
                        lemma_stack_push(sv, self.stack@.last());
                        let ghost sv2 = if st_pre.vars.contains_key(sid) {
                            st_pre.vars[sid]
                        } else {
                            ValueView::Null
                        };
                        assert(self.state() =~= (VmState {
                            stack: st_pre.stack.push(sv2),
                            ..st_pre
                        }));
                    }
                },
                Instruction::Concat => {
                    if self.stack.len() >= 2 {
                        let ghost sv = self.stack@;
                        let right = match self.stack.pop() {
                            Some(v) => v,
                            None => Value::Null,
                        };
                        let ghost sv1 = self.stack@;
                        let left = match self.stack.pop() {
                            Some(v) => v,
                            None => Value::Null,
                        };
                        let lt = value_to_string(&left);
                        let rt = value_to_string(&right);
                        let joined = lt.concat(rt.as_str());
                        let ghost sv2 = self.stack@;
                        self.stack.push(Value::Str(joined));
                        proof {
                            lemma_stack_drop(sv);
                            lemma_stack_drop(sv1);
                            lemma_stack_push(sv2, self.stack@.last());
                            assert(self.state() =~= (VmState {
                                stack: st_pre.stack.drop_last().drop_last().push(
                                    concat_values(
                                        st_pre.stack.drop_last().last(),
                                        st_pre.stack.last(),
                                    ),
                                ),
                                ..st_pre
                            }));
                        }
                    } else {
                        proof {
                            assert(self.state() =~= st_pre);
                        }
                    }
                },
                Instruction::DeclareFunc {
                    symbol_id,
                    param_count,
                    param_symbol_ids,
                    body_start,
                    body_end,
                } => {
                    match ctx {
                        ExecContext::Top => {
                            let sid = *symbol_id;
                            let fi = FunctionInfo {
                                param_count: *param_count,
                                param_symbol_ids: copy_ids(param_symbol_ids),
                                body_start: *body_start,
                                body_end: *body_end,
                            };
                            let ghost mv = self.functions@;
                            let ghost fiv = fi@;
                            self.functions.insert(sid, fi);
                            proof {
                                lemma_funcs_insert(mv, sid, self.functions@[sid]);
                                assert(self.state() =~= (VmState {
                                    funcs: st_pre.funcs.insert(sid, fiv),
                                    ..st_pre
                                }));
                            }
                        },
                        _ => {
                            proof {
                                assert(self.state() =~= st_pre);
                            }
                        },
                    }
                },
                Instruction::CallFunc { symbol_id, arg_count } => {
                    match ctx {
                        ExecContext::Top => {
                            let sid = *symbol_id;
                            let argc = *arg_count;
                            let found = match self.functions.get(&sid) {
                                Some(fi) => Some(fi.dup()),
                                None => None,
                            };
                            match found {
                                Some(f) => {
                                    let ghost fv = f@;
                                    // Pop the arguments; the caller pushed them
                                    // left to right, so the popped run, kept in
                                    // order, is the argument list.
                                    let taken = if (argc as usize) <= self.stack.len() {
                                        argc as usize
                                    } else {
                                        self.stack.len()
                                    };
                                    let split_at = self.stack.len() - taken;
                                    let ghost sv = self.stack@;
                                    let args = self.stack.split_off(split_at);
                                    proof {
                                        assert(stack_view(self.stack@) =~= st_pre.stack.take(
                                            split_at as int,
                                        ));
                                        assert(stack_view(args@) =~= st_pre.stack.skip(
                                            split_at as int,
                                        ));
                                    }
                                    // Snapshot the whole environment; callee
                                    // writes are discarded on return.
                                    let saved = self.variables.clone();
                                    let ghost saved_vars = st_pre.vars;
                                    proof {
                                        assert(vars_view(saved@) =~= saved_vars);
                                    }
                                    let bound = if args.len() <= f.param_symbol_ids.len() {
                                        args.len()
                                    } else {
                                        f.param_symbol_ids.len()
                                    };
                                    let mut i: usize = 0;
                                    while i < bound
                                        invariant
                                            i <= bound,
                                            bound <= args@.len(),
                                            bound <= f.param_symbol_ids@.len(),
                                            self.program == old(self).program,
                                            funcs_view(self.functions@) == st_pre.funcs,
                                            stack_view(self.stack@) == st_pre.stack.take(
                                                split_at as int,
                                            ),
                                            output_view(self.output@) == st_pre.output,
                                            vars_view(self.variables@) == bind_params(
                                                saved_vars,
                                                f@.param_symbol_ids,
                                                stack_view(args@),
                                                i as int,
                                            ),
                                        decreases bound - i,
                                    {
                                        let ghost mv = self.variables@;
                                        self.variables.insert(
                                            f.param_symbol_ids[i],
                                            args[i].dup(),
                                        );
                                        proof {
                                            lemma_vars_insert(
                                                mv,
                                                f.param_symbol_ids@[i as int],
                                                self.variables@[f.param_symbol_ids@[i as int]],
                                            );
                                        }
                                        i = i + 1;
                                    }
                                    let ghost entry = VmState {
                                        vars: bind_params(
                                            saved_vars,
                                            fv.param_symbol_ids,
                                            st_pre.stack.skip(split_at as int),
                                            bound as int,
                                        ),
                                        funcs: st_pre.funcs,
                                        stack: st_pre.stack.take(split_at as int),
                                        output: st_pre.output,
                                    };
                                    proof {
                                        assert(self.state() =~= entry);
                                    }
                                    self.exec_range(
                                        f.body_start as usize,
                                        f.body_end as usize,
                                        ExecContext::Body,
                                    );
                                    self.variables = saved;
                                    proof {
                                        let ghost after = run(
                                            p,
                                            entry,
                                            fv.body_start as int,
                                            fv.body_end as int,
                                            ExecContext::Body,
                                        );
                                        assert(self.state() =~= (VmState {
                                            vars: saved_vars,
                                            ..after
                                        }));
                                    }
                                },
                                None => {
                                    proof {
                                        assert(self.state() =~= st_pre);
                                    }
                                },
                            }
                        },
                        _ => {
                            proof {
                                assert(self.state() =~= st_pre);
                            }
                        },
                    }
                },
                Instruction::Log { log_type, message_expr_start, message_expr_end } => {
                    match ctx {
                        ExecContext::Message => {
                            proof {
                                assert(self.state() =~= st_pre);
                            }
                        },
                        _ => {
                            let lt = *log_type;
                            let ms = *message_expr_start;
                            let me = *message_expr_end;
                            let depth = self.stack.len();
                            self.exec_range(ms as usize, me as usize, ExecContext::Message);
                            let ghost after = run(
                                p,
                                st_pre,
                                ms as int,
                                me as int,
                                ExecContext::Message,
                            );
                            let ghost step = VmState {
                                stack: if after.stack.len() > depth as int {
                                    after.stack.take(depth as int)
                                } else {
                                    after.stack
                                },
                                output: after.output.push(
                                    LogLineView {
                                        level: lt,
                                        message: if after.stack.len() > depth as int {
                                            value_text(after.stack.last())
                                        } else {
                                            Seq::empty()
                                        },
                                    },
                                ),
                                ..after
                            };
                            if self.stack.len() > depth {
                                let ghost sv = self.stack@;
                                let message = match self.stack.pop() {
                                    Some(v) => value_to_string(&v),
                                    None => String::new(),
                                };
                                proof {
                                    lemma_stack_drop(sv);
                                    assert(after.stack.drop_last() =~= after.stack.take(
                                        after.stack.len() - 1,
                                    ));
                                }
                                while self.stack.len() > depth
                                    invariant
                                        depth <= self.stack@.len(),
                                        self.stack@.len() <= after.stack.len(),
                                        self.program == old(self).program,
                                        vars_view(self.variables@) == after.vars,
                                        funcs_view(self.functions@) == after.funcs,
                                        output_view(self.output@) == after.output,
                                        stack_view(self.stack@) == after.stack.take(
                                            self.stack@.len() as int,
                                        ),
                                    decreases self.stack@.len(),
                                {
                                    let ghost sv2 = self.stack@;
                                    self.stack.pop();
                                    proof {
                                        lemma_stack_drop(sv2);
                                        assert(after.stack.take(sv2.len() as int).drop_last()
                                            =~= after.stack.take(sv2.len() - 1));
                                    }
                                }
                                let ghost ov = self.output@;
                                self.output.push(LogLine { level: lt, message });
                                proof {
                                    lemma_output_push(ov, self.output@.last());
                                    assert(stack_view(self.stack@) =~= after.stack.take(
                                        depth as int,
                                    ));
                                    assert(self.state() =~= step);
                                }
                            } else {
                                let ghost ov = self.output@;
                                self.output.push(LogLine { level: lt, message: String::new() });
                                proof {
                                    lemma_output_push(ov, self.output@.last());
                                    assert(self.state() =~= step);
                                }
                            }
                        },
                    }
                },
                Instruction::Return => {
                    match ctx {
                        ExecContext::Body => {
                            // End the body early, discarding one pending value.
                            if self.stack.len() > 0 {
                                let ghost sv = self.stack@;
                                self.stack.pop();
                                proof {
                                    lemma_stack_drop(sv);
                                }
                            }
                            proof {
                                assert(run(p, st_pre, pc as int, end as int, ctx)
                                    == self.state());
                            }
                            break;
                        },
                        _ => {
                            proof {
                                assert(self.state() =~= st_pre);
                            }
                        },
                    }
                },
            }
            pc = pc + 1;
        }
    }

    /// Strictly executes instructions `[start, end)` (clipped to the
    /// program) in the given context: the state moves exactly as
    /// [`run_strict`] describes, and the result reports the fault that
    /// stopped the machine, if any.
    fn exec_range_strict(&mut self, start: usize, end: usize, ctx: ExecContext) -> (r: Result<
        (),
        VmError,
    >)
        ensures
            final(self).program == old(self).program,
            ({
                let rs = run_strict(
                    instrs_view(old(self).program.instructions@),
                    old(self).state(),
                    start as int,
                    end as int,
                    ctx,
                );
                final(self).state() == rs.0 && (match r {
                    Ok(u) => rs.1 is None,
                    Err(e) => rs.1 == Some(e),
                })
            }),
        decreases ctx_depth(ctx),
    {
        let ghost p = instrs_view(self.program.instructions@);
        let ghost st0 = self.state();
        let mut pc: usize = start;
        while pc < end && pc < self.program.instructions.len()
            invariant_except_break
                run_strict(p, st0, start as int, end as int, ctx) == run_strict(
                    p,
                    self.state(),
                    pc as int,
                    end as int,
                    ctx,
                ),
            invariant
                pc >= start,
                self.program == old(self).program,
                p == instrs_view(self.program.instructions@),
                st0 == old(self).state(),
            ensures
                self.program == old(self).program,
                run_strict(p, st0, start as int, end as int, ctx) == (self.state(), None::<
                    VmError,
                >),
            decreases end - pc,
        {
            let ghost st_pre = self.state();
            proof {
                assert(p[pc as int] == self.program.instructions@[pc as int]@);
            }
            match &self.program.instructions[pc] {
                Instruction::InitVar { symbol_id, value } => {
                    let sid = *symbol_id;
                    let v = value.dup();
                    let ghost mv = self.variables@;
                    self.variables.insert(sid, v);
                    proof {
                        lemma_vars_insert(mv, sid, v);
                        assert(self.state() =~= (VmState {
                            vars: st_pre.vars.insert(sid, v@),
                            ..st_pre
                        }));
                    }
                },
                Instruction::SetVar { symbol_id, value } => {
                    let sid = *symbol_id;
                    let v = value.dup();
                    let ghost mv = self.variables@;
                    self.variables.insert(sid, v);
                    proof {
                        lemma_vars_insert(mv, sid, v);
                        assert(self.state() =~= (VmState {
                            vars: st_pre.vars.insert(sid, v@),
                            ..st_pre
                        }));
                    }
                },
                Instruction::SetVarFromStack { symbol_id } => {
                    let sid = *symbol_id;
                    let ghost sv = self.stack@;
                    match self.stack.pop() {
                        Some(v) => {
                            let ghost mv = self.variables@;
                            self.variables.insert(sid, v);
                            proof {
                                lemma_stack_drop(sv);
                                lemma_vars_insert(mv, sid, v);
                                assert(self.state() =~= (VmState {
                                    vars: st_pre.vars.insert(sid, st_pre.stack.last()),
                                    stack: st_pre.stack.drop_last(),
                                    ..st_pre
                                }));
                            }
                        },
                        None => {
                            proof {
                                assert(self.state() =~= st_pre);
                                assert(st_pre.stack.len() == 0);
                                assert(run_strict(p, st_pre, pc as int, end as int, ctx) == (
                                    st_pre,
                                    Some(VmError::StackUnderflow),
                                ));
                            }
                            return Err(VmError::StackUnderflow);
                        },
                    }
                },
                Instruction::LoadValue { value } => {
                    let v = value.dup();
                    let ghost sv = self.stack@;
                    self.stack.push(v);
                    proof {
                        lemma_stack_push(sv, self.stack@.last());
                        assert(self.state() =~= (VmState {
                            stack: st_pre.stack.push(v@),
                            ..st_pre
                        }));
                    }
                },
                Instruction::LoadVar { symbol_id } => {
                    let sid = *symbol_id;
                    match self.variables.get(&sid) {
                        Some(b) => {
                            let v = b.dup();
                            let ghost sv = self.stack@;
                            self.stack.push(v);
                            proof {
                                lemma_stack_push(sv, self.stack@.last());
                                assert(self.state() =~= (VmState {
                                    stack: st_pre.stack.push(st_pre.vars[sid]),
                                    ..st_pre
                                }));
                            }
                        },
                        None => {
                            proof {
                                assert(self.state() =~= st_pre);
                                assert(!st_pre.vars.contains_key(sid));
                                assert(run_strict(p, st_pre, pc as int, end as int, ctx) == (
                                    st_pre,
                                    Some(VmError::UndefinedSymbol { symbol_id: sid }),
                                ));
                            }
                            return Err(VmError::UndefinedSymbol { symbol_id: sid });
                        },
                    }
                },
                Instruction::Concat => {
                    if self.stack.len() >= 2 {
                        let ghost sv = self.stack@;
                        let right = match self.stack.pop() {
                            Some(v) => v,
                            None => Value::Null,
                        };
                        let ghost sv1 = self.stack@;
                        let left = match self.stack.pop() {
                            Some(v) => v,
                            None => Value::Null,
                        };
                        let lt = value_to_string(&left);
                        let rt = value_to_string(&right);
                        let joined = lt.concat(rt.as_str());
                        let ghost sv2 = self.stack@;
                        self.stack.push(Value::Str(joined));
                        proof {
                            lemma_stack_drop(sv);
                            lemma_stack_drop(sv1);
                            lemma_stack_push(sv2, self.stack@.last());
                            assert(self.state() =~= (VmState {
                                stack: st_pre.stack.drop_last().drop_last().push(
                                    concat_values(
                                        st_pre.stack.drop_last().last(),
                                        st_pre.stack.last(),
                                    ),
                                ),
                                ..st_pre
                            }));
                        }
                    } else {
                        proof {
                            assert(self.state() =~= st_pre);
                        }
                        return Err(VmError::StackUnderflow);
                    }
                },
                Instruction::DeclareFunc {
                    symbol_id,
                    param_count,
                    param_symbol_ids,
                    body_start,
                    body_end,
                } => {
                    match ctx {
                        ExecContext::Top => {
                            let sid = *symbol_id;
                            let fi = FunctionInfo {
                                param_count: *param_count,
                                param_symbol_ids: copy_ids(param_symbol_ids),
                                body_start: *body_start,
                                body_end: *body_end,
                            };
                            let ghost mv = self.functions@;
                            let ghost fiv = fi@;
                            self.functions.insert(sid, fi);
                            proof {
                                lemma_funcs_insert(mv, sid, self.functions@[sid]);
                                assert(self.state() =~= (VmState {
                                    funcs: st_pre.funcs.insert(sid, fiv),
                                    ..st_pre
                                }));
                            }
                        },
                        _ => {
                            proof {
                                assert(self.state() =~= st_pre);
                            }
                        },
                    }
                },
                Instruction::CallFunc { symbol_id, arg_count } => {
                    match ctx {
                        ExecContext::Top => {
                            let sid = *symbol_id;
                            let argc = *arg_count;
                            let found = match self.functions.get(&sid) {
                                Some(fi) => Some(fi.dup()),
                                None => None,
                            };
                            match found {
                                Some(f) => {
                                    let ghost fv = f@;
                                    if argc != f.param_count {
                                        proof {
                                            assert(self.state() =~= st_pre);
                                        }
                                        return Err(
                                            VmError::ArityMismatch {
                                                expected: f.param_count,
                                                found: argc,
                                            },
                                        );
                                    }
                                    if (argc as usize) > self.stack.len() {
                                        proof {
                                            assert(self.state() =~= st_pre);
                                        }
                                        return Err(VmError::StackUnderflow);
                                    }
                                    let taken = argc as usize;
                                    let split_at = self.stack.len() - taken;
                                    let args = self.stack.split_off(split_at);
                                    proof {
                                        assert(stack_view(self.stack@) =~= st_pre.stack.take(
                                            split_at as int,
                                        ));
                                        assert(stack_view(args@) =~= st_pre.stack.skip(
                                            split_at as int,
                                        ));
                                    }
                                    let saved = self.variables.clone();
                                    let ghost saved_vars = st_pre.vars;
                                    proof {
                                        assert(vars_view(saved@) =~= saved_vars);
                                    }
                                    let bound = if args.len() <= f.param_symbol_ids.len() {
                                        args.len()
                                    } else {
                                        f.param_symbol_ids.len()
                                    };
                                    let mut i: usize = 0;
                                    while i < bound
                                        invariant
                                            i <= bound,
                                            bound <= args@.len(),
                                            bound <= f.param_symbol_ids@.len(),
                                            self.program == old(self).program,
                                            funcs_view(self.functions@) == st_pre.funcs,
                                            stack_view(self.stack@) == st_pre.stack.take(
                                                split_at as int,
                                            ),
                                            output_view(self.output@) == st_pre.output,
                                            vars_view(self.variables@) == bind_params(
                                                saved_vars,
                                                f@.param_symbol_ids,
                                                stack_view(args@),
                                                i as int,
                                            ),
                                        decreases bound - i,
                                    {
                                        let ghost mv = self.variables@;
                                        self.variables.insert(
                                            f.param_symbol_ids[i],
                                            args[i].dup(),
                                        );
                                        proof {
                                            lemma_vars_insert(
                                                mv,
                                                f.param_symbol_ids@[i as int],
                                                self.variables@[f.param_symbol_ids@[i as int]],
                                            );
                                        }
                                        i = i + 1;
                                    }
                                    let ghost entry = VmState {
                                        vars: bind_params(
                                            saved_vars,
                                            fv.param_symbol_ids,
                                            st_pre.stack.skip(split_at as int),
                                            bound as int,
                                        ),
                                        funcs: st_pre.funcs,
                                        stack: st_pre.stack.take(split_at as int),
                                        output: st_pre.output,
                                    };
                                    proof {
                                        assert(self.state() =~= entry);
                                    }
                                    match self.exec_range_strict(
                                        f.body_start as usize,
                                        f.body_end as usize,
                                        ExecContext::Body,
                                    ) {
                                        Ok(_) => {
                                            self.variables = saved;
                                            proof {
                                                let ghost body = run_strict(
                                                    p,
                                                    entry,
                                                    fv.body_start as int,
                                                    fv.body_end as int,
                                                    ExecContext::Body,
                                                );
                                                assert(self.state() =~= (VmState {
                                                    vars: saved_vars,
                                                    ..body.0
                                                }));
                                            }
                                        },
                                        Err(e) => {
                                            return Err(e);
                                        },
                                    }
                                },
                                None => {
                                    proof {
                                        assert(self.state() =~= st_pre);
                                    }
                                    return Err(
                                        VmError::UndeclaredFunction { symbol_id: sid },
                                    );
                                },
                            }
                        },
                        _ => {
                            proof {
                                assert(self.state() =~= st_pre);
                            }
                        },
                    }
                },
                Instruction::Log { log_type, message_expr_start, message_expr_end } => {
                    match ctx {
                        ExecContext::Message => {
                            proof {
                                assert(self.state() =~= st_pre);
                            }
                        },
                        _ => {
                            let lt = *log_type;
                            let ms = *message_expr_start;
                            let me = *message_expr_end;
                            let depth = self.stack.len();
                            match self.exec_range_strict(
                                ms as usize,
                                me as usize,
                                ExecContext::Message,
                            ) {
                                Ok(_) => {},
                                Err(e) => {
                                    return Err(e);
                                },
                            }
                            let ghost msg = run_strict(
                                p,
                                st_pre,
                                ms as int,
                                me as int,
                                ExecContext::Message,
                            );
                            if self.stack.len() <= depth {
                                return Err(VmError::StackUnderflow);
                            }
                            let ghost step = VmState {
                                stack: msg.0.stack.take(depth as int),
                                output: msg.0.output.push(
                                    LogLineView {
                                        level: lt,
                                        message: value_text(msg.0.stack.last()),
                                    },
                                ),
                                ..msg.0
                            };
                            let ghost sv = self.stack@;
                            let message = match self.stack.pop() {
                                Some(v) => value_to_string(&v),
                                None => String::new(),
                            };
                            proof {
                                lemma_stack_drop(sv);
                                assert(msg.0.stack.drop_last() =~= msg.0.stack.take(
                                    msg.0.stack.len() - 1,
                                ));
                            }
                            while self.stack.len() > depth
                                invariant
                                    depth <= self.stack@.len(),
                                    self.stack@.len() <= msg.0.stack.len(),
                                    self.program == old(self).program,
                                    vars_view(self.variables@) == msg.0.vars,
                                    funcs_view(self.functions@) == msg.0.funcs,
                                    output_view(self.output@) == msg.0.output,
                                    stack_view(self.stack@) == msg.0.stack.take(
                                        self.stack@.len() as int,
                                    ),
                                decreases self.stack@.len(),
                            {
                                let ghost sv2 = self.stack@;
                                self.stack.pop();
                                proof {
                                    lemma_stack_drop(sv2);
                                    assert(msg.0.stack.take(sv2.len() as int).drop_last()
                                        =~= msg.0.stack.take(sv2.len() - 1));
                                }
                            }
                            let ghost ov = self.output@;
                            self.output.push(LogLine { level: lt, message });
                            proof {
                                lemma_output_push(ov, self.output@.last());
                                assert(stack_view(self.stack@) =~= msg.0.stack.take(
                                    depth as int,
                                ));
                                assert(self.state() =~= step);
                            }
                        },
                    }
                },
                Instruction::Return => {
                    match ctx {
                        ExecContext::Body => {
                            // End the body early, discarding one pending value.
                            if self.stack.len() > 0 {
                                let ghost sv = self.stack@;
                                self.stack.pop();
                                proof {
                                    lemma_stack_drop(sv);
                                }
                            }
                            proof {
                                assert(run_strict(p, st_pre, pc as int, end as int, ctx)
                                    == (self.state(), None::<VmError>));
                            }
                            break;
                        },
                        _ => {
                            proof {
                                assert(self.state() =~= st_pre);
                            }
                        },
                    }
                },
            }
            pc = pc + 1;
        }
        Ok(())
    }

    /// Runs the whole program strictly: the conditions the lenient machine
    /// tolerates — unbound reads, operand underflow, undeclared calls,
    /// arity mismatches — stop execution with a distinct error kind
    /// instead. A strict run that returns without a fault lands in exactly
    /// the state the lenient [`Self::execute`] would have produced
    /// (`lemma_strict_refines_lenient`).
    pub fn execute_strict(&mut self) -> (r: Result<(), VmError>)
        ensures
            final(self).prog() == old(self).prog(),
            ({
                let rs = run_strict(
                    old(self).prog().instructions,
                    old(self).state(),
                    0,
                    old(self).prog().instructions.len() as int,
                    ExecContext::Top,
                );
                final(self).state() == rs.0 && (match r {
                    Ok(u) => rs.1 is None,
                    Err(e) => rs.1 == Some(e),
                })
            }),
    {
        let end = self.program.instructions.len();
        self.exec_range_strict(0, end, ExecContext::Top)
    }

    /// Runs the whole program to completion. The machine's observable
    /// effect is its log output; the final state, output included, is
    /// exactly what [`run`] gives for the top-level loop over the full
    /// instruction sequence.
    pub fn execute(&mut self)
        ensures
            final(self).prog() == old(self).prog(),
            final(self).state() == run(
                old(self).prog().instructions,
                old(self).state(),
                0,
                old(self).prog().instructions.len() as int,
                ExecContext::Top,
            ),
    {
        let end = self.program.instructions.len();
        self.exec_range(0, end, ExecContext::Top);
    }
}

/// Scope isolation: a function call never lets the callee's variable
/// writes escape. Whatever the called function's body does — including a
/// `SetVarFromStack` on a symbol id that the caller has bound — the
/// variable environment after the `CallFunc` instruction completes is
/// exactly the caller's environment from before it, because the machine
/// snapshots the whole environment at the call and restores it on return.
pub proof fn lemma_call_scope_isolation(p: Seq<InstructionView>, st: VmState, pc: int)
    requires
        0 <= pc < p.len(),
        p[pc] matches InstructionView::CallFunc { .. },
    ensures
        run(p, st, pc, pc + 1, ExecContext::Top).vars == st.vars,
{
    reveal_with_fuel(run, 2);
}

/// Arity leniency, surplus side: binding arguments to parameters reads only
/// the first `n` arguments, one per parameter, so a call that supplies more
/// arguments than the function has parameters binds the same environment as
/// any other argument list that agrees on those first `n` — the extras are
/// discarded.
pub proof fn lemma_extra_args_ignored(
    vars: Map<u32, ValueView>,
    ids: Seq<u32>,
    args1: Seq<ValueView>,
    args2: Seq<ValueView>,
    n: int,
)
    requires
        0 <= n <= args1.len(),
        n <= args2.len(),
        n <= ids.len(),
        args1.take(n) == args2.take(n),
    ensures
        bind_params(vars, ids, args1, n) == bind_params(vars, ids, args2, n),
    decreases n,
{
    if n > 0 {
        assert(args1.take(n)[n - 1] == args2.take(n)[n - 1]);
        assert(args1.take(n - 1) =~= args1.take(n).take(n - 1));
        assert(args2.take(n - 1) =~= args2.take(n).take(n - 1));
        lemma_extra_args_ignored(vars, ids, args1, args2, n - 1);
    }
}

/// Arity leniency, missing side: a call that supplies no arguments binds
/// nothing, and reading an unbound parameter pushes null. Together: inside
/// the body of a function called with too few arguments, the unsupplied
/// parameters read as null.
pub proof fn lemma_unbound_var_reads_null(
    p: Seq<InstructionView>,
    st: VmState,
    pc: int,
    ctx: ExecContext,
    id: u32,
)
    requires
        0 <= pc < p.len(),
        p[pc] == (InstructionView::LoadVar { symbol_id: id }),
        !st.vars.contains_key(id),
    ensures
        bind_params(st.vars, Seq::empty(), Seq::empty(), 0) == st.vars,
        run(p, st, pc, pc + 1, ctx).stack == st.stack.push(ValueView::Null),
{
    reveal_with_fuel(run, 2);
}

// ---------------------------------------------------------------------------
// Strict execution: the same machine with the leniencies surfaced as
// errors. The baseline `execute` keeps the tolerated-by-default behavior;
// callers that want diagnostics instead of silent fallbacks run strictly.
// ---------------------------------------------------------------------------

/// Why a strict run refused to continue; each of these is a condition the
/// lenient machine silently tolerates.
#[derive(Debug, Clone, Copy, PartialEq, Eq, Structural)]
pub enum VmError {
    /// A variable was read with no binding for it.
    UndefinedSymbol { symbol_id: u32 },
    /// An instruction needed more operands than the stack held.
    StackUnderflow,
    /// A call named a function id with no registered declaration.
    UndeclaredFunction { symbol_id: u32 },
    /// A call supplied a different number of arguments than the function
    /// declares parameters.
    ArityMismatch { expected: u32, found: u32 },
}

/// Strict execution of instructions `[pc, end)`: the same stepping as
/// [`run`], except that reading an unbound variable, running short of
/// operands, calling an undeclared function, or calling with the wrong
/// number of arguments stops the machine at the faulting instruction. The
/// result is the state the machine stopped in and the fault, if one
/// occurred; on a faultless run the state is exactly the lenient one
/// (`lemma_strict_refines_lenient`).
pub open spec fn run_strict(
    p: Seq<InstructionView>,
    st: VmState,
    pc: int,
    end: int,
    ctx: ExecContext,
) -> (VmState, Option<VmError>)
    decreases ctx_depth(ctx), (if pc < end { end - pc } else { 0 }),
{
    if pc < 0 || pc >= end || pc >= p.len() {
        (st, None)
    } else {
        match p[pc] {
            InstructionView::InitVar { symbol_id, value } => run_strict(
                p,
                VmState { vars: st.vars.insert(symbol_id, value), ..st },
                pc + 1,
                end,
                ctx,
            ),
            InstructionView::SetVar { symbol_id, value } => run_strict(
                p,
                VmState { vars: st.vars.insert(symbol_id, value), ..st },
                pc + 1,
                end,
                ctx,
            ),
            InstructionView::SetVarFromStack { symbol_id } => {
                if st.stack.len() > 0 {
                    run_strict(
                        p,
                        VmState {
                            vars: st.vars.insert(symbol_id, st.stack.last()),
                            stack: st.stack.drop_last(),
                            ..st
                        },
                        pc + 1,
                        end,
                        ctx,
                    )
                } else {
                    (st, Some(VmError::StackUnderflow))
                }
            },
            InstructionView::LoadValue { value } => run_strict(
                p,
                VmState { stack: st.stack.push(value), ..st },
                pc + 1,
                end,
                ctx,
            ),
            InstructionView::LoadVar { symbol_id } => {
                if st.vars.contains_key(symbol_id) {
                    run_strict(
                        p,
                        VmState { stack: st.stack.push(st.vars[symbol_id]), ..st },
                        pc + 1,
                        end,
                        ctx,
                    )
                } else {
                    (st, Some(VmError::UndefinedSymbol { symbol_id }))
                }
            },
            InstructionView::Concat => {
                if st.stack.len() >= 2 {
                    let r = st.stack.last();
                    let l = st.stack.drop_last().last();
                    run_strict(
                        p,
                        VmState {
                            stack: st.stack.drop_last().drop_last().push(concat_values(l, r)),
                            ..st
                        },
                        pc + 1,
                        end,
                        ctx,
                    )
                } else {
                    (st, Some(VmError::StackUnderflow))
                }
            },
            InstructionView::DeclareFunc {
                symbol_id,
                param_count,
                param_symbol_ids,
                body_start,
                body_end,
            } => {
                let st2 = if ctx is Top {
                    VmState {
                        funcs: st.funcs.insert(
                            symbol_id,
                            FuncInfoView { param_count, param_symbol_ids, body_start, body_end },
                        ),
                        ..st
                    }
                } else {
                    st
                };
                run_strict(p, st2, pc + 1, end, ctx)
            },
            InstructionView::CallFunc { symbol_id, arg_count } => {
                if ctx is Top {
                    if !st.funcs.contains_key(symbol_id) {
                        (st, Some(VmError::UndeclaredFunction { symbol_id }))
                    } else {
                        let f = st.funcs[symbol_id];
                        if arg_count != f.param_count {
                            (
                                st,
                                Some(
                                    VmError::ArityMismatch {
                                        expected: f.param_count,
                                        found: arg_count,
                                    },
                                ),
                            )
                        } else if arg_count as int > st.stack.len() {
                            (st, Some(VmError::StackUnderflow))
                        } else {
                            let taken = arg_count as int;
                            let args = st.stack.skip(st.stack.len() - taken);
                            let rest = st.stack.take(st.stack.len() - taken);
                            let bound = if args.len() <= f.param_symbol_ids.len() {
                                args.len() as int
                            } else {
                                f.param_symbol_ids.len() as int
                            };
                            let entry = VmState {
                                vars: bind_params(st.vars, f.param_symbol_ids, args, bound),
                                funcs: st.funcs,
                                stack: rest,
                                output: st.output,
                            };
                            let body = run_strict(
                                p,
                                entry,
                                f.body_start as int,
                                f.body_end as int,
                                ExecContext::Body,
                            );
                            if body.1 is Some {
                                body
                            } else {
                                run_strict(
                                    p,
                                    VmState { vars: st.vars, ..body.0 },
                                    pc + 1,
                                    end,
                                    ctx,
                                )
                            }
                        }
                    }
                } else {
                    run_strict(p, st, pc + 1, end, ctx)
                }
            },
            InstructionView::Log { log_type, message_expr_start, message_expr_end } => {
                if ctx is Top || ctx is Body {
                    let depth = st.stack.len() as int;
                    let msg = run_strict(
                        p,
                        st,
                        message_expr_start as int,
                        message_expr_end as int,
                        ExecContext::Message,
                    );
                    if msg.1 is Some {
                        msg
                    } else if msg.0.stack.len() <= depth {
                        (msg.0, Some(VmError::StackUnderflow))
                    } else {
                        let message = value_text(msg.0.stack.last());
                        run_strict(
                            p,
                            VmState {
                                stack: msg.0.stack.take(depth),
                                output: msg.0.output.push(
                                    LogLineView { level: log_type, message },
                                ),
                                ..msg.0
                            },
                            pc + 1,
                            end,
                            ctx,
                        )
                    }
                } else {
                    run_strict(p, st, pc + 1, end, ctx)
                }
            },
            InstructionView::Return => {
                if ctx is Body {
                    (
                        VmState {
                            stack: if st.stack.len() > 0 {
                                st.stack.drop_last()
                            } else {
                                st.stack
                            },
                            ..st
                        },
                        None,
                    )
                } else {
                    run_strict(p, st, pc + 1, end, ctx)
                }
            },
        }
    }
}

/// Strict execution refines the lenient machine: wherever a strict run
/// finishes without a fault, the lenient run of the same range from the
/// same state lands in exactly the same final state — so strict success
/// certifies that no lenient fallback fired and the observed output is the
/// lenient output.
pub proof fn lemma_strict_refines_lenient(
    p: Seq<InstructionView>,
    st: VmState,
    pc: int,
    end: int,
    ctx: ExecContext,
)
    requires
        run_strict(p, st, pc, end, ctx).1 is None,
    ensures
        run_strict(p, st, pc, end, ctx).0 == run(p, st, pc, end, ctx),
    decreases ctx_depth(ctx), (if pc < end { end - pc } else { 0 }),
{
    if pc < 0 || pc >= end || pc >= p.len() {
    } else {
        match p[pc] {
            InstructionView::InitVar { symbol_id, value } => {
                lemma_strict_refines_lenient(
                    p,
                    VmState { vars: st.vars.insert(symbol_id, value), ..st },
                    pc + 1,
                    end,
                    ctx,
                );
            },
            InstructionView::SetVar { symbol_id, value } => {
                lemma_strict_refines_lenient(
                    p,
                    VmState { vars: st.vars.insert(symbol_id, value), ..st },
                    pc + 1,
                    end,
                    ctx,
                );
            },
            InstructionView::SetVarFromStack { symbol_id } => {
                lemma_strict_refines_lenient(
                    p,
                    VmState {
                        vars: st.vars.insert(symbol_id, st.stack.last()),
                        stack: st.stack.drop_last(),
                        ..st
                    },
                    pc + 1,
                    end,
                    ctx,
                );
            },
            InstructionView::LoadValue { value } => {
                lemma_strict_refines_lenient(
                    p,
                    VmState { stack: st.stack.push(value), ..st },
                    pc + 1,
                    end,
                    ctx,
                );
            },
            InstructionView::LoadVar { symbol_id } => {
                lemma_strict_refines_lenient(
                    p,
                    VmState { stack: st.stack.push(st.vars[symbol_id]), ..st },
                    pc + 1,
                    end,
                    ctx,
                );
            },
            InstructionView::Concat => {
                let r = st.stack.last();
                let l = st.stack.drop_last().last();
                lemma_strict_refines_lenient(
                    p,
                    VmState {
                        stack: st.stack.drop_last().drop_last().push(concat_values(l, r)),
                        ..st
                    },
                    pc + 1,
                    end,
                    ctx,
                );
            },
            InstructionView::DeclareFunc {
                symbol_id,
                param_count,
                param_symbol_ids,
                body_start,
                body_end,
            } => {
                let st2 = if ctx is Top {
                    VmState {
                        funcs: st.funcs.insert(
                            symbol_id,
                            FuncInfoView { param_count, param_symbol_ids, body_start, body_end },
                        ),
                        ..st
                    }
                } else {
                    st
                };
                lemma_strict_refines_lenient(p, st2, pc + 1, end, ctx);
            },
            InstructionView::CallFunc { symbol_id, arg_count } => {
                if ctx is Top {
                    let f = st.funcs[symbol_id];
                    let taken = arg_count as int;
                    let args = st.stack.skip(st.stack.len() - taken);
                    let rest = st.stack.take(st.stack.len() - taken);
                    let bound = if args.len() <= f.param_symbol_ids.len() {
                        args.len() as int
                    } else {
                        f.param_symbol_ids.len() as int
                    };
                    let entry = VmState {
                        vars: bind_params(st.vars, f.param_symbol_ids, args, bound),
                        funcs: st.funcs,
                        stack: rest,
                        output: st.output,
                    };
                    lemma_strict_refines_lenient(
                        p,
                        entry,
                        f.body_start as int,
                        f.body_end as int,
                        ExecContext::Body,
                    );
                    let after = run(p, entry, f.body_start as int, f.body_end as int,
                        ExecContext::Body);
                    lemma_strict_refines_lenient(
                        p,
                        VmState { vars: st.vars, ..after },
                        pc + 1,
                        end,
                        ctx,
                    );
                } else {
                    lemma_strict_refines_lenient(p, st, pc + 1, end, ctx);
                }
            },
            InstructionView::Log { log_type, message_expr_start, message_expr_end } => {
                if ctx is Top || ctx is Body {
                    let depth = st.stack.len() as int;
                    lemma_strict_refines_lenient(
                        p,
                        st,
                        message_expr_start as int,
                        message_expr_end as int,
                        ExecContext::Message,
                    );
                    let after = run(
                        p,
                        st,
                        message_expr_start as int,
                        message_expr_end as int,
                        ExecContext::Message,
                    );
                    let message = value_text(after.stack.last());
                    lemma_strict_refines_lenient(
                        p,
                        VmState {
                            stack: after.stack.take(depth),
                            output: after.output.push(LogLineView { level: log_type, message }),
                            ..after
                        },
                        pc + 1,
                        end,
                        ctx,
                    );
                } else {
                    lemma_strict_refines_lenient(p, st, pc + 1, end, ctx);
                }
            },
            InstructionView::Return => {
                if ctx is Body {
                } else {
                    lemma_strict_refines_lenient(p, st, pc + 1, end, ctx);
                }
            },
        }
    }
}

/// The text name of a log level: the tag a rendered line carries.
pub open spec fn level_text(lt: LogType) -> Seq<char> {
    match lt {
        LogType::Info => "info"@,
        LogType::Warn => "warn"@,
        LogType::Error => "error"@,
    }
}

/// How a log line renders: `[<level>] <message>`.
pub open spec fn render_line(l: LogLineView) -> Seq<char> {
    "["@ + level_text(l.level) + "] "@ + l.message
}

/// The text name of a log level.
pub fn level_name(lt: LogType) -> (r: &'static str)
    ensures
        r@ == level_text(lt),
{
    match lt {
        LogType::Info => "info",
        LogType::Warn => "warn",
        LogType::Error => "error",
    }
}

impl LogLine {
    /// The line as it is written out: `[<level>] <message>`.
    pub fn render(&self) -> (r: String)
        ensures
            r@ == render_line(self@),
    {
        let mut s = String::from_str("[");
        s.append(level_name(self.level));
        s.append("] ");
        s.append(self.message.as_str());
        proof {
            assert(s@ =~= render_line(self@));
        }
        s
    }
}

} // verus!
