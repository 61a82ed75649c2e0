//! Semantic analysis: the validation pass that runs before lowering.
//!
//! It walks the statements and rejects duplicate variable or function
//! declarations and references to undefined names, so that lowering can
//! assume every name it meets resolves. Function bodies see the outer
//! variables and the function's parameters; variables a body declares are
//! its own, while functions declared anywhere share one namespace.
//!
//! The pass is specified by `sem_stmt`/`sem_stmts`, and [`analyze`] returns
//! exactly what the specification says: the first error in walk order, or
//! success.

use vstd::prelude::*;

use crate::ast::{AstNode, Statement};

verus! {

broadcast use vstd::seq::group_seq_axioms, vstd::std_specs::vec::group_vec_axioms;

/// Why analysis rejected a program; each kind carries the offending name.
#[derive(Debug, Clone, PartialEq, Eq)]
pub enum SemanticError {
    DuplicateVariable(String),
    DuplicateFunction(String),
    UndefinedVariable(String),
    UndefinedFunction(String),
    /// Declared for completeness; no current check produces it.
    TypeMismatch(String),
}

/// Ghost shape of a [`SemanticError`].
#[verifier::ext_equal]
pub enum SemanticErrorView {
    DuplicateVariable(Seq<char>),
    DuplicateFunction(Seq<char>),
    UndefinedVariable(Seq<char>),
    UndefinedFunction(Seq<char>),
    TypeMismatch(Seq<char>),
}

impl View for SemanticError {
    type V = SemanticErrorView;

    open spec fn view(&self) -> SemanticErrorView {
        match self {
            SemanticError::DuplicateVariable(n) => SemanticErrorView::DuplicateVariable(n@),
            SemanticError::DuplicateFunction(n) => SemanticErrorView::DuplicateFunction(n@),
            SemanticError::UndefinedVariable(n) => SemanticErrorView::UndefinedVariable(n@),
            SemanticError::UndefinedFunction(n) => SemanticErrorView::UndefinedFunction(n@),
            SemanticError::TypeMismatch(n) => SemanticErrorView::TypeMismatch(n@),
        }
    }
}

/// The set of names a list of owned strings holds.
pub open spec fn names(s: Seq<String>) -> Set<Seq<char>> {
    Set::new(|n: Seq<char>| exists|i: int| 0 <= i < s.len() && s[i]@ == n)
}

proof fn lemma_names_push(s: Seq<String>, x: String)
    ensures
        names(s.push(x)) == names(s).insert(x@),
{
    assert forall|n: Seq<char>| names(s.push(x)).contains(n) implies names(s).insert(
        x@,
    ).contains(n) by {
        let i = choose|i: int| 0 <= i < s.push(x).len() && s.push(x)[i]@ == n;
        if i < s.len() {
            assert(s[i]@ == n);
        }
    }
    assert forall|n: Seq<char>| names(s).insert(x@).contains(n) implies names(
        s.push(x),
    ).contains(n) by {
        if n == x@ {
            assert(s.push(x)[s.len() as int]@ == n);
        } else {
            let i = choose|i: int| 0 <= i < s.len() && s[i]@ == n;
            assert(s.push(x)[i]@ == n);
        }
    }
    assert(names(s.push(x)) =~= names(s).insert(x@));
}

/// What analyzing one statement does to the declared names: an error, or
/// the updated variable and function name sets. A function declaration
/// analyzes its body under the outer variables extended by its parameters;
/// the body's variable declarations are discarded on the way out, but the
/// functions it declares stay.
pub open spec fn sem_stmt(s: Statement, vars: Set<Seq<char>>, funcs: Set<Seq<char>>) -> Result<
    (Set<Seq<char>>, Set<Seq<char>>),
    SemanticErrorView,
>
    decreases s,
{
    match s {
        Statement::SystemInit(vd) => if vars.contains(vd.name@) {
            Err(SemanticErrorView::DuplicateVariable(vd.name@))
        } else {
            Ok((vars.insert(vd.name@), funcs))
        },
        Statement::SystemSet(va) => if !vars.contains(va.name@) {
            Err(SemanticErrorView::UndefinedVariable(va.name@))
        } else {
            Ok((vars, funcs))
        },
        Statement::FunctionDeclaration(fd) => if funcs.contains(fd.name@) {
            Err(SemanticErrorView::DuplicateFunction(fd.name@))
        } else {
            let fv = vars + param_names(fd.params@);
            match sem_stmts(fd.body@, fv, funcs.insert(fd.name@)) {
                Ok((_, funcs2)) => Ok((vars, funcs2)),
                Err(e) => Err(e),
            }
        },
        Statement::SystemExec(fc) => if !funcs.contains(fc.name@) {
            Err(SemanticErrorView::UndefinedFunction(fc.name@))
        } else {
            Ok((vars, funcs))
        },
        _ => Ok((vars, funcs)),
    }
}

/// What analyzing a run of statements does, first error wins.
pub open spec fn sem_stmts(
    ss: Seq<Statement>,
    vars: Set<Seq<char>>,
    funcs: Set<Seq<char>>,
) -> Result<(Set<Seq<char>>, Set<Seq<char>>), SemanticErrorView>
    decreases ss, ss.len(),
{
    if ss.len() == 0 {
        Ok((vars, funcs))
    } else {
        match sem_stmt(ss[0], vars, funcs) {
            Ok((v2, f2)) => sem_stmts(ss.drop_first(), v2, f2),
            Err(e) => Err(e),
        }
    }
}

/// The names of a parameter list.
pub open spec fn param_names(params: Seq<(String, crate::ast::DataType)>) -> Set<Seq<char>> {
    Set::new(|n: Seq<char>| exists|i: int| 0 <= i < params.len() && params[i].0@ == n)
}

/// What the whole analysis of a syntax tree yields: success, or the first
/// error in source order.
pub open spec fn spec_analyze(ast: Seq<AstNode>) -> Result<(), SemanticErrorView> {
    match sem_nodes(ast, Set::empty(), Set::empty()) {
        Ok(_) => Ok(()),
        Err(e) => Err(e),
    }
}

/// Analysis over the top-level nodes.
pub open spec fn sem_nodes(
    ns: Seq<AstNode>,
    vars: Set<Seq<char>>,
    funcs: Set<Seq<char>>,
) -> Result<(Set<Seq<char>>, Set<Seq<char>>), SemanticErrorView>
    decreases ns, ns.len(),
{
    if ns.len() == 0 {
        Ok((vars, funcs))
    } else {
        match ns[0] {
            AstNode::Statement(s) => match sem_stmt(s, vars, funcs) {
                Ok((v2, f2)) => sem_nodes(ns.drop_first(), v2, f2),
                Err(e) => Err(e),
            },
        }
    }
}

/// Whether the list holds the name.
fn contains_name(list: &Vec<String>, name: &String) -> (r: bool)
    ensures
        r == names(list@).contains(name@),
{
    let mut i: usize = 0;
    while i < list.len()
        invariant
            i <= list@.len(),
            forall|j: int| 0 <= j < i ==> (#[trigger] list@[j])@ != name@,
        decreases list@.len() - i,
    {
        if list[i] == *name {
            return true;
        }
        i = i + 1;
    }
    false
}

/// Analyzes one statement against the declared names, growing them as the
/// specification says, and handing back the first error found.
fn analyze_statement(
    stmt: &Statement,
    declared_vars: &mut Vec<String>,
    declared_funcs: &mut Vec<String>,
) -> (r: Result<(), SemanticError>)
    ensures
        match sem_stmt(*stmt, names(old(declared_vars)@), names(old(declared_funcs)@)) {
            Ok(sets) => r is Ok && names(final(declared_vars)@) == sets.0 && names(
                final(declared_funcs)@,
            ) == sets.1,
            Err(e) => r matches Err(x) && x@ == e,
        },
    decreases *stmt,
{
    match stmt {
        Statement::SystemInit(vd) => {
            if contains_name(declared_vars, &vd.name) {
                return Err(SemanticError::DuplicateVariable(vd.name.clone()));
            }
            let ghost before = declared_vars@;
            declared_vars.push(vd.name.clone());
            proof {
                lemma_names_push(before, declared_vars@.last());
            }
            Ok(())
        },
        Statement::SystemSet(va) => {
            if !contains_name(declared_vars, &va.name) {
                return Err(SemanticError::UndefinedVariable(va.name.clone()));
            }
            Ok(())
        },
        Statement::SystemLog(_) => Ok(()),
        Statement::FunctionDeclaration(fd) => {
            if contains_name(declared_funcs, &fd.name) {
                return Err(SemanticError::DuplicateFunction(fd.name.clone()));
            }
            let ghost funcs0 = names(declared_funcs@);
            let ghost before_funcs = declared_funcs@;
            declared_funcs.push(fd.name.clone());
            proof {
                lemma_names_push(before_funcs, declared_funcs@.last());
            }
            // The body sees the outer variables and the parameters; its own
            // variable declarations are discarded on the way out.
            let mut func_vars: Vec<String> = Vec::new();
            let mut i: usize = 0;
            while i < declared_vars.len()
                invariant
                    i <= declared_vars@.len(),
                    func_vars@.len() == i,
                    forall|j: int| 0 <= j < i ==> (#[trigger] func_vars@[j])@
                        == declared_vars@[j]@,
                decreases declared_vars@.len() - i,
            {
                func_vars.push(declared_vars[i].clone());
                i = i + 1;
            }
            let ghost base_vars = func_vars@;
            let mut j: usize = 0;
            while j < fd.params.len()
                invariant
                    j <= fd.params@.len(),
                    names(func_vars@) == names(base_vars) + param_names(fd.params@.take(j as int)),
                decreases fd.params@.len() - j,
            {
                let ghost before = func_vars@;
                func_vars.push(fd.params[j].0.clone());
                proof {
                    lemma_names_push(before, func_vars@.last());
                    assert(param_names(fd.params@.take(j as int + 1)) =~= param_names(
                        fd.params@.take(j as int),
                    ).insert(fd.params@[j as int].0@)) by {
                        let t = fd.params@.take(j as int + 1);
                        let t0 = fd.params@.take(j as int);
                        assert forall|n: Seq<char>| param_names(t).contains(n) implies param_names(
                            t0,
                        ).insert(fd.params@[j as int].0@).contains(n) by {
                            let i2 = choose|i2: int| 0 <= i2 < t.len() && t[i2].0@ == n;
                            if i2 < j {
                                assert(t0[i2].0@ == n);
                            }
                        }
                        assert forall|n: Seq<char>|
                            param_names(t0).insert(fd.params@[j as int].0@).contains(n) implies
                            param_names(t).contains(n) by {
                            if n == fd.params@[j as int].0@ {
                                assert(t[j as int].0@ == n);
                            } else {
                                let i2 = choose|i2: int| 0 <= i2 < t0.len() && t0[i2].0@ == n;
                                assert(t[i2].0@ == n);
                            }
                        }
                    }
                    assert(names(func_vars@) =~= names(base_vars) + param_names(
                        fd.params@.take(j as int + 1),
                    ));
                }
                j = j + 1;
            }
            proof {
                assert(names(base_vars) =~= names(declared_vars@)) by {
                    assert forall|n: Seq<char>| names(base_vars).contains(n) implies names(
                        declared_vars@,
                    ).contains(n) by {
                        let i2 = choose|i2: int| 0 <= i2 < base_vars.len() && base_vars[i2]@ == n;
                        assert(declared_vars@[i2]@ == n);
                    }
                    assert forall|n: Seq<char>| names(declared_vars@).contains(n) implies names(
                        base_vars,
                    ).contains(n) by {
                        let i2 = choose|i2: int|
                            0 <= i2 < declared_vars@.len() && declared_vars@[i2]@ == n;
                        assert(base_vars[i2]@ == n);
                    }
                }
                assert(fd.params@.take(fd.params@.len() as int) =~= fd.params@);
            }
            let ghost fv0 = names(func_vars@);
            let ghost f1 = names(declared_funcs@);
            proof {
                assert(fd.body@.skip(0) =~= fd.body@);
            }
            let mut b: usize = 0;
            while b < fd.body.len()
                invariant
                    b <= fd.body@.len(),
                    *stmt == Statement::FunctionDeclaration(*fd),
                    !names(old(declared_funcs)@).contains(fd.name@),
                    declared_vars@ == old(declared_vars)@,
                    fv0 == names(old(declared_vars)@) + param_names(fd.params@),
                    f1 == names(old(declared_funcs)@).insert(fd.name@),
                    sem_stmts(fd.body@, fv0, f1) == sem_stmts(
                        fd.body@.skip(b as int),
                        names(func_vars@),
                        names(declared_funcs@),
                    ),
                decreases fd.body@.len() - b,
            {
                let ghost rest = fd.body@.skip(b as int);
                proof {
                    assert(decreases_to!(*stmt => fd.body));
                    assert(decreases_to!(fd.body => fd.body@));
                    assert(decreases_to!(fd.body@ => fd.body@[b as int]));
                }
                match analyze_statement(&fd.body[b], &mut func_vars, declared_funcs) {
                    Ok(_) => {},
                    Err(e) => {
                        proof {
                            assert(rest[0] == fd.body@[b as int]);
                        }
                        return Err(e);
                    },
                }
                proof {
                    assert(rest[0] == fd.body@[b as int]);
                    assert(rest.drop_first() =~= fd.body@.skip(b as int + 1));
                }
                b = b + 1;
            }
            proof {
                assert(fd.body@.skip(fd.body@.len() as int) =~= Seq::<Statement>::empty());
            }
            Ok(())
        },
        Statement::SystemExec(fc) => {
            if !contains_name(declared_funcs, &fc.name) {
                return Err(SemanticError::UndefinedFunction(fc.name.clone()));
            }
            Ok(())
        },
        Statement::Return(_) => Ok(()),
        Statement::SystemInclude => Ok(()),
    }
}

/// Validates a syntax tree before lowering: rejects duplicate variable or
/// function declarations and references to undefined names, reporting the
/// first offence in source order.
pub fn analyze(ast: &[AstNode]) -> (r: Result<(), SemanticError>)
    ensures
        match spec_analyze(ast@) {
            Ok(u) => r is Ok,
            Err(e) => r matches Err(x) && x@ == e,
        },
{
    let mut declared_vars: Vec<String> = Vec::new();
    let mut declared_funcs: Vec<String> = Vec::new();
    proof {
        assert(names(declared_vars@) =~= Set::<Seq<char>>::empty());
        assert(names(declared_funcs@) =~= Set::<Seq<char>>::empty());
    }
    proof {
        assert(ast@.skip(0) =~= ast@);
    }
    let mut idx: usize = 0;
    while idx < ast.len()
        invariant
            idx <= ast@.len(),
            sem_nodes(ast@, Set::empty(), Set::empty()) == sem_nodes(
                ast@.skip(idx as int),
                names(declared_vars@),
                names(declared_funcs@),
            ),
        decreases ast@.len() - idx,
    {
        let ghost rest = ast@.skip(idx as int);
        let AstNode::Statement(stmt) = &ast[idx];
        match analyze_statement(stmt, &mut declared_vars, &mut declared_funcs) {
            Ok(_) => {},
            Err(e) => {
                proof {
                    assert(rest[0] == ast@[idx as int]);
                }
                return Err(e);
            },
        }
        proof {
            assert(rest[0] == ast@[idx as int]);
            assert(rest.drop_first() =~= ast@.skip(idx as int + 1));
        }
        idx = idx + 1;
    }
    proof {
        assert(ast@.skip(ast@.len() as int) =~= Seq::<AstNode>::empty());
    }
    Ok(())
}

} // verus!
