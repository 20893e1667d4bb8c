use vstd::prelude::*;

use crate::ast::{Statement, Value, Variable};
use crate::diagnostic::{error_view, Diagnostic, DiagnosticBuilder, XynError};
use crate::scope::{ScopeArena, ScopeView};
use crate::sema_scope::{
    add_bounds_spec, add_relation_spec, add_variable_spec, empty_sem_scope, find_bound, find_var,
    lemma_find_bound, lemma_find_var, find_bound_from, find_var_from, BoundView, SemScopeView, SemanticBound, SemanticScope,
};
use crate::types::Type;

verus! {

/// What the type checker can find wrong.
#[derive(Debug, PartialEq, Eq, Clone, Copy, Structural)]
pub enum SemanticError {
    UndeclaredVariable,
    ConflictingVariable,
    _AbsoluteInvalidType,
    _NegateInvalidType,
}

impl XynError for SemanticError {
    open spec fn code_spec(&self) -> usize {
        match self {
            SemanticError::UndeclaredVariable => 0,
            SemanticError::ConflictingVariable => 1,
            SemanticError::_AbsoluteInvalidType => 2,
            SemanticError::_NegateInvalidType => 3,
        }
    }

    open spec fn message_spec(&self) -> Seq<char> {
        match self {
            SemanticError::UndeclaredVariable => "Undeclared variable:"@,
            SemanticError::ConflictingVariable => "Conflicting variable:"@,
            SemanticError::_AbsoluteInvalidType => "Expected integers for absolutes (+), found:"@,
            SemanticError::_NegateInvalidType => "Expected integers for negations (-), found:"@,
        }
    }

    fn to_usize(self) -> (r: usize) {
        match self {
            SemanticError::UndeclaredVariable => 0,
            SemanticError::ConflictingVariable => 1,
            SemanticError::_AbsoluteInvalidType => 2,
            SemanticError::_NegateInvalidType => 3,
        }
    }

    fn message(&self) -> (r: &'static str) {
        match self {
            SemanticError::UndeclaredVariable => "Undeclared variable:",
            SemanticError::ConflictingVariable => "Conflicting variable:",
            SemanticError::_AbsoluteInvalidType => "Expected integers for absolutes (+), found:",
            SemanticError::_NegateInvalidType => "Expected integers for negations (-), found:",
        }
    }
}

/// The type checker's state: one scope per scope of the arena, and the
/// number of unknowns made so far.
pub struct SemState {
    pub envs: Seq<SemScopeView>,
    pub counter: int,
}

/// How a step of the type checker ends: with a value, with an error, or
/// stuck, where the checker would stop the program (a missing unknown or
/// scope, a variable without a type, a counter at its limit, or more nested
/// work than its depth allows).
pub enum SemResult<T> {
    Success(T),
    Failure(SemanticError),
    Stuck,
}

/// How a step of the type checker ends, at run time.
pub enum SemOutcome<T> {
    Done(T),
    Failed(Diagnostic),
    Stuck,
}

pub open spec fn outcome_matches<T>(r: SemOutcome<T>, s: SemResult<T>) -> bool {
    match (r, s) {
        (SemOutcome::Done(a), SemResult::Success(b)) => a == b,
        (SemOutcome::Failed(d), SemResult::Failure(e)) => d@ == error_view(e),
        (SemOutcome::Stuck, SemResult::Stuck) => true,
        _ => false,
    }
}

/// The scope, at `scope` or below, that holds a variable named `name`, and
/// that variable: the scopes are searched from `scope` down to the first one.
pub open spec fn get_var_rec(st: SemState, scope: int, name: Seq<char>) -> Option<(int, Variable)>
    decreases scope,
{
    if scope < 0 || scope >= st.envs.len() {
        None
    } else {
        match find_var(st.envs[scope].variables, name) {
            Some(i) => Some((scope, st.envs[scope].variables[i])),
            None => if scope == 0 {
                None
            } else {
                get_var_rec(st, scope - 1, name)
            },
        }
    }
}

/// The scope, at `scope` or below, that holds the unknown `id`.
pub open spec fn bound_scope(st: SemState, scope: int, id: usize) -> Option<int>
    decreases scope,
{
    if scope < 0 || scope >= st.envs.len() {
        None
    } else if find_bound(st.envs[scope].bounds, id) is Some {
        Some(scope)
    } else if scope == 0 {
        None
    } else {
        bound_scope(st, scope - 1, id)
    }
}

pub open spec fn set_env(st: SemState, s: int, e: SemScopeView) -> SemState {
    SemState { envs: st.envs.update(s, e), ..st }
}

/// The unknown `id` in scope `s` (which holds it) gets the relation `other`.
pub open spec fn relate(st: SemState, s: int, id: usize, other: usize) -> SemState {
    let e = st.envs[s];
    let i = find_bound(e.bounds, id).unwrap();
    let b = e.bounds[i].1;
    set_env(
        st,
        s,
        SemScopeView {
            bounds: e.bounds.update(i, (id, BoundView { relations: add_relation_spec(b.relations, other), ..b })),
            ..e
        },
    )
}

/// The unknown `id` is added to scope `s`.
pub open spec fn add_bound_at(st: SemState, s: int, id: usize, b: BoundView) -> SemState {
    set_env(st, s, SemScopeView { bounds: add_bounds_spec(st.envs[s].bounds, id, b), ..st.envs[s] })
}

/// The variable at index `i` of scope `s` is set to `v`.
pub open spec fn set_var(st: SemState, s: int, i: int, v: Variable) -> SemState {
    set_env(st, s, SemScopeView { variables: st.envs[s].variables.update(i, v), ..st.envs[s] })
}

/// A fresh unknown for the variable `name`.
pub open spec fn fresh_bound(name: Seq<char>) -> BoundView {
    BoundView { target_var: name, relations: Seq::empty(), resolved: false }
}

/// The type of the expression `val`, in the variable `varname`'s declaration
/// at scope `scope`, and `val` with the types of its binary nodes recorded.
/// Integers are `i32`; a variable has its declared type; `+x` and `-x` are
/// `i32`, and bind the type of `x` to `i32` if it is unknown; a binary node
/// whose type is known already keeps it, and otherwise gets the type its
/// operands promote to.
pub open spec fn analyze_expr_spec(st: SemState, varname: Seq<char>, scope: int, val: Value, fuel: nat) -> (
    SemState,
    SemResult<(Type, Value)>,
)
    decreases fuel, 0int,
{
    if fuel == 0 {
        (st, SemResult::Stuck)
    } else {
        let f = (fuel - 1) as nat;
        match val {
            Value::Integer(_) => (st, SemResult::Success((Type::I32, val))),
            Value::Identifier(s) => match get_var_rec(st, scope, s@) {
                Some((_, v)) => match v.ty {
                    Some(t) => (st, SemResult::Success((t, val))),
                    None => (st, SemResult::Stuck),
                },
                None => (st, SemResult::Failure(SemanticError::UndeclaredVariable)),
            },
            Value::Absolute(inner) => {
                let (st1, r) = analyze_expr_spec(st, varname, scope, *inner, f);
                match r {
                    SemResult::Success((Type::I32, nv)) => (st1, SemResult::Success((Type::I32, Value::Absolute(Box::new(nv))))),
                    SemResult::Success((Type::Unbound(id), nv)) => {
                        let (st2, r2) = unify_spec(st1, scope, id, Type::I32, f);
                        match r2 {
                            SemResult::Success(_) => (st2, SemResult::Success((Type::I32, Value::Absolute(Box::new(nv))))),
                            SemResult::Failure(e) => (st2, SemResult::Failure(e)),
                            SemResult::Stuck => (st2, SemResult::Stuck),
                        }
                    },
                    SemResult::Failure(e) => (st1, SemResult::Failure(e)),
                    SemResult::Stuck => (st1, SemResult::Stuck),
                }
            },
            Value::Negate(inner) => {
                let (st1, r) = analyze_expr_spec(st, varname, scope, *inner, f);
                match r {
                    SemResult::Success((Type::I32, nv)) => (st1, SemResult::Success((Type::I32, Value::Negate(Box::new(nv))))),
                    SemResult::Success((Type::Unbound(id), nv)) => {
                        let (st2, r2) = unify_spec(st1, scope, id, Type::I32, f);
                        match r2 {
                            SemResult::Success(_) => (st2, SemResult::Success((Type::I32, Value::Negate(Box::new(nv))))),
                            SemResult::Failure(e) => (st2, SemResult::Failure(e)),
                            SemResult::Stuck => (st2, SemResult::Stuck),
                        }
                    },
                    SemResult::Failure(e) => (st1, SemResult::Failure(e)),
                    SemResult::Stuck => (st1, SemResult::Stuck),
                }
            },
            Value::BinaryExpr { left, op, right, evaluated_ty } => {
                if evaluated_ty == Some(Type::I32) {
                    (st, SemResult::Success((Type::I32, val)))
                } else {
                    let (st1, r1) = analyze_expr_spec(st, varname, scope, *left, f);
                    match r1 {
                        SemResult::Success((lt, nl)) => {
                            let (st2, r2) = analyze_expr_spec(st1, varname, scope, *right, f);
                            match r2 {
                                SemResult::Success((rt, nr)) => {
                                    let (st3, r3) = promote_spec(st2, varname, scope, lt, rt, f);
                                    match r3 {
                                        SemResult::Success(t) => (
                                            st3,
                                            SemResult::Success((
                                                t,
                                                Value::BinaryExpr {
                                                    left: Box::new(nl),
                                                    op,
                                                    right: Box::new(nr),
                                                    evaluated_ty: Some(t),
                                                },
                                            )),
                                        ),
                                        SemResult::Failure(e) => (st3, SemResult::Failure(e)),
                                        SemResult::Stuck => (st3, SemResult::Stuck),
                                    }
                                },
                                SemResult::Failure(e) => (st2, SemResult::Failure(e)),
                                SemResult::Stuck => (st2, SemResult::Stuck),
                            }
                        },
                        SemResult::Failure(e) => (st1, SemResult::Failure(e)),
                        SemResult::Stuck => (st1, SemResult::Stuck),
                    }
                }
            },
        }
    }
}

/// The type two operands promote to. Two `i32` give `i32`. Two unknowns are
/// related to each other, and a new unknown for `varname` is made, related to
/// the second and in the scope `scope`. An unknown and a type bind the unknown
/// to the type. Binding the new unknown later binds neither of the two it was
/// made from: in `a + b + 1` with `a` and `b` unknown, `a` and `b` stay
/// unknown.
pub open spec fn promote_spec(st: SemState, varname: Seq<char>, scope: int, l: Type, r: Type, fuel: nat) -> (
    SemState,
    SemResult<Type>,
)
    decreases fuel, 0int,
{
    if fuel == 0 {
        (st, SemResult::Stuck)
    } else {
        let f = (fuel - 1) as nat;
        match (l, r) {
            (Type::I32, Type::I32) => (st, SemResult::Success(Type::I32)),
            (Type::Unbound(id1), Type::Unbound(id2)) => match bound_scope(st, scope, id1) {
                None => (st, SemResult::Stuck),
                Some(s1) => {
                    let st1 = relate(st, s1, id1, id2);
                    if st1.counter >= usize::MAX {
                        (st1, SemResult::Stuck)
                    } else {
                        let new_id = st1.counter as usize;
                        let st2 = SemState { counter: st1.counter + 1, ..st1 };
                        match bound_scope(st2, scope, id2) {
                            None => (st2, SemResult::Stuck),
                            Some(s2) => {
                                let st3 = relate(st2, s2, id2, id1);
                                let st4 = relate(st3, s2, id2, new_id);
                                if scope < 0 || scope >= st4.envs.len() {
                                    (st4, SemResult::Stuck)
                                } else {
                                    (add_bound_at(st4, scope, new_id, fresh_bound(varname)), SemResult::Success(Type::Unbound(new_id)))
                                }
                            },
                        }
                    }
                },
            },
            (Type::I32, Type::Unbound(id)) => {
                let (st1, r1) = unify_spec(st, scope, id, Type::I32, f);
                match r1 {
                    SemResult::Success(_) => (st1, SemResult::Success(Type::I32)),
                    SemResult::Failure(e) => (st1, SemResult::Failure(e)),
                    SemResult::Stuck => (st1, SemResult::Stuck),
                }
            },
            (Type::Unbound(id), Type::I32) => {
                let (st1, r1) = unify_spec(st, scope, id, Type::I32, f);
                match r1 {
                    SemResult::Success(_) => (st1, SemResult::Success(Type::I32)),
                    SemResult::Failure(e) => (st1, SemResult::Failure(e)),
                    SemResult::Stuck => (st1, SemResult::Stuck),
                }
            },
        }
    }
}

/// Binds the unknown `id`, looked up from `scope` down, to `ty`: unless it is
/// bound already, it is marked bound, its variable (in the scope that holds
/// the unknown) gets the type `ty` and has its value checked again, and the
/// unknowns related to it are bound to `ty` in turn.
pub open spec fn unify_spec(st: SemState, scope: int, id: usize, ty: Type, fuel: nat) -> (SemState, SemResult<()>)
    decreases fuel, 0int,
{
    if fuel == 0 {
        (st, SemResult::Stuck)
    } else {
        let f = (fuel - 1) as nat;
        match bound_scope(st, scope, id) {
            None => (st, SemResult::Stuck),
            Some(s) => {
                let e = st.envs[s];
                let bi = find_bound(e.bounds, id).unwrap();
                let b = e.bounds[bi].1;
                if b.resolved {
                    (st, SemResult::Success(()))
                } else {
                    let st1 = set_env(
                        st,
                        s,
                        SemScopeView { bounds: e.bounds.update(bi, (id, BoundView { resolved: true, ..b })), ..e },
                    );
                    let target = b.target_var;
                    let (st2, r) = match find_var(st1.envs[s].variables, target) {
                        None => (st1, SemResult::Success(())),
                        Some(vi) => {
                            let var = st1.envs[s].variables[vi];
                            let sta = set_var(st1, s, vi, Variable { ty: Some(ty), ..var });
                            match var.value {
                                None => (sta, SemResult::Success(())),
                                Some(val) => {
                                    let (stb, rb) = analyze_expr_spec(sta, target, s, val, f);
                                    match rb {
                                        SemResult::Success((_, nv)) => match find_var(stb.envs[s].variables, target) {
                                            Some(vj) => (
                                                set_var(stb, s, vj, Variable { value: Some(nv), ..stb.envs[s].variables[vj] }),
                                                SemResult::Success(()),
                                            ),
                                            None => (stb, SemResult::Stuck),
                                        },
                                        SemResult::Failure(e) => (stb, SemResult::Failure(e)),
                                        SemResult::Stuck => (stb, SemResult::Stuck),
                                    }
                                },
                            }
                        },
                    };
                    match r {
                        SemResult::Success(_) => unify_all_spec(st2, s, b.relations, 0, ty, f),
                        SemResult::Failure(e) => (st2, SemResult::Failure(e)),
                        SemResult::Stuck => (st2, SemResult::Stuck),
                    }
                }
            },
        }
    }
}

/// Binds the unknowns `rels[i..]`, looked up from `scope` down, to `ty`.
pub open spec fn unify_all_spec(st: SemState, scope: int, rels: Seq<usize>, i: int, ty: Type, fuel: nat) -> (
    SemState,
    SemResult<()>,
)
    decreases fuel, rels.len() - i,
{
    if i < 0 || i >= rels.len() {
        (st, SemResult::Success(()))
    } else if fuel == 0 {
        (st, SemResult::Stuck)
    } else {
        let (st1, r) = unify_spec(st, scope, rels[i], ty, (fuel - 1) as nat);
        match r {
            SemResult::Success(_) => unify_all_spec(st1, scope, rels, i + 1, ty, fuel),
            SemResult::Failure(e) => (st1, SemResult::Failure(e)),
            SemResult::Stuck => (st1, SemResult::Stuck),
        }
    }
}

/// Checks a statement of scope `scope`. A name declared twice in a scope is
/// an error; shadowing a name of another scope is not. The type of a variable
/// is the one it is declared with, or that of its value, or a new unknown.
pub open spec fn analyze_stmt_spec(st: SemState, scope: int, stmt: Statement, fuel: nat) -> (SemState, SemResult<()>)
    decreases fuel, 0int,
{
    if fuel == 0 || scope < 0 || scope >= st.envs.len() {
        (st, SemResult::Stuck)
    } else {
        let f = (fuel - 1) as nat;
        match stmt {
            Statement::Variable(v) => {
                let name = v.ident.lexeme@;
                if find_var(st.envs[scope].variables, name) is Some {
                    (st, SemResult::Failure(SemanticError::ConflictingVariable))
                } else {
                    let (st1, r): (SemState, SemResult<(Type, Option<Value>)>) = match v.ty {
                        Some(t) => (st, SemResult::Success((t, v.value))),
                        None => match v.value {
                            Some(val) => {
                                let (sa, ra) = analyze_expr_spec(st, name, scope, val, f);
                                match ra {
                                    SemResult::Success((t, nv)) => (sa, SemResult::Success((t, Some(nv)))),
                                    SemResult::Failure(e) => (sa, SemResult::Failure(e)),
                                    SemResult::Stuck => (sa, SemResult::Stuck),
                                }
                            },
                            None => if st.counter >= usize::MAX {
                                (st, SemResult::Stuck)
                            } else {
                                let id = st.counter as usize;
                                (
                                    add_bound_at(SemState { counter: st.counter + 1, ..st }, scope, id, fresh_bound(name)),
                                    SemResult::Success((Type::Unbound(id), None)),
                                )
                            },
                        },
                    };
                    match r {
                        SemResult::Success((t, value)) => (
                            set_env(
                                st1,
                                scope,
                                SemScopeView {
                                    variables: add_variable_spec(
                                        st1.envs[scope].variables,
                                        Variable { ident: v.ident, ty: Some(t), value, desc: v.desc },
                                    ),
                                    ..st1.envs[scope]
                                },
                            ),
                            SemResult::Success(()),
                        ),
                        SemResult::Failure(e) => (st1, SemResult::Failure(e)),
                        SemResult::Stuck => (st1, SemResult::Stuck),
                    }
                }
            },
        }
    }
}

/// Checks the statements `stmts[i..]` of scope `scope`, stopping at the first
/// error.
pub open spec fn analyze_stmts_spec(st: SemState, scope: int, stmts: Seq<Statement>, i: int, fuel: nat) -> (
    SemState,
    SemResult<()>,
)
    decreases fuel, stmts.len() - i,
{
    if i < 0 || i >= stmts.len() {
        (st, SemResult::Success(()))
    } else if fuel == 0 {
        (st, SemResult::Stuck)
    } else {
        let (st1, r) = analyze_stmt_spec(st, scope, stmts[i], (fuel - 1) as nat);
        match r {
            SemResult::Success(_) => analyze_stmts_spec(st1, scope, stmts, i + 1, fuel),
            SemResult::Failure(e) => (st1, SemResult::Failure(e)),
            SemResult::Stuck => (st1, SemResult::Stuck),
        }
    }
}

/// Checks the scope `id` of `arena`: its statements, then its child scopes
/// in order, stopping at the first error.
pub open spec fn analyze_scope_spec(st: SemState, id: int, arena: Seq<ScopeView>, fuel: nat) -> (SemState, SemResult<()>)
    decreases fuel, 0int,
{
    if fuel == 0 || id < 0 || id >= arena.len() {
        (st, SemResult::Stuck)
    } else {
        let f = (fuel - 1) as nat;
        let (st1, r) = analyze_stmts_spec(st, id, arena[id].statements, 0, f);
        match r {
            SemResult::Success(_) => analyze_children_spec(st1, arena[id].children, 0, arena, f),
            SemResult::Failure(e) => (st1, SemResult::Failure(e)),
            SemResult::Stuck => (st1, SemResult::Stuck),
        }
    }
}

/// Checks the scopes `children[i..]`.
pub open spec fn analyze_children_spec(st: SemState, children: Seq<usize>, i: int, arena: Seq<ScopeView>, fuel: nat) -> (
    SemState,
    SemResult<()>,
)
    decreases fuel, children.len() - i,
{
    if i < 0 || i >= children.len() {
        (st, SemResult::Success(()))
    } else if fuel == 0 {
        (st, SemResult::Stuck)
    } else {
        let (st1, r) = analyze_scope_spec(st, children[i] as int, arena, (fuel - 1) as nat);
        match r {
            SemResult::Success(_) => analyze_children_spec(st1, children, i + 1, arena, fuel),
            SemResult::Failure(e) => (st1, SemResult::Failure(e)),
            SemResult::Stuck => (st1, SemResult::Stuck),
        }
    }
}

/// How deep the checker's work may nest: scopes in scopes, expressions in
/// expressions, and bindings that trigger more bindings. The bound is this
/// library's own choice: each level is one call deeper on the machine stack,
/// and past this depth the checker reports itself stuck (`try_analyze` gives
/// `None`) rather than risk the stack. A statement of a scope does not count
/// against the depth of the next one.
pub const ANALYSIS_DEPTH: usize = 100000;

/// What checking an arena from its first scope gives.
pub open spec fn analysis(st: SemState, arena: Seq<ScopeView>) -> (SemState, SemResult<()>) {
    analyze_scope_spec(st, 0, arena, ANALYSIS_DEPTH as nat)
}

} // verus!

verus! {

pub open spec fn env_views(envs: Seq<SemanticScope>) -> Seq<SemScopeView> {
    envs.map_values(|e: SemanticScope| e@)
}

proof fn lemma_env_views_update(envs: Seq<SemanticScope>, s: int, e: SemanticScope)
    requires
        0 <= s < envs.len(),
    ensures
        env_views(envs.update(s, e)) == env_views(envs).update(s, e@),
{
    assert(env_views(envs.update(s, e)) =~= env_views(envs).update(s, e@));
}

fn semantic_error(e: SemanticError) -> (r: Diagnostic)
    ensures
        r@ == error_view(e),
{
    DiagnosticBuilder::default().with_error_code(e).build()
}

/// The type checker: one scope of variables and unknowns per scope of the
/// arena, and a counter for new unknowns.
#[derive(Debug)]
pub struct Semantic {
    envs: Vec<SemanticScope>,
    unbound_counter: usize,
}

impl View for Semantic {
    type V = SemState;

    closed spec fn view(&self) -> SemState {
        SemState { envs: env_views(self.envs@), counter: self.unbound_counter as int }
    }
}

impl Semantic {
    /// A checker for an arena of `arena_size` scopes, all of them empty.
    pub fn new(arena_size: usize) -> (r: Self)
        ensures
            r@.envs == Seq::new(arena_size as nat, |i: int| empty_sem_scope()),
            r@.counter == 0,
            sem_ok(r@),
            keys_below(r@),
    {
        let mut envs: Vec<SemanticScope> = Vec::with_capacity(arena_size);
        let mut i: usize = 0;
        while i < arena_size
            invariant
                i <= arena_size,
                env_views(envs@) == Seq::new(i as nat, |k: int| empty_sem_scope()),
            decreases arena_size - i,
        {
            let ghost before = envs@;
            envs.push(SemanticScope::default());
            assert(env_views(envs@) =~= Seq::new((i + 1) as nat, |k: int| empty_sem_scope())) by {
                assert(env_views(envs@) =~= env_views(before).push(empty_sem_scope()));
            }
            i = i + 1;
        }
        let r = Semantic { envs, unbound_counter: 0 };
        assert(keys_below(r@)) by {
            assert forall|s: int, j: int| 0 <= s < r@.envs.len() && 0 <= j < r@.envs[s].bounds.len() implies (
            #[trigger] r@.envs[s].bounds[j]).0 < r@.counter by {
                assert(r@.envs[s] == empty_sem_scope());
            }
        }
        assert(sem_ok(r@)) by {
            assert forall|s: int| 0 <= s < r@.envs.len() implies vars_ok(#[trigger] r@.envs[s].variables) by {
                assert(r@.envs[s] == empty_sem_scope());
            }
        }
        r
    }

    /// The variable named `varname`, looked for from `scope_id` down to the
    /// first scope, with the scope it was found in.
    fn get_variable_recursive(&self, scope_id: usize, varname: &String) -> (r: Result<(usize, &Variable), Diagnostic>)
        ensures
            match get_var_rec(self@, scope_id as int, varname@) {
                Some((s, v)) => r matches Ok((s2, v2)) && s2 == s && *v2 == v,
                None => r matches Err(d) && d@ == error_view(SemanticError::UndeclaredVariable),
            },
    {
        let mut s = scope_id;
        while s < self.envs.len()
            invariant
                get_var_rec(self@, s as int, varname@) == get_var_rec(self@, scope_id as int, varname@),
            ensures
                get_var_rec(self@, scope_id as int, varname@) is None,
            decreases s,
        {
            match self.envs[s].get_variable(varname) {
                Some(v) => {
                    return Ok((s, v));
                },
                None => {},
            }
            if s == 0 {
                break;
            }
            s = s - 1;
        }
        Err(semantic_error(SemanticError::UndeclaredVariable))
    }

    /// The scope, from `scope_id` down, that holds the unknown `id`.
    fn find_bound_scope(&self, scope_id: usize, id: usize) -> (r: Option<usize>)
        ensures
            match r {
                Some(s) => bound_scope(self@, scope_id as int, id) == Some(s as int),
                None => bound_scope(self@, scope_id as int, id) is None,
            },
    {
        let mut s = scope_id;
        while s < self.envs.len()
            invariant
                bound_scope(self@, s as int, id) == bound_scope(self@, scope_id as int, id),
            ensures
                bound_scope(self@, scope_id as int, id) is None,
            decreases s,
        {
            if self.envs[s].bound_index(id).is_some() {
                return Some(s);
            }
            if s == 0 {
                break;
            }
            s = s - 1;
        }
        None
    }

    /// Adds the relation `other` to the unknown `id` of scope `s`.
    fn relate(&mut self, s: usize, id: usize, other: usize)
        requires
            s < old(self)@.envs.len(),
            find_bound(old(self)@.envs[s as int].bounds, id) is Some,
        ensures
            final(self)@ == relate(old(self)@, s as int, id, other),
    {
        let i = self.envs[s].bound_index(id).unwrap();
        self.envs[s].relate_bound(i, other);
        proof {
            lemma_find_bound(old(self)@.envs[s as int].bounds, id, 0);
            lemma_env_views_update(old(self).envs@, s as int, self.envs@[s as int]);
            assert(self.envs@ == old(self).envs@.update(s as int, self.envs@[s as int]));
        }
    }

    /// Adds the unknown `id` to scope `s`.
    fn add_bound_at(&mut self, s: usize, id: usize, bound: SemanticBound)
        requires
            s < old(self)@.envs.len(),
        ensures
            final(self)@ == add_bound_at(old(self)@, s as int, id, bound@),
    {
        let ghost bv = bound@;
        self.envs[s].add_bounds(id, bound);
        proof {
            lemma_env_views_update(old(self).envs@, s as int, self.envs@[s as int]);
            assert(self.envs@ == old(self).envs@.update(s as int, self.envs@[s as int]));
        }
    }
}


impl Semantic {
    /// The type of `val` in the declaration of `varname` at scope `scope_id`,
    /// and `val` with the types of its binary nodes recorded.
    fn analyze_expr(&mut self, varname: &String, scope_id: usize, val: Value, fuel: usize) -> (r: SemOutcome<(Type, Value)>)
        ensures
            ({
                let (st, sr) = analyze_expr_spec(old(self)@, varname@, scope_id as int, val, fuel as nat);
                &&& final(self)@ == st
                &&& outcome_matches(r, sr)
            }),
        decreases fuel, 0int,
    {
        if fuel == 0 {
            return SemOutcome::Stuck;
        }
        let f = fuel - 1;
        match val {
            Value::Integer(s) => SemOutcome::Done((Type::I32, Value::Integer(s))),
            Value::Identifier(s) => match self.get_variable_recursive(scope_id, &s) {
                Ok((_, v)) => match v.ty {
                    Some(t) => SemOutcome::Done((t, Value::Identifier(s))),
                    None => SemOutcome::Stuck,
                },
                Err(e) => SemOutcome::Failed(e),
            },
            Value::Absolute(inner) => match self.analyze_expr(varname, scope_id, *inner, f) {
                SemOutcome::Done((Type::I32, nv)) => SemOutcome::Done((Type::I32, Value::Absolute(Box::new(nv)))),
                SemOutcome::Done((Type::Unbound(id), nv)) => {
                    // only integers are valid in `+x`, so `x` is an integer too
                    match self.unify_unbound_to(scope_id, id, Type::I32, f) {
                        SemOutcome::Done(_) => SemOutcome::Done((Type::I32, Value::Absolute(Box::new(nv)))),
                        SemOutcome::Failed(e) => SemOutcome::Failed(e),
                        SemOutcome::Stuck => SemOutcome::Stuck,
                    }
                },
                SemOutcome::Failed(e) => SemOutcome::Failed(e),
                SemOutcome::Stuck => SemOutcome::Stuck,
            },
            Value::Negate(inner) => match self.analyze_expr(varname, scope_id, *inner, f) {
                SemOutcome::Done((Type::I32, nv)) => SemOutcome::Done((Type::I32, Value::Negate(Box::new(nv)))),
                SemOutcome::Done((Type::Unbound(id), nv)) => {
                    // only integers are valid in `-x`, so `x` is an integer too
                    match self.unify_unbound_to(scope_id, id, Type::I32, f) {
                        SemOutcome::Done(_) => SemOutcome::Done((Type::I32, Value::Negate(Box::new(nv)))),
                        SemOutcome::Failed(e) => SemOutcome::Failed(e),
                        SemOutcome::Stuck => SemOutcome::Stuck,
                    }
                },
                SemOutcome::Failed(e) => SemOutcome::Failed(e),
                SemOutcome::Stuck => SemOutcome::Stuck,
            },
            Value::BinaryExpr { left, op, right, evaluated_ty } => {
                if evaluated_ty == Some(Type::I32) {
                    // a known type is kept; an unknown one is worked out again
                    return SemOutcome::Done((Type::I32, Value::BinaryExpr { left, op, right, evaluated_ty }));
                }
                let (lt, nl) = match self.analyze_expr(varname, scope_id, *left, f) {
                    SemOutcome::Done(x) => x,
                    SemOutcome::Failed(e) => return SemOutcome::Failed(e),
                    SemOutcome::Stuck => return SemOutcome::Stuck,
                };
                let (rt, nr) = match self.analyze_expr(varname, scope_id, *right, f) {
                    SemOutcome::Done(x) => x,
                    SemOutcome::Failed(e) => return SemOutcome::Failed(e),
                    SemOutcome::Stuck => return SemOutcome::Stuck,
                };
                match self.promote_ty(varname, scope_id, lt, rt, f) {
                    SemOutcome::Done(t) => SemOutcome::Done(
                        (t, Value::BinaryExpr { left: Box::new(nl), op, right: Box::new(nr), evaluated_ty: Some(t) }),
                    ),
                    SemOutcome::Failed(e) => SemOutcome::Failed(e),
                    SemOutcome::Stuck => SemOutcome::Stuck,
                }
            },
        }
    }

    /// The type two operand types promote to.
    fn promote_ty(&mut self, varname: &String, scope_id: usize, left_t: Type, right_t: Type, fuel: usize) -> (r:
        SemOutcome<Type>)
        ensures
            ({
                let (st, sr) = promote_spec(old(self)@, varname@, scope_id as int, left_t, right_t, fuel as nat);
                &&& final(self)@ == st
                &&& outcome_matches(r, sr)
            }),
        decreases fuel, 0int,
    {
        if fuel == 0 {
            return SemOutcome::Stuck;
        }
        let f = fuel - 1;
        match (left_t, right_t) {
            (Type::I32, Type::I32) => SemOutcome::Done(Type::I32),
            // two unknowns meet: they are taken to be of the same type
            (Type::Unbound(id1), Type::Unbound(id2)) => {
                let s1 = match self.find_bound_scope(scope_id, id1) {
                    Some(s) => s,
                    None => return SemOutcome::Stuck,
                };
                proof {
                    lemma_bound_scope(self@, scope_id as int, id1);
                }
                self.relate(s1, id1, id2);
                if self.unbound_counter == usize::MAX {
                    return SemOutcome::Stuck;
                }
                // the new unknown, for the variable being declared
                let new_bound_id = self.unbound_counter;
                self.unbound_counter = self.unbound_counter + 1;
                let s2 = match self.find_bound_scope(scope_id, id2) {
                    Some(s) => s,
                    None => return SemOutcome::Stuck,
                };
                proof {
                    lemma_bound_scope(self@, scope_id as int, id2);
                }
                let ghost pre = self@;
                self.relate(s2, id2, id1);
                proof {
                    lemma_relate_keeps_bounds(pre, s2 as int, id2, id1, s2 as int, id2);
                }
                self.relate(s2, id2, new_bound_id);
                if scope_id >= self.envs.len() {
                    return SemOutcome::Stuck;
                }
                self.add_bound_at(scope_id, new_bound_id, SemanticBound::new(varname.clone()));
                SemOutcome::Done(Type::Unbound(new_bound_id))
            },
            // an unknown meets a type: the unknown takes that type
            (Type::I32, Type::Unbound(id)) | (Type::Unbound(id), Type::I32) => {
                match self.unify_unbound_to(scope_id, id, Type::I32, f) {
                    SemOutcome::Done(_) => SemOutcome::Done(Type::I32),
                    SemOutcome::Failed(e) => SemOutcome::Failed(e),
                    SemOutcome::Stuck => SemOutcome::Stuck,
                }
            },
        }
    }

    /// Binds the unknown `unbound_id` to `ty`, with its variable and the
    /// unknowns related to it.
    fn unify_unbound_to(&mut self, scope_id: usize, unbound_id: usize, ty: Type, fuel: usize) -> (r: SemOutcome<()>)
        ensures
            ({
                let (st, sr) = unify_spec(old(self)@, scope_id as int, unbound_id, ty, fuel as nat);
                &&& final(self)@ == st
                &&& outcome_matches(r, sr)
            }),
        decreases fuel, 0int,
    {
        if fuel == 0 {
            return SemOutcome::Stuck;
        }
        let f = fuel - 1;
        let s = match self.find_bound_scope(scope_id, unbound_id) {
            Some(s) => s,
            None => return SemOutcome::Stuck,
        };
        proof {
            lemma_bound_scope(self@, scope_id as int, unbound_id);
            lemma_find_bound(self@.envs[s as int].bounds, unbound_id, 0);
        }
        let bi = self.envs[s].bound_index(unbound_id).unwrap();
        let (resolved, target_var, relations) = self.envs[s].bound_at(bi);
        if resolved {
            // TODO LATER: check that the types agree
            return SemOutcome::Done(());
        }
        self.envs[s].set_bound_resolved(bi);
        proof {
            lemma_env_views_update(old(self).envs@, s as int, self.envs@[s as int]);
            assert(self.envs@ == old(self).envs@.update(s as int, self.envs@[s as int]));
        }
        let ghost st1 = self@;
        // the variable the unknown stands for
        match self.envs[s].var_index(&target_var) {
            Some(vi) => {
                let ghost pre = self.envs@;
                self.envs[s].set_variable_ty(vi, Some(ty));
                proof {
                    lemma_env_views_update(pre, s as int, self.envs@[s as int]);
                    assert(self.envs@ == pre.update(s as int, self.envs@[s as int]));
                }
                let value = self.envs[s].value_at(vi);
                if let Some(val) = value {
                    let ghost sa = self@;
                    proof {
                        lemma_expr_len(sa, target_var@, s as int, val, f as nat);
                    }
                    // its value is worked out again, now that its type is known
                    let nv = match self.analyze_expr(&target_var, s, val, f) {
                        SemOutcome::Done((_, nv)) => nv,
                        SemOutcome::Failed(e) => return SemOutcome::Failed(e),
                        SemOutcome::Stuck => return SemOutcome::Stuck,
                    };
                    match self.envs[s].var_index(&target_var) {
                        Some(vj) => {
                            let ghost pre2 = self.envs@;
                            self.envs[s].set_variable_value(vj, Some(nv));
                            proof {
                                lemma_env_views_update(pre2, s as int, self.envs@[s as int]);
                                assert(self.envs@ == pre2.update(s as int, self.envs@[s as int]));
                            }
                        },
                        None => return SemOutcome::Stuck,
                    }
                }
            },
            None => {},
        }
        // then the unknowns related to it
        let ghost st2 = self@;
        let ghost res = unify_all_spec(st2, s as int, relations@, 0, ty, f as nat);
        assert(unify_spec(old(self)@, scope_id as int, unbound_id, ty, fuel as nat) == res);
        let mut i: usize = 0;
        while i < relations.len()
            invariant
                i <= relations.len(),
                f == fuel - 1,
                unify_spec(old(self)@, scope_id as int, unbound_id, ty, fuel as nat) == res,
                unify_all_spec(self@, s as int, relations@, i as int, ty, f as nat) == res,
            ensures
                self@ == res.0,
                res.1 is Success,
            decreases relations.len() - i,
        {
            if f == 0 {
                return SemOutcome::Stuck;
            }
            match self.unify_unbound_to(s, relations[i], ty, f - 1) {
                SemOutcome::Done(_) => {},
                SemOutcome::Failed(e) => return SemOutcome::Failed(e),
                SemOutcome::Stuck => return SemOutcome::Stuck,
            }
            i = i + 1;
        }
        SemOutcome::Done(())
    }
}

proof fn lemma_bound_scope(st: SemState, scope: int, id: usize)
    ensures
        bound_scope(st, scope, id) matches Some(s) ==> 0 <= s <= scope && s < st.envs.len() && find_bound(
            st.envs[s].bounds,
            id,
        ) is Some,
    decreases scope,
{
    if 0 <= scope < st.envs.len() && find_bound(st.envs[scope].bounds, id) is None && scope != 0 {
        lemma_bound_scope(st, scope - 1, id);
    }
}

/// Adding a relation keeps every unknown where it was.
proof fn lemma_relate_keeps_bounds(st: SemState, s: int, id: usize, other: usize, s2: int, id2: usize)
    requires
        0 <= s < st.envs.len(),
        find_bound(st.envs[s].bounds, id) is Some,
        0 <= s2 < st.envs.len(),
        find_bound(st.envs[s2].bounds, id2) is Some,
    ensures
        find_bound(relate(st, s, id, other).envs[s2].bounds, id2) == find_bound(st.envs[s2].bounds, id2),
        relate(st, s, id, other).envs.len() == st.envs.len(),
{
    lemma_find_bound(st.envs[s].bounds, id, 0);
    let e = st.envs[s];
    let i = find_bound(e.bounds, id).unwrap();
    let b = e.bounds[i].1;
    let nb = e.bounds.update(i, (id, BoundView { relations: add_relation_spec(b.relations, other), ..b }));
    lemma_find_bound_same_keys(e.bounds, nb, id2, 0);
}

proof fn lemma_find_bound_same_keys(a: Seq<(usize, BoundView)>, b: Seq<(usize, BoundView)>, id: usize, i: int)
    requires
        a.len() == b.len(),
        forall|k: int| 0 <= k < a.len() ==> a[k].0 == b[k].0,
    ensures
        find_bound_from(a, id, i) == find_bound_from(b, id, i),
    decreases a.len() - i,
{
    if 0 <= i < a.len() && a[i].0 != id {
        lemma_find_bound_same_keys(a, b, id, i + 1);
    }
}


pub proof fn lemma_relate_len(st: SemState, s: int, id: usize, other: usize)
    requires
        0 <= s < st.envs.len(),
    ensures
        relate(st, s, id, other).envs.len() == st.envs.len(),
        relate(st, s, id, other).counter == st.counter,
{
}

/// Checking an expression keeps the number of scopes.
pub proof fn lemma_expr_len(st: SemState, varname: Seq<char>, scope: int, val: Value, fuel: nat)
    ensures
        analyze_expr_spec(st, varname, scope, val, fuel).0.envs.len() == st.envs.len(),
    decreases fuel, 0int,
{
    if fuel > 0 {
        let f = (fuel - 1) as nat;
        match val {
            Value::Absolute(inner) => {
                lemma_expr_len(st, varname, scope, *inner, f);
                let (st1, r) = analyze_expr_spec(st, varname, scope, *inner, f);
                if let SemResult::Success((Type::Unbound(id), nv)) = r {
                    lemma_unify_len(st1, scope, id, Type::I32, f);
                }
            },
            Value::Negate(inner) => {
                lemma_expr_len(st, varname, scope, *inner, f);
                let (st1, r) = analyze_expr_spec(st, varname, scope, *inner, f);
                if let SemResult::Success((Type::Unbound(id), nv)) = r {
                    lemma_unify_len(st1, scope, id, Type::I32, f);
                }
            },
            Value::BinaryExpr { left, op, right, evaluated_ty } => {
                lemma_expr_len(st, varname, scope, *left, f);
                let (st1, r1) = analyze_expr_spec(st, varname, scope, *left, f);
                lemma_expr_len(st1, varname, scope, *right, f);
                let (st2, r2) = analyze_expr_spec(st1, varname, scope, *right, f);
                if let (SemResult::Success((lt, nl)), SemResult::Success((rt, nr))) = (r1, r2) {
                    lemma_promote_len(st2, varname, scope, lt, rt, f);
                }
            },
            _ => {},
        }
    }
}

/// Promoting types keeps the number of scopes.
pub proof fn lemma_promote_len(st: SemState, varname: Seq<char>, scope: int, l: Type, r: Type, fuel: nat)
    ensures
        promote_spec(st, varname, scope, l, r, fuel).0.envs.len() == st.envs.len(),
    decreases fuel, 0int,
{
    if fuel > 0 {
        let f = (fuel - 1) as nat;
        match (l, r) {
            (Type::Unbound(id1), Type::Unbound(id2)) => {
                lemma_bound_scope(st, scope, id1);
                if let Some(s1) = bound_scope(st, scope, id1) {
                    let st1 = relate(st, s1, id1, id2);
                    let st2 = SemState { counter: st1.counter + 1, ..st1 };
                    lemma_bound_scope(st2, scope, id2);
                    if let Some(s2) = bound_scope(st2, scope, id2) {
                        let st3 = relate(st2, s2, id2, id1);
                        lemma_relate_len(st3, s2, id2, st1.counter as usize);
                    }
                }
            },
            (Type::I32, Type::Unbound(id)) => {
                lemma_unify_len(st, scope, id, Type::I32, f);
            },
            (Type::Unbound(id), Type::I32) => {
                lemma_unify_len(st, scope, id, Type::I32, f);
            },
            _ => {},
        }
    }
}

/// Binding an unknown keeps the number of scopes.
pub proof fn lemma_unify_len(st: SemState, scope: int, id: usize, ty: Type, fuel: nat)
    ensures
        unify_spec(st, scope, id, ty, fuel).0.envs.len() == st.envs.len(),
    decreases fuel, 0int,
{
    if fuel > 0 {
        let f = (fuel - 1) as nat;
        lemma_bound_scope(st, scope, id);
        if let Some(s) = bound_scope(st, scope, id) {
            let e = st.envs[s];
            let bi = find_bound(e.bounds, id).unwrap();
            let b = e.bounds[bi].1;
            if !b.resolved {
                let st1 = set_env(
                    st,
                    s,
                    SemScopeView { bounds: e.bounds.update(bi, (id, BoundView { resolved: true, ..b })), ..e },
                );
                let target = b.target_var;
                if let Some(vi) = find_var(st1.envs[s].variables, target) {
                    let var = st1.envs[s].variables[vi];
                    let sta = set_var(st1, s, vi, Variable { ty: Some(ty), ..var });
                    if let Some(val) = var.value {
                        lemma_expr_len(sta, target, s, val, f);
                    }
                }
                let (st2, r) = match find_var(st1.envs[s].variables, target) {
                    None => (st1, SemResult::Success(())),
                    Some(vi) => {
                        let var = st1.envs[s].variables[vi];
                        let sta = set_var(st1, s, vi, Variable { ty: Some(ty), ..var });
                        match var.value {
                            None => (sta, SemResult::Success(())),
                            Some(val) => {
                                let (stb, rb) = analyze_expr_spec(sta, target, s, val, f);
                                match rb {
                                    SemResult::Success((_, nv)) => match find_var(stb.envs[s].variables, target) {
                                        Some(vj) => (
                                            set_var(stb, s, vj, Variable { value: Some(nv), ..stb.envs[s].variables[vj] }),
                                            SemResult::Success(()),
                                        ),
                                        None => (stb, SemResult::Stuck),
                                    },
                                    SemResult::Failure(e) => (stb, SemResult::Failure(e)),
                                    SemResult::Stuck => (stb, SemResult::Stuck),
                                }
                            },
                        }
                    },
                };
                lemma_unify_all_len(st2, s, b.relations, 0, ty, f);
            }
        }
    }
}

/// Binding a list of unknowns keeps the number of scopes.
pub proof fn lemma_unify_all_len(st: SemState, scope: int, rels: Seq<usize>, i: int, ty: Type, fuel: nat)
    ensures
        unify_all_spec(st, scope, rels, i, ty, fuel).0.envs.len() == st.envs.len(),
    decreases fuel, rels.len() - i,
{
    if 0 <= i < rels.len() && fuel > 0 {
        lemma_unify_len(st, scope, rels[i], ty, (fuel - 1) as nat);
        let (st1, r) = unify_spec(st, scope, rels[i], ty, (fuel - 1) as nat);
        lemma_unify_all_len(st1, scope, rels, i + 1, ty, fuel);
    }
}


impl Semantic {
    /// Checks one statement of the scope `scope_id`.
    fn analyze_statement(&mut self, scope_id: usize, stmt: Statement, fuel: usize) -> (r: SemOutcome<()>)
        ensures
            ({
                let (st, sr) = analyze_stmt_spec(old(self)@, scope_id as int, stmt, fuel as nat);
                &&& final(self)@ == st
                &&& outcome_matches(r, sr)
            }),
        decreases fuel, 0int,
    {
        if fuel == 0 || scope_id >= self.envs.len() {
            return SemOutcome::Stuck;
        }
        let f = fuel - 1;
        match stmt {
            Statement::Variable(v) => {
                // a variable declared twice in one scope; shadowing one of
                // another scope is allowed
                if self.envs[scope_id].get_variable(&v.ident.lexeme).is_some() {
                    return SemOutcome::Failed(semantic_error(SemanticError::ConflictingVariable));
                }
                let Variable { ident, ty, value, desc } = v;
                let ghost st0 = self@;
                let (v_ty, value) = match ty {
                    Some(t) => (t, value),
                    None => match value {
                        Some(val) => {
                            proof {
                                lemma_expr_len(st0, ident.lexeme@, scope_id as int, val, f as nat);
                            }
                            match self.analyze_expr(&ident.lexeme, scope_id, val, f) {
                                SemOutcome::Done((t, nv)) => (t, Some(nv)),
                                SemOutcome::Failed(e) => return SemOutcome::Failed(e),
                                SemOutcome::Stuck => return SemOutcome::Stuck,
                            }
                        },
                        None => {
                            if self.unbound_counter == usize::MAX {
                                return SemOutcome::Stuck;
                            }
                            let bound_id = self.unbound_counter;
                            self.unbound_counter = self.unbound_counter + 1;
                            self.add_bound_at(scope_id, bound_id, SemanticBound::new(ident.lexeme.clone()));
                            (Type::Unbound(bound_id), None)
                        },
                    },
                };
                proof {
                    assert(self@.envs.len() == self.envs@.len());
                    assert(st0.envs.len() == self@.envs.len());
                }
                let ghost pre = self.envs@;
                self.envs[scope_id].add_variable(Variable::new(ident, Some(v_ty), value, desc));
                proof {
                    lemma_env_views_update(pre, scope_id as int, self.envs@[scope_id as int]);
                    assert(self.envs@ == pre.update(scope_id as int, self.envs@[scope_id as int]));
                }
                SemOutcome::Done(())
            },
        }
    }

    /// Checks the scope `scope_id` of `arena`: its statements, then its
    /// child scopes.
    fn analyze_scope(&mut self, scope_id: usize, arena: &ScopeArena, fuel: usize) -> (r: SemOutcome<()>)
        ensures
            ({
                let (st, sr) = analyze_scope_spec(old(self)@, scope_id as int, arena@, fuel as nat);
                &&& final(self)@ == st
                &&& outcome_matches(r, sr)
            }),
        decreases fuel, 0int,
    {
        if fuel == 0 {
            return SemOutcome::Stuck;
        }
        let scope = match arena.get_scope(scope_id) {
            Some(s) => s,
            None => return SemOutcome::Stuck,
        };
        let f = fuel - 1;
        let stmts = scope.get_statements();
        let ghost res1 = analyze_stmts_spec(old(self)@, scope_id as int, stmts@, 0, f as nat);
        let mut i: usize = 0;
        while i < stmts.len()
            invariant
                i <= stmts.len(),
                f == fuel - 1,
                stmts@ == arena@[scope_id as int].statements,
                res1 == analyze_stmts_spec(old(self)@, scope_id as int, stmts@, 0, f as nat),
                analyze_stmts_spec(self@, scope_id as int, stmts@, i as int, f as nat) == res1,
                analyze_scope_spec(old(self)@, scope_id as int, arena@, fuel as nat) == (match res1.1 {
                    SemResult::Success(_) => analyze_children_spec(res1.0, arena@[scope_id as int].children, 0, arena@, f as nat),
                    SemResult::Failure(e) => (res1.0, SemResult::Failure(e)),
                    SemResult::Stuck => (res1.0, SemResult::Stuck),
                }),
            ensures
                self@ == res1.0,
                res1.1 is Success,
            decreases stmts.len() - i,
        {
            if f == 0 {
                return SemOutcome::Stuck;
            }
            match self.analyze_statement(scope_id, stmts[i].duplicate(), f - 1) {
                SemOutcome::Done(_) => {},
                SemOutcome::Failed(e) => return SemOutcome::Failed(e),
                SemOutcome::Stuck => return SemOutcome::Stuck,
            }
            i = i + 1;
        }
        let children = scope.get_children_scopes();
        let ghost st1 = self@;
        let ghost res2 = analyze_children_spec(st1, children@, 0, arena@, f as nat);
        let mut k: usize = 0;
        while k < children.len()
            invariant
                k <= children.len(),
                f == fuel - 1,
                children@ == arena@[scope_id as int].children,
                res2 == analyze_scope_spec(old(self)@, scope_id as int, arena@, fuel as nat),
                analyze_children_spec(self@, children@, k as int, arena@, f as nat) == res2,
            ensures
                self@ == res2.0,
                res2.1 is Success,
            decreases children.len() - k,
        {
            if f == 0 {
                return SemOutcome::Stuck;
            }
            match self.analyze_scope(children[k], arena, f - 1) {
                SemOutcome::Done(_) => {},
                SemOutcome::Failed(e) => return SemOutcome::Failed(e),
                SemOutcome::Stuck => return SemOutcome::Stuck,
            }
            k = k + 1;
        }
        SemOutcome::Done(())
    }

    /// Type-checks the arena, from its first scope. The checker must not get
    /// stuck on it (see `try_analyze`).
    pub fn analyze(&mut self, arena: ScopeArena) -> (r: Result<(), Diagnostic>)
        requires
            !(analysis(old(self)@, arena@).1 is Stuck),
        ensures
            final(self)@ == analysis(old(self)@, arena@).0,
            sem_ok(old(self)@) ==> sem_ok(final(self)@) && final(self)@.envs.len() == old(self)@.envs.len(),
            keys_below(old(self)@) ==> keys_below(final(self)@),
            match r {
                Ok(_) => analysis(old(self)@, arena@).1 is Success,
                Err(d) => analysis(old(self)@, arena@).1 matches SemResult::Failure(e) && d@ == error_view(e),
            },
    {
        proof {
            if sem_ok(self@) {
                law_analysis_keeps_scopes(self@, arena@);
            }
            if keys_below(self@) {
                law_analysis_keeps_numbers(self@, arena@);
            }
        }
        match self.analyze_scope(0, &arena, ANALYSIS_DEPTH) {
            SemOutcome::Done(_) => Ok(()),
            SemOutcome::Failed(d) => Err(d),
            SemOutcome::Stuck => {
                proof {
                    assert(false);
                }
                Ok(())
            },
        }
    }

    /// Type-checks the arena, from its first scope; `None` where the checker
    /// gets stuck.
    pub fn try_analyze(&mut self, arena: ScopeArena) -> (r: Option<Result<(), Diagnostic>>)
        ensures
            final(self)@ == analysis(old(self)@, arena@).0,
            sem_ok(old(self)@) ==> sem_ok(final(self)@) && final(self)@.envs.len() == old(self)@.envs.len(),
            keys_below(old(self)@) ==> keys_below(final(self)@),
            match r {
                None => analysis(old(self)@, arena@).1 is Stuck,
                Some(Ok(_)) => analysis(old(self)@, arena@).1 is Success,
                Some(Err(d)) => analysis(old(self)@, arena@).1 matches SemResult::Failure(e) && d@ == error_view(e),
            },
    {
        proof {
            if sem_ok(self@) {
                law_analysis_keeps_scopes(self@, arena@);
            }
            if keys_below(self@) {
                law_analysis_keeps_numbers(self@, arena@);
            }
        }
        match self.analyze_scope(0, &arena, ANALYSIS_DEPTH) {
            SemOutcome::Done(_) => Some(Ok(())),
            SemOutcome::Failed(d) => Some(Err(d)),
            SemOutcome::Stuck => None,
        }
    }

    /// The checker's scopes.
    pub fn scopes(&self) -> (r: &Vec<SemanticScope>)
        ensures
            env_views(r@) == self@.envs,
    {
        &self.envs
    }

    /// The checker's scopes, handed over (to run the checked program).
    pub fn into_scopes(self) -> (r: Vec<SemanticScope>)
        ensures
            env_views(r@) == self@.envs,
    {
        self.envs
    }
}

} // verus!

verus! {

// ---------------------------------------------------------------------------
// Laws of the type checker.
// ---------------------------------------------------------------------------

/// Every variable of a scope has a type, and no two share a name.
pub open spec fn vars_ok(vs: Seq<Variable>) -> bool {
    &&& forall|i: int| 0 <= i < vs.len() ==> (#[trigger] vs[i]).ty is Some
    &&& forall|i: int, j: int|
        0 <= i < j < vs.len() ==> (#[trigger] vs[i]).ident.lexeme@ != (#[trigger] vs[j]).ident.lexeme@
}

/// Every scope of the checker keeps its variables typed and apart, and has no
/// child scope recorded.
pub open spec fn sem_ok(st: SemState) -> bool {
    forall|s: int|
        0 <= s < st.envs.len() ==> vars_ok(#[trigger] st.envs[s].variables) && st.envs[s].children.len() == 0
}

proof fn lemma_set_env_ok(st: SemState, s: int, e: SemScopeView)
    requires
        sem_ok(st),
        0 <= s < st.envs.len(),
        vars_ok(e.variables),
        e.children == st.envs[s].children,
    ensures
        sem_ok(set_env(st, s, e)),
        set_env(st, s, e).envs.len() == st.envs.len(),
{
    let st2 = set_env(st, s, e);
    assert(vars_ok(st.envs[s].variables));
    assert forall|k: int| 0 <= k < st2.envs.len() implies vars_ok(#[trigger] st2.envs[k].variables)
        && st2.envs[k].children.len() == 0 by {
        if k != s {
            assert(st2.envs[k] == st.envs[k]);
            assert(vars_ok(st.envs[k].variables));
        }
    }
}

proof fn lemma_replace_var_ok(vs: Seq<Variable>, i: int, v: Variable)
    requires
        vars_ok(vs),
        0 <= i < vs.len(),
        v.ty is Some,
        v.ident.lexeme@ == vs[i].ident.lexeme@,
    ensures
        vars_ok(vs.update(i, v)),
{
    let w = vs.update(i, v);
    assert forall|a: int| 0 <= a < w.len() implies (#[trigger] w[a]).ty is Some && w[a].ident.lexeme@
        == vs[a].ident.lexeme@ by {
        if a != i {
            assert(w[a] == vs[a]);
        }
    }
    assert forall|a: int, b: int| 0 <= a < b < w.len() implies (#[trigger] w[a]).ident.lexeme@
        != (#[trigger] w[b]).ident.lexeme@ by {
        assert(vs[a].ident.lexeme@ != vs[b].ident.lexeme@);
    }
}

proof fn lemma_add_var_ok(vs: Seq<Variable>, v: Variable)
    requires
        vars_ok(vs),
        v.ty is Some,
    ensures
        vars_ok(add_variable_spec(vs, v)),
{
    lemma_find_var(vs, v.ident.lexeme@, 0);
    match find_var(vs, v.ident.lexeme@) {
        Some(i) => lemma_replace_var_ok(vs, i, v),
        None => {
            let w = vs.push(v);
            assert forall|a: int| 0 <= a < w.len() implies (#[trigger] w[a]).ty is Some by {
                if a < vs.len() {
                    assert(w[a] == vs[a]);
                }
            }
            assert forall|a: int, b: int| 0 <= a < b < w.len() implies (#[trigger] w[a]).ident.lexeme@
                != (#[trigger] w[b]).ident.lexeme@ by {
                assert(w[a] == vs[a]);
                if b < vs.len() {
                    assert(w[b] == vs[b]);
                }
            }
        },
    }
}

proof fn lemma_relate_ok(st: SemState, s: int, id: usize, other: usize)
    requires
        sem_ok(st),
        0 <= s < st.envs.len(),
    ensures
        sem_ok(relate(st, s, id, other)),
        relate(st, s, id, other).envs.len() == st.envs.len(),
{
    let e = st.envs[s];
    let i = find_bound(e.bounds, id).unwrap();
    let b = e.bounds[i].1;
    lemma_set_env_ok(
        st,
        s,
        SemScopeView {
            bounds: e.bounds.update(i, (id, BoundView { relations: add_relation_spec(b.relations, other), ..b })),
            ..e
        },
    );
}

proof fn lemma_add_bound_ok(st: SemState, s: int, id: usize, b: BoundView)
    requires
        sem_ok(st),
        0 <= s < st.envs.len(),
    ensures
        sem_ok(add_bound_at(st, s, id, b)),
        add_bound_at(st, s, id, b).envs.len() == st.envs.len(),
{
    lemma_set_env_ok(st, s, SemScopeView { bounds: add_bounds_spec(st.envs[s].bounds, id, b), ..st.envs[s] });
}

proof fn lemma_expr_ok(st: SemState, varname: Seq<char>, scope: int, val: Value, fuel: nat)
    requires
        sem_ok(st),
    ensures
        sem_ok(analyze_expr_spec(st, varname, scope, val, fuel).0),
    decreases fuel, 0int,
{
    if fuel > 0 {
        let f = (fuel - 1) as nat;
        match val {
            Value::Absolute(inner) => {
                lemma_expr_ok(st, varname, scope, *inner, f);
                let (st1, r) = analyze_expr_spec(st, varname, scope, *inner, f);
                if let SemResult::Success((Type::Unbound(id), nv)) = r {
                    lemma_unify_ok(st1, scope, id, Type::I32, f);
                }
            },
            Value::Negate(inner) => {
                lemma_expr_ok(st, varname, scope, *inner, f);
                let (st1, r) = analyze_expr_spec(st, varname, scope, *inner, f);
                if let SemResult::Success((Type::Unbound(id), nv)) = r {
                    lemma_unify_ok(st1, scope, id, Type::I32, f);
                }
            },
            Value::BinaryExpr { left, op, right, evaluated_ty } => {
                lemma_expr_ok(st, varname, scope, *left, f);
                let (st1, r1) = analyze_expr_spec(st, varname, scope, *left, f);
                lemma_expr_ok(st1, varname, scope, *right, f);
                let (st2, r2) = analyze_expr_spec(st1, varname, scope, *right, f);
                if let (SemResult::Success((lt, nl)), SemResult::Success((rt, nr))) = (r1, r2) {
                    lemma_promote_ok(st2, varname, scope, lt, rt, f);
                }
            },
            _ => {},
        }
    }
}

proof fn lemma_promote_ok(st: SemState, varname: Seq<char>, scope: int, l: Type, r: Type, fuel: nat)
    requires
        sem_ok(st),
    ensures
        sem_ok(promote_spec(st, varname, scope, l, r, fuel).0),
    decreases fuel, 0int,
{
    if fuel > 0 {
        let f = (fuel - 1) as nat;
        match (l, r) {
            (Type::Unbound(id1), Type::Unbound(id2)) => {
                lemma_bound_scope(st, scope, id1);
                if let Some(s1) = bound_scope(st, scope, id1) {
                    lemma_relate_ok(st, s1, id1, id2);
                    let st1 = relate(st, s1, id1, id2);
                    let st2 = SemState { counter: st1.counter + 1, ..st1 };
                    let new_id = st1.counter as usize;
                    lemma_bound_scope(st2, scope, id2);
                    if let Some(s2) = bound_scope(st2, scope, id2) {
                        lemma_relate_ok(st2, s2, id2, id1);
                        let st3 = relate(st2, s2, id2, id1);
                        lemma_relate_ok(st3, s2, id2, new_id);
                        let st4 = relate(st3, s2, id2, new_id);
                        if 0 <= scope < st4.envs.len() {
                            lemma_add_bound_ok(st4, scope, new_id, fresh_bound(varname));
                        }
                    }
                }
            },
            (Type::I32, Type::Unbound(id)) => {
                lemma_unify_ok(st, scope, id, Type::I32, f);
            },
            (Type::Unbound(id), Type::I32) => {
                lemma_unify_ok(st, scope, id, Type::I32, f);
            },
            _ => {},
        }
    }
}

proof fn lemma_unify_ok(st: SemState, scope: int, id: usize, ty: Type, fuel: nat)
    requires
        sem_ok(st),
    ensures
        sem_ok(unify_spec(st, scope, id, ty, fuel).0),
    decreases fuel, 0int,
{
    if fuel > 0 {
        let f = (fuel - 1) as nat;
        lemma_bound_scope(st, scope, id);
        if let Some(s) = bound_scope(st, scope, id) {
            let e = st.envs[s];
            let bi = find_bound(e.bounds, id).unwrap();
            let b = e.bounds[bi].1;
            if !b.resolved {
                let e1 = SemScopeView { bounds: e.bounds.update(bi, (id, BoundView { resolved: true, ..b })), ..e };
                lemma_set_env_ok(st, s, e1);
                let st1 = set_env(st, s, e1);
                let target = b.target_var;
                lemma_find_var(st1.envs[s].variables, target, 0);
                if let Some(vi) = find_var(st1.envs[s].variables, target) {
                    let var = st1.envs[s].variables[vi];
                    let nvar = Variable { ty: Some(ty), ..var };
                    lemma_replace_var_ok(st1.envs[s].variables, vi, nvar);
                    lemma_set_env_ok(
                        st1,
                        s,
                        SemScopeView { variables: st1.envs[s].variables.update(vi, nvar), ..st1.envs[s] },
                    );
                    let sta = set_var(st1, s, vi, nvar);
                    if let Some(val) = var.value {
                        lemma_expr_ok(sta, target, s, val, f);
                        lemma_expr_len(sta, target, s, val, f);
                        let (stb, rb) = analyze_expr_spec(sta, target, s, val, f);
                        if let SemResult::Success((_, nv)) = rb {
                            lemma_find_var(stb.envs[s].variables, target, 0);
                            if let Some(vj) = find_var(stb.envs[s].variables, target) {
                                let w = stb.envs[s].variables[vj];
                                let nw = Variable { value: Some(nv), ..w };
                                assert(vars_ok(stb.envs[s].variables));
                                lemma_replace_var_ok(stb.envs[s].variables, vj, nw);
                                lemma_set_env_ok(
                                    stb,
                                    s,
                                    SemScopeView { variables: stb.envs[s].variables.update(vj, nw), ..stb.envs[s] },
                                );
                            }
                        }
                    }
                }
                let (st2, r) = match find_var(st1.envs[s].variables, target) {
                    None => (st1, SemResult::Success(())),
                    Some(vi) => {
                        let var = st1.envs[s].variables[vi];
                        let sta = set_var(st1, s, vi, Variable { ty: Some(ty), ..var });
                        match var.value {
                            None => (sta, SemResult::Success(())),
                            Some(val) => {
                                let (stb, rb) = analyze_expr_spec(sta, target, s, val, f);
                                match rb {
                                    SemResult::Success((_, nv)) => match find_var(stb.envs[s].variables, target) {
                                        Some(vj) => (
                                            set_var(stb, s, vj, Variable { value: Some(nv), ..stb.envs[s].variables[vj] }),
                                            SemResult::Success(()),
                                        ),
                                        None => (stb, SemResult::Stuck),
                                    },
                                    SemResult::Failure(e) => (stb, SemResult::Failure(e)),
                                    SemResult::Stuck => (stb, SemResult::Stuck),
                                }
                            },
                        }
                    },
                };
                lemma_unify_all_ok(st2, s, b.relations, 0, ty, f);
            }
        }
    }
}

proof fn lemma_unify_all_ok(st: SemState, scope: int, rels: Seq<usize>, i: int, ty: Type, fuel: nat)
    requires
        sem_ok(st),
    ensures
        sem_ok(unify_all_spec(st, scope, rels, i, ty, fuel).0),
    decreases fuel, rels.len() - i,
{
    if 0 <= i < rels.len() && fuel > 0 {
        lemma_unify_ok(st, scope, rels[i], ty, (fuel - 1) as nat);
        let (st1, r) = unify_spec(st, scope, rels[i], ty, (fuel - 1) as nat);
        lemma_unify_all_ok(st1, scope, rels, i + 1, ty, fuel);
    }
}

proof fn lemma_stmt_ok(st: SemState, scope: int, stmt: Statement, fuel: nat)
    requires
        sem_ok(st),
    ensures
        sem_ok(analyze_stmt_spec(st, scope, stmt, fuel).0),
        analyze_stmt_spec(st, scope, stmt, fuel).0.envs.len() == st.envs.len(),
{
    if fuel > 0 && 0 <= scope < st.envs.len() {
        let f = (fuel - 1) as nat;
        match stmt {
            Statement::Variable(v) => {
                let name = v.ident.lexeme@;
                if find_var(st.envs[scope].variables, name) is None {
                    if v.ty is None {
                        if let Some(val) = v.value {
                            lemma_expr_ok(st, name, scope, val, f);
                            lemma_expr_len(st, name, scope, val, f);
                        } else if st.counter < usize::MAX {
                            assert(sem_ok(SemState { counter: st.counter + 1, ..st }));
                            lemma_add_bound_ok(
                                SemState { counter: st.counter + 1, ..st },
                                scope,
                                st.counter as usize,
                                fresh_bound(name),
                            );
                        }
                    }
                    let (st1, r): (SemState, SemResult<(Type, Option<Value>)>) = match v.ty {
                        Some(t) => (st, SemResult::Success((t, v.value))),
                        None => match v.value {
                            Some(val) => {
                                let (sa, ra) = analyze_expr_spec(st, name, scope, val, f);
                                match ra {
                                    SemResult::Success((t, nv)) => (sa, SemResult::Success((t, Some(nv)))),
                                    SemResult::Failure(e) => (sa, SemResult::Failure(e)),
                                    SemResult::Stuck => (sa, SemResult::Stuck),
                                }
                            },
                            None => if st.counter >= usize::MAX {
                                (st, SemResult::Stuck)
                            } else {
                                let id = st.counter as usize;
                                (
                                    add_bound_at(SemState { counter: st.counter + 1, ..st }, scope, id, fresh_bound(name)),
                                    SemResult::Success((Type::Unbound(id), None)),
                                )
                            },
                        },
                    };
                    if let SemResult::Success((t, value)) = r {
                        let nv = Variable { ident: v.ident, ty: Some(t), value, desc: v.desc };
                        assert(vars_ok(st1.envs[scope].variables));
                        lemma_add_var_ok(st1.envs[scope].variables, nv);
                        lemma_set_env_ok(
                            st1,
                            scope,
                            SemScopeView {
                                variables: add_variable_spec(st1.envs[scope].variables, nv),
                                ..st1.envs[scope]
                            },
                        );
                    }
                }
            },
        }
    }
}

proof fn lemma_stmts_ok(st: SemState, scope: int, stmts: Seq<Statement>, i: int, fuel: nat)
    requires
        sem_ok(st),
    ensures
        sem_ok(analyze_stmts_spec(st, scope, stmts, i, fuel).0),
        analyze_stmts_spec(st, scope, stmts, i, fuel).0.envs.len() == st.envs.len(),
    decreases stmts.len() - i,
{
    if 0 <= i < stmts.len() && fuel > 0 {
        lemma_stmt_ok(st, scope, stmts[i], (fuel - 1) as nat);
        let (st1, r) = analyze_stmt_spec(st, scope, stmts[i], (fuel - 1) as nat);
        lemma_stmts_ok(st1, scope, stmts, i + 1, fuel);
    }
}

proof fn lemma_scope_ok(st: SemState, id: int, arena: Seq<ScopeView>, fuel: nat)
    requires
        sem_ok(st),
    ensures
        sem_ok(analyze_scope_spec(st, id, arena, fuel).0),
        analyze_scope_spec(st, id, arena, fuel).0.envs.len() == st.envs.len(),
    decreases fuel, 0int,
{
    if fuel > 0 && 0 <= id < arena.len() {
        let f = (fuel - 1) as nat;
        lemma_stmts_ok(st, id, arena[id].statements, 0, f);
        let (st1, r) = analyze_stmts_spec(st, id, arena[id].statements, 0, f);
        lemma_children_ok(st1, arena[id].children, 0, arena, f);
    }
}

proof fn lemma_children_ok(st: SemState, children: Seq<usize>, i: int, arena: Seq<ScopeView>, fuel: nat)
    requires
        sem_ok(st),
    ensures
        sem_ok(analyze_children_spec(st, children, i, arena, fuel).0),
        analyze_children_spec(st, children, i, arena, fuel).0.envs.len() == st.envs.len(),
    decreases fuel, children.len() - i,
{
    if 0 <= i < children.len() && fuel > 0 {
        lemma_scope_ok(st, children[i] as int, arena, (fuel - 1) as nat);
        let (st1, r) = analyze_scope_spec(st, children[i] as int, arena, (fuel - 1) as nat);
        lemma_children_ok(st1, children, i + 1, arena, fuel);
    }
}

/// Whatever the arena, and whether it succeeds or not, the checker neither
/// adds nor drops scopes, gives every variable it records a type, never holds
/// two variables of one name in a scope, and records no child scope.
pub proof fn law_analysis_keeps_scopes(st: SemState, arena: Seq<ScopeView>)
    requires
        sem_ok(st),
    ensures
        sem_ok(analysis(st, arena).0),
        analysis(st, arena).0.envs.len() == st.envs.len(),
{
    lemma_scope_ok(st, 0, arena, ANALYSIS_DEPTH as nat);
}

} // verus!

verus! {

// ---------------------------------------------------------------------------
// What binding unknowns keeps, and the law of a binding.
// ---------------------------------------------------------------------------

/// Every unknown's number is below the counter of unknowns made so far.
pub open spec fn keys_below(st: SemState) -> bool {
    &&& 0 <= st.counter
    &&& forall|s: int, j: int|
        0 <= s < st.envs.len() && 0 <= j < st.envs[s].bounds.len() ==> (#[trigger] st.envs[s].bounds[j]).0
            < st.counter
}

/// From `x` to `y`, a scope keeps its unknowns where they are, bound ones
/// bound, and only adds unknowns numbered `c` or more at the end; it keeps
/// its variables and their names, and a variable of type `i32` keeps it.
pub open spec fn env_grows(x: SemScopeView, y: SemScopeView, c: int) -> bool {
    &&& x.bounds.len() <= y.bounds.len()
    &&& forall|j: int|
        0 <= j < x.bounds.len() ==> (#[trigger] y.bounds[j]).0 == x.bounds[j].0 && (x.bounds[j].1.resolved
            ==> y.bounds[j].1.resolved)
    &&& forall|j: int| x.bounds.len() <= j < y.bounds.len() ==> (#[trigger] y.bounds[j]).0 >= c
    &&& y.variables.len() == x.variables.len()
    &&& forall|i: int|
        0 <= i < x.variables.len() ==> (#[trigger] y.variables[i]).ident == x.variables[i].ident && (
        x.variables[i].ty == Some(Type::I32) ==> y.variables[i].ty == Some(Type::I32))
}

/// From `a` to `b`, every scope grows as `env_grows` says, with new unknowns
/// numbered `c` or more.
pub open spec fn grows_from(a: SemState, b: SemState, c: int) -> bool {
    &&& b.envs.len() == a.envs.len()
    &&& a.counter <= b.counter
    &&& forall|s: int| 0 <= s < a.envs.len() ==> #[trigger] env_grows(a.envs[s], b.envs[s], c)
}

pub open spec fn grows(a: SemState, b: SemState) -> bool {
    grows_from(a, b, a.counter)
}

proof fn lemma_grows_refl(a: SemState)
    ensures
        grows(a, a),
{
    assert forall|s: int| 0 <= s < a.envs.len() implies #[trigger] env_grows(a.envs[s], a.envs[s], a.counter) by {
    }
}

proof fn lemma_grows_trans(a: SemState, b: SemState, d: SemState, c1: int, c2: int)
    requires
        grows_from(a, b, c1),
        grows_from(b, d, c2),
        c1 <= c2,
    ensures
        grows_from(a, d, c1),
{
    assert forall|s: int| 0 <= s < a.envs.len() implies #[trigger] env_grows(a.envs[s], d.envs[s], c1) by {
        assert(env_grows(a.envs[s], b.envs[s], c1));
        assert(env_grows(b.envs[s], d.envs[s], c2));
        let x = a.envs[s];
        let y = b.envs[s];
        let z = d.envs[s];
        assert forall|j: int| 0 <= j < x.bounds.len() implies (#[trigger] z.bounds[j]).0 == x.bounds[j].0 && (
        x.bounds[j].1.resolved ==> z.bounds[j].1.resolved) by {
            assert(y.bounds[j].0 == x.bounds[j].0);
        }
        assert forall|j: int| x.bounds.len() <= j < z.bounds.len() implies (#[trigger] z.bounds[j]).0 >= c1 by {
            if j < y.bounds.len() {
                assert(y.bounds[j].0 >= c1);
            }
        }
        assert forall|i: int| 0 <= i < x.variables.len() implies (#[trigger] z.variables[i]).ident
            == x.variables[i].ident && (x.variables[i].ty == Some(Type::I32) ==> z.variables[i].ty == Some(
            Type::I32,
        )) by {
            assert(y.variables[i].ident == x.variables[i].ident);
        }
    }
}

/// Changing one scope, as `env_grows` allows, makes the state grow.
proof fn lemma_set_env_grows(st: SemState, s: int, e: SemScopeView, c: int)
    requires
        0 <= s < st.envs.len(),
        env_grows(st.envs[s], e, c),
        keys_below(st),
        forall|j: int| 0 <= j < e.bounds.len() ==> (#[trigger] e.bounds[j]).0 < st.counter,
    ensures
        grows_from(st, set_env(st, s, e), c),
        keys_below(set_env(st, s, e)),
{
    let st2 = set_env(st, s, e);
    assert forall|k: int| 0 <= k < st.envs.len() implies #[trigger] env_grows(st.envs[k], st2.envs[k], c) by {
        if k != s {
            assert(st2.envs[k] == st.envs[k]);
        }
    }
    assert forall|k: int, j: int| 0 <= k < st2.envs.len() && 0 <= j < st2.envs[k].bounds.len() implies (
    #[trigger] st2.envs[k].bounds[j]).0 < st2.counter by {
        if k != s {
            assert(st2.envs[k] == st.envs[k]);
        }
    }
}

/// A scope whose variable `i` gets a type `i32`, or a new value, grows.
proof fn lemma_set_var_grows(st: SemState, s: int, i: int, v: Variable)
    requires
        0 <= s < st.envs.len(),
        0 <= i < st.envs[s].variables.len(),
        keys_below(st),
        v.ident == st.envs[s].variables[i].ident,
        v.ty == Some(Type::I32) || v.ty == st.envs[s].variables[i].ty,
    ensures
        grows(st, set_var(st, s, i, v)),
        keys_below(set_var(st, s, i, v)),
        set_var(st, s, i, v).counter == st.counter,
{
    let e = st.envs[s];
    let e2 = SemScopeView { variables: e.variables.update(i, v), ..e };
    assert forall|k: int| 0 <= k < e.variables.len() implies (#[trigger] e2.variables[k]).ident
        == e.variables[k].ident && (e.variables[k].ty == Some(Type::I32) ==> e2.variables[k].ty == Some(
        Type::I32,
    )) by {}
    assert(env_grows(e, e2, st.counter));
    assert(forall|j: int| 0 <= j < e2.bounds.len() ==> (#[trigger] e2.bounds[j]).0 < st.counter) by {
        assert forall|j: int| 0 <= j < e2.bounds.len() implies (#[trigger] e2.bounds[j]).0 < st.counter by {
            assert(e2.bounds[j] == st.envs[s].bounds[j]);
        }
    }
    lemma_set_env_grows(st, s, e2, st.counter);
}

/// Updating the unknown at index `i` without changing its number, keeping it
/// bound if it was, makes the state grow.
proof fn lemma_set_bound_grows(st: SemState, s: int, i: int, b: BoundView)
    requires
        0 <= s < st.envs.len(),
        0 <= i < st.envs[s].bounds.len(),
        keys_below(st),
        st.envs[s].bounds[i].1.resolved ==> b.resolved,
    ensures
        grows(
            st,
            set_env(st, s, SemScopeView { bounds: st.envs[s].bounds.update(i, (st.envs[s].bounds[i].0, b)), ..st.envs[s] }),
        ),
        keys_below(
            set_env(st, s, SemScopeView { bounds: st.envs[s].bounds.update(i, (st.envs[s].bounds[i].0, b)), ..st.envs[s] }),
        ),
{
    let e = st.envs[s];
    let e2 = SemScopeView { bounds: e.bounds.update(i, (e.bounds[i].0, b)), ..e };
    assert forall|j: int| 0 <= j < e.bounds.len() implies (#[trigger] e2.bounds[j]).0 == e.bounds[j].0 && (
    e.bounds[j].1.resolved ==> e2.bounds[j].1.resolved) by {}
    assert(env_grows(e, e2, st.counter));
    assert forall|j: int| 0 <= j < e2.bounds.len() implies (#[trigger] e2.bounds[j]).0 < st.counter by {
        assert(e2.bounds[j].0 == e.bounds[j].0);
    }
    lemma_set_env_grows(st, s, e2, st.counter);
}

proof fn lemma_relate_grows(st: SemState, s: int, id: usize, other: usize)
    requires
        0 <= s < st.envs.len(),
        find_bound(st.envs[s].bounds, id) is Some,
        keys_below(st),
    ensures
        grows(st, relate(st, s, id, other)),
        keys_below(relate(st, s, id, other)),
        relate(st, s, id, other).counter == st.counter,
{
    lemma_find_bound(st.envs[s].bounds, id, 0);
    let e = st.envs[s];
    let i = find_bound(e.bounds, id).unwrap();
    let b = e.bounds[i].1;
    lemma_set_bound_grows(st, s, i, BoundView { relations: add_relation_spec(b.relations, other), ..b });
}

/// Adding a fresh unknown numbered `c` (below the counter, above every number
/// in use) makes the state grow, with new unknowns numbered `c` or more.
proof fn lemma_add_bound_grows(st: SemState, s: int, id: usize, b: BoundView)
    requires
        0 <= s < st.envs.len(),
        forall|k: int, j: int|
            0 <= k < st.envs.len() && 0 <= j < st.envs[k].bounds.len() ==> (#[trigger] st.envs[k].bounds[j]).0
                < id,
        id < st.counter,
    ensures
        grows_from(st, add_bound_at(st, s, id, b), id as int),
        keys_below(add_bound_at(st, s, id, b)),
{
    let e = st.envs[s];
    lemma_find_bound(e.bounds, id, 0);
    assert(find_bound(e.bounds, id) is None) by {
        if let Some(k) = find_bound(e.bounds, id) {
            assert(e.bounds[k].0 < id);
        }
    }
    let e2 = SemScopeView { bounds: add_bounds_spec(e.bounds, id, b), ..e };
    assert(e2.bounds == e.bounds.push((id, b)));
    assert forall|j: int| 0 <= j < e.bounds.len() implies (#[trigger] e2.bounds[j]).0 == e.bounds[j].0 && (
    e.bounds[j].1.resolved ==> e2.bounds[j].1.resolved) by {}
    assert(env_grows(e, e2, id as int));
    assert forall|j: int| 0 <= j < e2.bounds.len() implies (#[trigger] e2.bounds[j]).0 < st.counter by {
        if j < e.bounds.len() {
            assert(e.bounds[j].0 < id);
        }
    }
    assert(keys_below(st));
    lemma_set_env_grows(st, s, e2, id as int);
}

/// Every unknown's number is below `n`.
pub open spec fn keys_lt(st: SemState, n: int) -> bool {
    forall|s: int, j: int|
        0 <= s < st.envs.len() && 0 <= j < st.envs[s].bounds.len() ==> (#[trigger] st.envs[s].bounds[j]).0 < n
}

proof fn lemma_relate_keys(st: SemState, s: int, id: usize, other: usize, n: int)
    requires
        0 <= s < st.envs.len(),
        find_bound(st.envs[s].bounds, id) is Some,
        keys_lt(st, n),
    ensures
        keys_lt(relate(st, s, id, other), n),
{
    lemma_find_bound(st.envs[s].bounds, id, 0);
    let st2 = relate(st, s, id, other);
    assert forall|k: int, j: int| 0 <= k < st2.envs.len() && 0 <= j < st2.envs[k].bounds.len() implies (
    #[trigger] st2.envs[k].bounds[j]).0 < n by {
        if k != s {
            assert(st2.envs[k] == st.envs[k]);
        } else {
            assert(st2.envs[k].bounds[j].0 == st.envs[k].bounds[j].0);
        }
    }
}

proof fn lemma_bump_grows(st: SemState)
    requires
        keys_below(st),
    ensures
        grows(st, SemState { counter: st.counter + 1, ..st }),
        keys_below(SemState { counter: st.counter + 1, ..st }),
{
    let st2 = SemState { counter: st.counter + 1, ..st };
    assert forall|k: int| 0 <= k < st.envs.len() implies #[trigger] env_grows(st.envs[k], st2.envs[k], st.counter) by {
    }
}

proof fn lemma_expr_grows(st: SemState, varname: Seq<char>, scope: int, val: Value, fuel: nat)
    requires
        keys_below(st),
    ensures
        grows(st, analyze_expr_spec(st, varname, scope, val, fuel).0),
        keys_below(analyze_expr_spec(st, varname, scope, val, fuel).0),
    decreases fuel, 0int,
{
    lemma_grows_refl(st);
    if fuel > 0 {
        let f = (fuel - 1) as nat;
        match val {
            Value::Absolute(inner) => {
                lemma_expr_grows(st, varname, scope, *inner, f);
                let (st1, r) = analyze_expr_spec(st, varname, scope, *inner, f);
                if let SemResult::Success((Type::Unbound(id), nv)) = r {
                    lemma_unify_grows(st1, scope, id, Type::I32, f);
                    lemma_grows_trans(st, st1, unify_spec(st1, scope, id, Type::I32, f).0, st.counter, st1.counter);
                }
            },
            Value::Negate(inner) => {
                lemma_expr_grows(st, varname, scope, *inner, f);
                let (st1, r) = analyze_expr_spec(st, varname, scope, *inner, f);
                if let SemResult::Success((Type::Unbound(id), nv)) = r {
                    lemma_unify_grows(st1, scope, id, Type::I32, f);
                    lemma_grows_trans(st, st1, unify_spec(st1, scope, id, Type::I32, f).0, st.counter, st1.counter);
                }
            },
            Value::BinaryExpr { left, op, right, evaluated_ty } => {
                lemma_expr_grows(st, varname, scope, *left, f);
                let (st1, r1) = analyze_expr_spec(st, varname, scope, *left, f);
                lemma_expr_grows(st1, varname, scope, *right, f);
                let (st2, r2) = analyze_expr_spec(st1, varname, scope, *right, f);
                lemma_grows_trans(st, st1, st2, st.counter, st1.counter);
                if let (SemResult::Success((lt, nl)), SemResult::Success((rt, nr))) = (r1, r2) {
                    lemma_promote_grows(st2, varname, scope, lt, rt, f);
                    lemma_grows_trans(
                        st,
                        st2,
                        promote_spec(st2, varname, scope, lt, rt, f).0,
                        st.counter,
                        st2.counter,
                    );
                }
            },
            _ => {},
        }
    }
}

proof fn lemma_promote_grows(st: SemState, varname: Seq<char>, scope: int, l: Type, r: Type, fuel: nat)
    requires
        keys_below(st),
    ensures
        grows(st, promote_spec(st, varname, scope, l, r, fuel).0),
        keys_below(promote_spec(st, varname, scope, l, r, fuel).0),
    decreases fuel, 0int,
{
    lemma_grows_refl(st);
    if fuel > 0 {
        let f = (fuel - 1) as nat;
        match (l, r) {
            (Type::Unbound(id1), Type::Unbound(id2)) => {
                lemma_bound_scope(st, scope, id1);
                if let Some(s1) = bound_scope(st, scope, id1) {
                    lemma_relate_grows(st, s1, id1, id2);
                    lemma_relate_keys(st, s1, id1, id2, st.counter);
                    let st1 = relate(st, s1, id1, id2);
                    if st1.counter < usize::MAX {
                        let new_id = st1.counter as usize;
                        let st2 = SemState { counter: st1.counter + 1, ..st1 };
                        lemma_bump_grows(st1);
                        lemma_grows_trans(st, st1, st2, st.counter, st1.counter);
                        assert(keys_lt(st2, new_id as int));
                        lemma_bound_scope(st2, scope, id2);
                        if let Some(s2) = bound_scope(st2, scope, id2) {
                            lemma_relate_grows(st2, s2, id2, id1);
                            lemma_relate_keys(st2, s2, id2, id1, new_id as int);
                            lemma_relate_keys(st2, s2, id2, id1, st2.counter);
                            let st3 = relate(st2, s2, id2, id1);
                            lemma_relate_keeps_bounds(st2, s2, id2, id1, s2, id2);
                            lemma_relate_grows(st3, s2, id2, new_id);
                            lemma_relate_keys(st3, s2, id2, new_id, new_id as int);
                            let st4 = relate(st3, s2, id2, new_id);
                            lemma_grows_trans(st, st2, st3, st.counter, st2.counter);
                            lemma_grows_trans(st, st3, st4, st.counter, st3.counter);
                            if 0 <= scope < st4.envs.len() {
                                lemma_add_bound_grows(st4, scope, new_id, fresh_bound(varname));
                                lemma_grows_trans(
                                    st,
                                    st4,
                                    add_bound_at(st4, scope, new_id, fresh_bound(varname)),
                                    st.counter,
                                    new_id as int,
                                );
                            }
                        }
                    }
                }
            },
            (Type::I32, Type::Unbound(id)) => {
                lemma_unify_grows(st, scope, id, Type::I32, f);
            },
            (Type::Unbound(id), Type::I32) => {
                lemma_unify_grows(st, scope, id, Type::I32, f);
            },
            _ => {},
        }
    }
}

proof fn lemma_unify_grows(st: SemState, scope: int, id: usize, ty: Type, fuel: nat)
    requires
        keys_below(st),
        ty == Type::I32,
    ensures
        grows(st, unify_spec(st, scope, id, ty, fuel).0),
        keys_below(unify_spec(st, scope, id, ty, fuel).0),
    decreases fuel, 0int,
{
    lemma_grows_refl(st);
    if fuel > 0 {
        let f = (fuel - 1) as nat;
        lemma_bound_scope(st, scope, id);
        if let Some(s) = bound_scope(st, scope, id) {
            let e = st.envs[s];
            lemma_find_bound(e.bounds, id, 0);
            let bi = find_bound(e.bounds, id).unwrap();
            let b = e.bounds[bi].1;
            if !b.resolved {
                let e1 = SemScopeView { bounds: e.bounds.update(bi, (id, BoundView { resolved: true, ..b })), ..e };
                lemma_set_bound_grows(st, s, bi, BoundView { resolved: true, ..b });
                let st1 = set_env(st, s, e1);
                let target = b.target_var;
                lemma_find_var(st1.envs[s].variables, target, 0);
                let (st2, r) = match find_var(st1.envs[s].variables, target) {
                    None => (st1, SemResult::Success(())),
                    Some(vi) => {
                        let var = st1.envs[s].variables[vi];
                        let sta = set_var(st1, s, vi, Variable { ty: Some(ty), ..var });
                        match var.value {
                            None => (sta, SemResult::Success(())),
                            Some(val) => {
                                let (stb, rb) = analyze_expr_spec(sta, target, s, val, f);
                                match rb {
                                    SemResult::Success((_, nv)) => match find_var(stb.envs[s].variables, target) {
                                        Some(vj) => (
                                            set_var(stb, s, vj, Variable { value: Some(nv), ..stb.envs[s].variables[vj] }),
                                            SemResult::Success(()),
                                        ),
                                        None => (stb, SemResult::Stuck),
                                    },
                                    SemResult::Failure(e) => (stb, SemResult::Failure(e)),
                                    SemResult::Stuck => (stb, SemResult::Stuck),
                                }
                            },
                        }
                    },
                };
                if let Some(vi) = find_var(st1.envs[s].variables, target) {
                    let var = st1.envs[s].variables[vi];
                    lemma_set_var_grows(st1, s, vi, Variable { ty: Some(ty), ..var });
                    let sta = set_var(st1, s, vi, Variable { ty: Some(ty), ..var });
                    lemma_grows_trans(st, st1, sta, st.counter, st1.counter);
                    if let Some(val) = var.value {
                        lemma_expr_grows(sta, target, s, val, f);
                        let (stb, rb) = analyze_expr_spec(sta, target, s, val, f);
                        lemma_grows_trans(st, sta, stb, st.counter, sta.counter);
                        if let SemResult::Success((_, nv)) = rb {
                            lemma_find_var(stb.envs[s].variables, target, 0);
                            if let Some(vj) = find_var(stb.envs[s].variables, target) {
                                let w = stb.envs[s].variables[vj];
                                lemma_set_var_grows(stb, s, vj, Variable { value: Some(nv), ..w });
                                lemma_grows_trans(
                                    st,
                                    stb,
                                    set_var(stb, s, vj, Variable { value: Some(nv), ..w }),
                                    st.counter,
                                    stb.counter,
                                );
                            }
                        }
                    }
                }
                assert(grows(st, st2) && keys_below(st2));
                lemma_unify_all_grows(st2, s, b.relations, 0, ty, f);
                lemma_grows_trans(st, st2, unify_all_spec(st2, s, b.relations, 0, ty, f).0, st.counter, st2.counter);
            }
        }
    }
}

proof fn lemma_unify_all_grows(st: SemState, scope: int, rels: Seq<usize>, i: int, ty: Type, fuel: nat)
    requires
        keys_below(st),
        ty == Type::I32,
    ensures
        grows(st, unify_all_spec(st, scope, rels, i, ty, fuel).0),
        keys_below(unify_all_spec(st, scope, rels, i, ty, fuel).0),
    decreases fuel, rels.len() - i,
{
    lemma_grows_refl(st);
    if 0 <= i < rels.len() && fuel > 0 {
        lemma_unify_grows(st, scope, rels[i], ty, (fuel - 1) as nat);
        let (st1, r) = unify_spec(st, scope, rels[i], ty, (fuel - 1) as nat);
        lemma_unify_all_grows(st1, scope, rels, i + 1, ty, fuel);
        lemma_grows_trans(st, st1, unify_all_spec(st1, scope, rels, i + 1, ty, fuel).0, st.counter, st1.counter);
    }
}

proof fn lemma_find_bound_grows(x: Seq<(usize, BoundView)>, y: Seq<(usize, BoundView)>, id: usize, c: int, i: int)
    requires
        x.len() <= y.len(),
        forall|j: int| 0 <= j < x.len() ==> (#[trigger] y[j]).0 == x[j].0,
        forall|j: int| x.len() <= j < y.len() ==> (#[trigger] y[j]).0 >= c,
        id < c,
        0 <= i,
    ensures
        find_bound_from(y, id, i) == find_bound_from(x, id, i),
    decreases y.len() - i,
{
    if i < y.len() {
        if i < x.len() {
            if y[i].0 != id {
                lemma_find_bound_grows(x, y, id, c, i + 1);
            }
        } else {
            assert(y[i].0 >= c);
            lemma_find_bound_grows(x, y, id, c, i + 1);
        }
    }
}

proof fn lemma_find_var_same_names(x: Seq<Variable>, y: Seq<Variable>, name: Seq<char>, i: int)
    requires
        x.len() == y.len(),
        forall|j: int| 0 <= j < x.len() ==> (#[trigger] y[j]).ident == x[j].ident,
        0 <= i,
    ensures
        find_var_from(y, name, i) == find_var_from(x, name, i),
    decreases y.len() - i,
{
    if i < y.len() {
        assert(y[i].ident == x[i].ident);
        lemma_find_var_same_names(x, y, name, i + 1);
    }
}

/// Growing keeps where each unknown numbered below `c` is found.
proof fn lemma_bound_scope_grows(a: SemState, b: SemState, c: int, scope: int, id: usize)
    requires
        grows_from(a, b, c),
        id < c,
    ensures
        bound_scope(b, scope, id) == bound_scope(a, scope, id),
        forall|s: int|
            0 <= s < a.envs.len() ==> #[trigger] find_bound(b.envs[s].bounds, id) == find_bound(a.envs[s].bounds, id),
    decreases scope,
{
    assert forall|s: int| 0 <= s < a.envs.len() implies #[trigger] find_bound(b.envs[s].bounds, id) == find_bound(
        a.envs[s].bounds,
        id,
    ) by {
        assert(env_grows(a.envs[s], b.envs[s], c));
        lemma_find_bound_grows(a.envs[s].bounds, b.envs[s].bounds, id, c, 0);
    }
    if 0 <= scope < a.envs.len() && scope != 0 {
        lemma_bound_scope_grows(a, b, c, scope - 1, id);
    }
}

/// The scope `s` holds the unknown `id`, and it is bound.
pub open spec fn bound_at(st: SemState, s: int, id: usize) -> bool {
    &&& 0 <= s < st.envs.len()
    &&& find_bound(st.envs[s].bounds, id) matches Some(j) && st.envs[s].bounds[j].1.resolved
}

/// The unknown `id`, looked up from `scope` down, is found and bound.
pub open spec fn found_bound(st: SemState, scope: int, id: usize) -> bool {
    &&& bound_scope(st, scope, id) is Some
    &&& bound_at(st, bound_scope(st, scope, id).unwrap(), id)
}

proof fn lemma_found_bound_grows(a: SemState, b: SemState, scope: int, id: usize)
    requires
        grows(a, b),
        keys_below(a),
        found_bound(a, scope, id),
    ensures
        found_bound(b, scope, id),
{
    lemma_bound_scope(a, scope, id);
    let s = bound_scope(a, scope, id).unwrap();
    lemma_find_bound(a.envs[s].bounds, id, 0);
    let j = find_bound(a.envs[s].bounds, id).unwrap();
    assert(a.envs[s].bounds[j].0 < a.counter);
    lemma_bound_scope_grows(a, b, a.counter, scope, id);
    assert(env_grows(a.envs[s], b.envs[s], a.counter));
}

/// Binding the unknowns `rels[i..]` that succeeds leaves each of them found
/// and bound.
proof fn lemma_unify_all_bound(st: SemState, scope: int, rels: Seq<usize>, i: int, fuel: nat)
    requires
        keys_below(st),
        unify_all_spec(st, scope, rels, i, Type::I32, fuel).1 is Success,
        0 <= i,
    ensures
        forall|k: int|
            i <= k < rels.len() ==> found_bound(unify_all_spec(st, scope, rels, i, Type::I32, fuel).0, scope, #[trigger] rels[k]),
    decreases fuel, rels.len() - i,
{
    if i < rels.len() {
        let f = (fuel - 1) as nat;
        let (st1, r) = unify_spec(st, scope, rels[i], Type::I32, f);
        law_unify(st, scope, rels[i], f);
        lemma_unify_grows(st, scope, rels[i], Type::I32, f);
        lemma_unify_all_bound(st1, scope, rels, i + 1, fuel);
        let fin = unify_all_spec(st1, scope, rels, i + 1, Type::I32, fuel).0;
        lemma_unify_all_grows(st1, scope, rels, i + 1, Type::I32, fuel);
        lemma_found_bound_grows(st1, fin, scope, rels[i]);
    }
}

/// Binding an unknown to `i32`, where it succeeds: the unknown, found from
/// `scope` down in the scope `s` that holds it, is bound afterwards; where it
/// was not bound before, the variable it was made for (if the scope `s` holds
/// it) has type `i32`, and every unknown it is related to is found and bound
/// as well (each of them the same way, where it was not bound before).
pub proof fn law_unify(st: SemState, scope: int, id: usize, fuel: nat)
    requires
        keys_below(st),
        unify_spec(st, scope, id, Type::I32, fuel).1 is Success,
    ensures
        bound_scope(st, scope, id) is Some,
        ({
            let r = unify_spec(st, scope, id, Type::I32, fuel).0;
            let s = bound_scope(st, scope, id).unwrap();
            let b = st.envs[s].bounds[find_bound(st.envs[s].bounds, id).unwrap()].1;
            &&& bound_scope(r, scope, id) == Some(s)
            &&& found_bound(r, scope, id)
            &&& !b.resolved ==> (find_var(r.envs[s].variables, b.target_var) matches Some(i)
                ==> r.envs[s].variables[i].ty == Some(Type::I32))
            &&& !b.resolved ==> forall|k: int| 0 <= k < b.relations.len() ==> found_bound(r, s, #[trigger] b.relations[k])
        }),
    decreases fuel, 1int,
{
    let f = (fuel - 1) as nat;
    lemma_bound_scope(st, scope, id);
    let s = bound_scope(st, scope, id).unwrap();
    let e = st.envs[s];
    lemma_find_bound(e.bounds, id, 0);
    let bi = find_bound(e.bounds, id).unwrap();
    let b = e.bounds[bi].1;
    assert(e.bounds[bi].0 < st.counter);
    let r = unify_spec(st, scope, id, Type::I32, fuel).0;
    if b.resolved {
        assert(r == st);
    } else {
        let e1 = SemScopeView { bounds: e.bounds.update(bi, (id, BoundView { resolved: true, ..b })), ..e };
        lemma_set_bound_grows(st, s, bi, BoundView { resolved: true, ..b });
        let st1 = set_env(st, s, e1);
        assert(bound_at(st1, s, id)) by {
            lemma_find_bound_grows(e.bounds, e1.bounds, id, st.counter, 0);
        }
        lemma_bound_scope_grows(st, st1, st.counter, scope, id);
        assert(found_bound(st1, scope, id));
        let target = b.target_var;
        lemma_find_var(st1.envs[s].variables, target, 0);
        let (st2, rr) = match find_var(st1.envs[s].variables, target) {
            None => (st1, SemResult::Success(())),
            Some(vi) => {
                let var = st1.envs[s].variables[vi];
                let sta = set_var(st1, s, vi, Variable { ty: Some(Type::I32), ..var });
                match var.value {
                    None => (sta, SemResult::Success(())),
                    Some(val) => {
                        let (stb, rb) = analyze_expr_spec(sta, target, s, val, f);
                        match rb {
                            SemResult::Success((_, nv)) => match find_var(stb.envs[s].variables, target) {
                                Some(vj) => (
                                    set_var(stb, s, vj, Variable { value: Some(nv), ..stb.envs[s].variables[vj] }),
                                    SemResult::Success(()),
                                ),
                                None => (stb, SemResult::Stuck),
                            },
                            SemResult::Failure(e) => (stb, SemResult::Failure(e)),
                            SemResult::Stuck => (stb, SemResult::Stuck),
                        }
                    },
                }
            },
        };
        assert(rr is Success);
        // the variable gets its type, and keeps it
        if let Some(vi) = find_var(st1.envs[s].variables, target) {
            let var = st1.envs[s].variables[vi];
            lemma_set_var_grows(st1, s, vi, Variable { ty: Some(Type::I32), ..var });
            let sta = set_var(st1, s, vi, Variable { ty: Some(Type::I32), ..var });
            assert(sta.envs[s].variables[vi].ty == Some(Type::I32));
            if let Some(val) = var.value {
                lemma_expr_grows(sta, target, s, val, f);
                let (stb, rb) = analyze_expr_spec(sta, target, s, val, f);
                lemma_find_var(stb.envs[s].variables, target, 0);
                let vj = find_var(stb.envs[s].variables, target).unwrap();
                let w = stb.envs[s].variables[vj];
                lemma_set_var_grows(stb, s, vj, Variable { value: Some(rb->Success_0.1), ..w });
                lemma_grows_trans(sta, stb, st2, sta.counter, stb.counter);
            } else {
                lemma_grows_refl(sta);
            }
            lemma_grows_trans(st1, sta, st2, st1.counter, sta.counter);
            assert(grows(sta, st2));
            assert(env_grows(sta.envs[s], st2.envs[s], sta.counter));
            assert(st2.envs[s].variables[vi].ty == Some(Type::I32));
        } else {
            lemma_grows_refl(st1);
        }
        assert(grows(st1, st2) && keys_below(st2));
        lemma_found_bound_grows(st1, st2, scope, id);
        // the related unknowns
        lemma_unify_all_bound(st2, s, b.relations, 0, f);
        lemma_unify_all_grows(st2, s, b.relations, 0, Type::I32, f);
        assert(r == unify_all_spec(st2, s, b.relations, 0, Type::I32, f).0);
        lemma_found_bound_grows(st2, r, scope, id);
        lemma_grows_trans(st1, st2, r, st1.counter, st2.counter);
        lemma_grows_trans(st, st1, r, st.counter, st1.counter);
        lemma_bound_scope_grows(st, r, st.counter, scope, id);
        // the variable's index is found again at the end
        assert(env_grows(st1.envs[s], r.envs[s], st1.counter));
        lemma_find_var_same_names(st1.envs[s].variables, r.envs[s].variables, target, 0);
        if let Some(vi) = find_var(st1.envs[s].variables, target) {
            let sta = set_var(st1, s, vi, Variable { ty: Some(Type::I32), ..st1.envs[s].variables[vi] });
            lemma_set_var_grows(st1, s, vi, Variable { ty: Some(Type::I32), ..st1.envs[s].variables[vi] });
            assert(grows(sta, st2));
            lemma_grows_trans(sta, st2, r, sta.counter, st2.counter);
            assert(env_grows(sta.envs[s], r.envs[s], sta.counter));
        }
    }
}

proof fn lemma_stmt_keys(st: SemState, scope: int, stmt: Statement, fuel: nat)
    requires
        keys_below(st),
    ensures
        keys_below(analyze_stmt_spec(st, scope, stmt, fuel).0),
{
    if fuel > 0 && 0 <= scope < st.envs.len() {
        let f = (fuel - 1) as nat;
        match stmt {
            Statement::Variable(v) => {
                let name = v.ident.lexeme@;
                if find_var(st.envs[scope].variables, name) is None {
                    if v.ty is None {
                        if let Some(val) = v.value {
                            lemma_expr_grows(st, name, scope, val, f);
                        } else if st.counter < usize::MAX {
                            let st0 = SemState { counter: st.counter + 1, ..st };
                            assert(keys_below(st0));
                            lemma_add_bound_grows(st0, scope, st.counter as usize, fresh_bound(name));
                        }
                    }
                    let (st1, r): (SemState, SemResult<(Type, Option<Value>)>) = match v.ty {
                        Some(t) => (st, SemResult::Success((t, v.value))),
                        None => match v.value {
                            Some(val) => {
                                let (sa, ra) = analyze_expr_spec(st, name, scope, val, f);
                                match ra {
                                    SemResult::Success((t, nv)) => (sa, SemResult::Success((t, Some(nv)))),
                                    SemResult::Failure(e) => (sa, SemResult::Failure(e)),
                                    SemResult::Stuck => (sa, SemResult::Stuck),
                                }
                            },
                            None => if st.counter >= usize::MAX {
                                (st, SemResult::Stuck)
                            } else {
                                let id = st.counter as usize;
                                (
                                    add_bound_at(SemState { counter: st.counter + 1, ..st }, scope, id, fresh_bound(name)),
                                    SemResult::Success((Type::Unbound(id), None)),
                                )
                            },
                        },
                    };
                    if let SemResult::Success((t, value)) = r {
                        let nv = Variable { ident: v.ident, ty: Some(t), value, desc: v.desc };
                        let e2 = SemScopeView {
                            variables: add_variable_spec(st1.envs[scope].variables, nv),
                            ..st1.envs[scope]
                        };
                        let st2 = set_env(st1, scope, e2);
                        assert forall|k: int, j: int| 0 <= k < st2.envs.len() && 0 <= j < st2.envs[k].bounds.len()
                            implies (#[trigger] st2.envs[k].bounds[j]).0 < st2.counter by {
                            assert(st2.envs[k].bounds == st1.envs[k].bounds);
                        }
                    }
                }
            },
        }
    }
}

proof fn lemma_stmts_keys(st: SemState, scope: int, stmts: Seq<Statement>, i: int, fuel: nat)
    requires
        keys_below(st),
    ensures
        keys_below(analyze_stmts_spec(st, scope, stmts, i, fuel).0),
    decreases stmts.len() - i,
{
    if 0 <= i < stmts.len() && fuel > 0 {
        lemma_stmt_keys(st, scope, stmts[i], (fuel - 1) as nat);
        let (st1, r) = analyze_stmt_spec(st, scope, stmts[i], (fuel - 1) as nat);
        lemma_stmts_keys(st1, scope, stmts, i + 1, fuel);
    }
}

proof fn lemma_scope_keys(st: SemState, id: int, arena: Seq<ScopeView>, fuel: nat)
    requires
        keys_below(st),
    ensures
        keys_below(analyze_scope_spec(st, id, arena, fuel).0),
    decreases fuel, 0int,
{
    if fuel > 0 && 0 <= id < arena.len() {
        let f = (fuel - 1) as nat;
        lemma_stmts_keys(st, id, arena[id].statements, 0, f);
        let (st1, r) = analyze_stmts_spec(st, id, arena[id].statements, 0, f);
        lemma_children_keys(st1, arena[id].children, 0, arena, f);
    }
}

proof fn lemma_children_keys(st: SemState, children: Seq<usize>, i: int, arena: Seq<ScopeView>, fuel: nat)
    requires
        keys_below(st),
    ensures
        keys_below(analyze_children_spec(st, children, i, arena, fuel).0),
    decreases fuel, children.len() - i,
{
    if 0 <= i < children.len() && fuel > 0 {
        lemma_scope_keys(st, children[i] as int, arena, (fuel - 1) as nat);
        let (st1, r) = analyze_scope_spec(st, children[i] as int, arena, (fuel - 1) as nat);
        lemma_children_keys(st1, children, i + 1, arena, fuel);
    }
}

/// Checking an arena keeps every unknown numbered below the count of
/// unknowns made, so that `law_unify` speaks of every state the checker
/// reaches from a new one.
pub proof fn law_analysis_keeps_numbers(st: SemState, arena: Seq<ScopeView>)
    requires
        keys_below(st),
    ensures
        keys_below(analysis(st, arena).0),
{
    lemma_scope_keys(st, 0, arena, ANALYSIS_DEPTH as nat);
}

/// The unknown `id`, found from `scope` down, was not bound in `st`; the
/// scope that holds it and the variable it stands for.
pub open spec fn unbound_in(st: SemState, scope: int, id: usize) -> bool {
    &&& bound_scope(st, scope, id) is Some
    &&& !st.envs[bound_scope(st, scope, id).unwrap()].bounds[find_bound(
        st.envs[bound_scope(st, scope, id).unwrap()].bounds,
        id,
    ).unwrap()].1.resolved
}

/// The variable the unknown `id` (found from `scope` down in `before`) stands
/// for has type `i32` in `after`, where the scope that holds the unknown
/// holds that variable.
pub open spec fn var_of_unknown_is_i32(before: SemState, after: SemState, scope: int, id: usize) -> bool {
    let s = bound_scope(before, scope, id).unwrap();
    let target = before.envs[s].bounds[find_bound(before.envs[s].bounds, id).unwrap()].1.target_var;
    find_var(after.envs[s].variables, target) matches Some(i) ==> after.envs[s].variables[i].ty == Some(Type::I32)
}

/// A sign in front of an operand of unknown type binds that type to `i32`:
/// where checking `+x` or `-x` succeeds and `x` has the unknown type `id`, the
/// unknown is bound afterwards, and where it was not bound before, the
/// variable it stands for has type `i32`.
pub proof fn law_sign_binds(
    st: SemState,
    varname: Seq<char>,
    scope: int,
    inner: Value,
    absolute: bool,
    fuel: nat,
    id: usize,
)
    requires
        keys_below(st),
        fuel > 0,
        analyze_expr_spec(st, varname, scope, inner, (fuel - 1) as nat).1 matches SemResult::Success((t, _))
            && t == Type::Unbound(id),
        analyze_expr_spec(
            st,
            varname,
            scope,
            if absolute {
                Value::Absolute(Box::new(inner))
            } else {
                Value::Negate(Box::new(inner))
            },
            fuel,
        ).1 is Success,
    ensures
        ({
            let st1 = analyze_expr_spec(st, varname, scope, inner, (fuel - 1) as nat).0;
            let r = analyze_expr_spec(
                st,
                varname,
                scope,
                if absolute {
                    Value::Absolute(Box::new(inner))
                } else {
                    Value::Negate(Box::new(inner))
                },
                fuel,
            ).0;
            &&& found_bound(r, scope, id)
            &&& unbound_in(st1, scope, id) ==> var_of_unknown_is_i32(st1, r, scope, id)
        }),
{
    let f = (fuel - 1) as nat;
    lemma_expr_grows(st, varname, scope, inner, f);
    let st1 = analyze_expr_spec(st, varname, scope, inner, f).0;
    law_unify(st1, scope, id, f);
}

/// Promotion is the same whichever side the unknown is on: an `i32` with an
/// unknown and an unknown with an `i32` give the same state and type.
pub proof fn law_promote_symmetric(st: SemState, varname: Seq<char>, scope: int, id: usize, fuel: nat)
    ensures
        promote_spec(st, varname, scope, Type::I32, Type::Unbound(id), fuel) == promote_spec(
            st,
            varname,
            scope,
            Type::Unbound(id),
            Type::I32,
            fuel,
        ),
{
}

/// An unknown that meets an `i32` in arithmetic is bound to `i32`: where
/// promoting an `i32` and the unknown `id` (either way round) succeeds, the
/// type is `i32`, the unknown is bound afterwards, and where it was not bound
/// before, the variable it stands for has type `i32`.
pub proof fn law_promote_binds(st: SemState, varname: Seq<char>, scope: int, id: usize, fuel: nat)
    requires
        keys_below(st),
        promote_spec(st, varname, scope, Type::I32, Type::Unbound(id), fuel).1 is Success,
    ensures
        ({
            let (r, t) = promote_spec(st, varname, scope, Type::I32, Type::Unbound(id), fuel);
            &&& t == SemResult::Success(Type::I32)
            &&& found_bound(r, scope, id)
            &&& unbound_in(st, scope, id) ==> var_of_unknown_is_i32(st, r, scope, id)
        }),
{
    law_unify(st, scope, id, (fuel - 1) as nat);
}

} // verus!

