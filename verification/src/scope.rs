use vstd::prelude::*;

use crate::ast::Statement;

verus! {

/// The position of a scope in the arena.
pub type ScopeId = usize;

#[derive(Debug, Clone, Copy, PartialEq, Eq, Structural)]
pub enum ScopeType {
    /// A block, or the file itself.
    Local,
}

/// A block of statements.
#[derive(Debug)]
pub struct Scope {
    parent: Option<ScopeId>,
    ty: ScopeType,
    children: Vec<ScopeId>,
    statements: Vec<Statement>,
}

/// The content of a scope.
pub struct ScopeView {
    pub parent: Option<ScopeId>,
    pub ty: ScopeType,
    pub children: Seq<ScopeId>,
    pub statements: Seq<Statement>,
}

/// A fresh scope with the given parent and kind.
pub open spec fn fresh_scope(parent: Option<ScopeId>, ty: ScopeType) -> ScopeView {
    ScopeView { parent, ty, children: Seq::empty(), statements: Seq::empty() }
}

impl View for Scope {
    type V = ScopeView;

    closed spec fn view(&self) -> ScopeView {
        ScopeView {
            parent: self.parent,
            ty: self.ty,
            children: self.children@,
            statements: self.statements@,
        }
    }
}

impl Scope {
    pub fn new(ty: ScopeType) -> (r: Self)
        ensures
            r@ == fresh_scope(None, ty),
    {
        Scope { parent: None, ty, children: Vec::new(), statements: Vec::new() }
    }

    pub fn with_parent(parent: Option<ScopeId>, ty: ScopeType) -> (r: Self)
        ensures
            r@ == fresh_scope(parent, ty),
    {
        Scope { parent, ty, children: Vec::new(), statements: Vec::new() }
    }

    pub fn get_parent(&self) -> (r: Option<ScopeId>)
        ensures
            r == self@.parent,
    {
        self.parent
    }

    pub fn get_scope_type(&self) -> (r: ScopeType)
        ensures
            r == self@.ty,
    {
        self.ty
    }

    pub fn add_child_scope(&mut self, scope_id: ScopeId)
        ensures
            final(self)@ == (ScopeView { children: old(self)@.children.push(scope_id), ..old(self)@ }),
    {
        self.children.push(scope_id);
    }

    pub fn get_children_scopes(&self) -> (r: &Vec<ScopeId>)
        ensures
            r@ == self@.children,
    {
        &self.children
    }

    pub fn add_statement(&mut self, stmt: Statement)
        ensures
            final(self)@ == (ScopeView { statements: old(self)@.statements.push(stmt), ..old(self)@ }),
    {
        self.statements.push(stmt);
    }

    pub fn get_statements(&self) -> (r: &Vec<Statement>)
        ensures
            r@ == self@.statements,
    {
        &self.statements
    }
}

/// `arena` after `scope` is added: it goes at the end, and its parent, if
/// any, gets it as its last child.
pub open spec fn arena_add_scope(arena: Seq<ScopeView>, scope: ScopeView) -> Seq<ScopeView> {
    let id = arena.len();
    let a = arena.push(scope);
    match scope.parent {
        Some(p) => a.update(p as int, ScopeView { children: a[p as int].children.push(id as usize), ..a[p as int] }),
        None => a,
    }
}

/// `arena` after `stmt` is added to the scope `id`.
pub open spec fn arena_add_statement(arena: Seq<ScopeView>, id: int, stmt: Statement) -> Seq<ScopeView> {
    arena.update(id, ScopeView { statements: arena[id].statements.push(stmt), ..arena[id] })
}

/// All the scopes of a file; the file's own scope comes first.
#[derive(Debug)]
pub struct ScopeArena {
    scopes: Vec<Scope>,
}

impl View for ScopeArena {
    type V = Seq<ScopeView>;

    closed spec fn view(&self) -> Seq<ScopeView> {
        self.scopes@.map_values(|s: Scope| s@)
    }
}

impl ScopeArena {
    pub fn new() -> (r: Self)
        ensures
            r@ == Seq::<ScopeView>::empty(),
    {
        ScopeArena { scopes: Vec::new() }
    }

    /// Adds `scope` at the end; its parent, which must be in the arena already
    /// or be the new scope itself, gets it as a child.
    pub fn add_scope(&mut self, scope: Scope)
        requires
            scope@.parent matches Some(p) ==> p <= old(self)@.len(),
        ensures
            final(self)@ == arena_add_scope(old(self)@, scope@),
    {
        let id = self.scopes.len();
        let parent = scope.get_parent();
        let ghost sv = scope@;
        self.scopes.push(scope);
        let ghost pushed = self.scopes@;
        assert(self@ =~= old(self)@.push(sv));
        if let Some(parent_id) = parent {
            let mut p = self.scopes.remove(parent_id);
            p.add_child_scope(id);
            let ghost pv = p@;
            self.scopes.insert(parent_id, p);
            assert(self@ =~= arena_add_scope(old(self)@, sv)) by {
                assert(self.scopes@ =~= pushed.update(parent_id as int, p));
            }
        }
    }

    /// Adds `stmt` to the scope `id`, which must be in the arena.
    pub fn add_statement_to(&mut self, id: ScopeId, stmt: Statement)
        requires
            id < old(self)@.len(),
        ensures
            final(self)@ == arena_add_statement(old(self)@, id as int, stmt),
            final(self)@.len() == old(self)@.len(),
            final(self)@[id as int].statements == old(self)@[id as int].statements.push(stmt),
            final(self)@[id as int].parent == old(self)@[id as int].parent,
            final(self)@[id as int].children == old(self)@[id as int].children,
            forall|k: int| 0 <= k < old(self)@.len() && k != id ==> #[trigger] final(self)@[k] == old(self)@[k],
    {
        let mut s = self.scopes.remove(id);
        s.add_statement(stmt);
        self.scopes.insert(id, s);
        assert(self.scopes@ =~= old(self).scopes@.update(id as int, s));
        assert(self@ =~= arena_add_statement(old(self)@, id as int, stmt));
    }

    pub fn get_scope(&self, id: ScopeId) -> (r: Option<&Scope>)
        ensures
            match r {
                Some(s) => id < self@.len() && s@ == self@[id as int],
                None => id >= self@.len(),
            },
    {
        if id < self.scopes.len() {
            Some(&self.scopes[id])
        } else {
            None
        }
    }

    pub fn get_file_scope(&self) -> (r: Option<&Scope>)
        ensures
            match r {
                Some(s) => self@.len() > 0 && s@ == self@[0],
                None => self@.len() == 0,
            },
    {
        self.get_scope(0)
    }

    pub fn size(&self) -> (r: usize)
        ensures
            r == self@.len(),
    {
        self.scopes.len()
    }
}

} // verus!

verus! {

/// A change to a scope arena: a scope added, or a statement added to the
/// scope of a number.
pub enum ArenaOp {
    AddScope(ScopeView),
    AddStatement(int, Statement),
}

/// The arena that a run of changes builds from an empty one.
pub open spec fn apply_ops(ops: Seq<ArenaOp>) -> Seq<ScopeView>
    decreases ops.len(),
{
    if ops.len() == 0 {
        Seq::empty()
    } else {
        let a = apply_ops(ops.drop_last());
        match ops.last() {
            ArenaOp::AddScope(s) => arena_add_scope(a, s),
            ArenaOp::AddStatement(id, st) => arena_add_statement(a, id, st),
        }
    }
}

/// Whether each change of the run is one `add_scope` or `add_statement_to`
/// accepts: a parent in the arena or the new scope itself, a statement to a
/// scope in the arena.
pub open spec fn ops_valid(ops: Seq<ArenaOp>) -> bool
    decreases ops.len(),
{
    if ops.len() == 0 {
        true
    } else {
        let n = apply_ops(ops.drop_last()).len();
        &&& ops_valid(ops.drop_last())
        &&& match ops.last() {
            ArenaOp::AddScope(s) => s.parent matches Some(p) ==> p <= n,
            ArenaOp::AddStatement(id, st) => 0 <= id < n,
        }
    }
}

/// The scopes the run adds, in order.
pub open spec fn scopes_added(ops: Seq<ArenaOp>) -> Seq<ScopeView>
    decreases ops.len(),
{
    if ops.len() == 0 {
        Seq::empty()
    } else {
        match ops.last() {
            ArenaOp::AddScope(s) => scopes_added(ops.drop_last()).push(s),
            ArenaOp::AddStatement(_, _) => scopes_added(ops.drop_last()),
        }
    }
}

/// The statements the run adds to the scope `id`, in order.
pub open spec fn statements_added(ops: Seq<ArenaOp>, id: int) -> Seq<Statement>
    decreases ops.len(),
{
    if ops.len() == 0 {
        Seq::empty()
    } else {
        match ops.last() {
            ArenaOp::AddStatement(i, st) => if i == id {
                statements_added(ops.drop_last(), id).push(st)
            } else {
                statements_added(ops.drop_last(), id)
            },
            ArenaOp::AddScope(_) => statements_added(ops.drop_last(), id),
        }
    }
}

/// The scopes the run adds under the scope `id`, by number, in order.
pub open spec fn children_added(ops: Seq<ArenaOp>, id: int) -> Seq<ScopeId>
    decreases ops.len(),
{
    if ops.len() == 0 {
        Seq::empty()
    } else {
        let pre = ops.drop_last();
        match ops.last() {
            ArenaOp::AddScope(s) => if s.parent matches Some(p) && p as int == id {
                children_added(pre, id).push(apply_ops(pre).len() as usize)
            } else {
                children_added(pre, id)
            },
            ArenaOp::AddStatement(_, _) => children_added(pre, id),
        }
    }
}

/// An arena built by `new` and then a run of `add_scope` and
/// `add_statement_to` holds one scope per `add_scope`: the scope numbered
/// `id` is the one of the `(id + 1)`-th `add_scope`, with the same parent and
/// kind, with its own statements followed by those added to it since, and
/// with its own children followed by the scopes added since under it, in
/// order.
pub proof fn law_arena_ops(ops: Seq<ArenaOp>)
    requires
        ops_valid(ops),
    ensures
        apply_ops(ops).len() == scopes_added(ops).len(),
        forall|id: int|
            0 <= id < apply_ops(ops).len() ==> {
                &&& (#[trigger] apply_ops(ops)[id]).parent == scopes_added(ops)[id].parent
                &&& apply_ops(ops)[id].ty == scopes_added(ops)[id].ty
                &&& apply_ops(ops)[id].statements == scopes_added(ops)[id].statements + statements_added(
                    ops,
                    id,
                )
                &&& apply_ops(ops)[id].children == scopes_added(ops)[id].children + children_added(ops, id)
            },
        forall|id: int| id >= apply_ops(ops).len() ==> #[trigger] statements_added(ops, id) == Seq::<Statement>::empty(),
        forall|id: int| id >= apply_ops(ops).len() ==> #[trigger] children_added(ops, id) == Seq::<ScopeId>::empty(),
    decreases ops.len(),
{
    if ops.len() > 0 {
        let pre = ops.drop_last();
        law_arena_ops(pre);
        let a = apply_ops(pre);
        let n = a.len() as int;
        match ops.last() {
            ArenaOp::AddScope(s) => {
                let b = arena_add_scope(a, s);
                assert(b.len() == n + 1);
                assert forall|id: int| 0 <= id < b.len() implies {
                    &&& (#[trigger] b[id]).parent == scopes_added(ops)[id].parent
                    &&& b[id].ty == scopes_added(ops)[id].ty
                    &&& b[id].statements == scopes_added(ops)[id].statements + statements_added(ops, id)
                    &&& b[id].children == scopes_added(ops)[id].children + children_added(ops, id)
                } by {
                    assert(statements_added(ops, id) == statements_added(pre, id));
                    let under = s.parent matches Some(p) && p as int == id;
                    if id < n {
                        assert(scopes_added(ops)[id] == scopes_added(pre)[id]);
                        assert(a[id] == apply_ops(pre)[id]);
                        if under {
                            assert(children_added(ops, id) == children_added(pre, id).push(n as usize));
                            assert(scopes_added(pre)[id].children + children_added(pre, id).push(n as usize)
                                =~= (scopes_added(pre)[id].children + children_added(pre, id)).push(n as usize));
                        } else {
                            assert(children_added(ops, id) == children_added(pre, id));
                        }
                    } else {
                        assert(scopes_added(ops)[id] == s);
                        assert(statements_added(pre, n) == Seq::<Statement>::empty());
                        assert(children_added(pre, n) == Seq::<ScopeId>::empty());
                        assert(s.statements + Seq::<Statement>::empty() =~= s.statements);
                        if under {
                            assert(children_added(ops, id) =~= seq![n as usize]);
                            assert(b[id].children == s.children.push(n as usize));
                            assert(s.children.push(n as usize) =~= s.children + seq![n as usize]);
                        } else {
                            assert(children_added(ops, id) == Seq::<ScopeId>::empty());
                            assert(s.children + Seq::<ScopeId>::empty() =~= s.children);
                        }
                    }
                }
                assert forall|id: int| id >= b.len() implies #[trigger] statements_added(ops, id)
                    == Seq::<Statement>::empty() by {
                    assert(statements_added(ops, id) == statements_added(pre, id));
                }
                assert forall|id: int| id >= b.len() implies #[trigger] children_added(ops, id)
                    == Seq::<ScopeId>::empty() by {
                    if let Some(p) = s.parent {
                        assert(p <= n);
                        assert(p as int != id);
                    }
                    assert(children_added(ops, id) == children_added(pre, id));
                }
            },
            ArenaOp::AddStatement(i, st) => {
                let b = arena_add_statement(a, i, st);
                assert(b.len() == n);
                assert(scopes_added(ops) == scopes_added(pre));
                assert forall|id: int| 0 <= id < b.len() implies {
                    &&& (#[trigger] b[id]).parent == scopes_added(ops)[id].parent
                    &&& b[id].ty == scopes_added(ops)[id].ty
                    &&& b[id].statements == scopes_added(ops)[id].statements + statements_added(ops, id)
                    &&& b[id].children == scopes_added(ops)[id].children + children_added(ops, id)
                } by {
                    assert(a[id] == apply_ops(pre)[id]);
                    assert(children_added(ops, id) == children_added(pre, id));
                    if id == i {
                        assert(statements_added(ops, id) == statements_added(pre, id).push(st));
                        assert(scopes_added(pre)[id].statements + statements_added(pre, id).push(st)
                            =~= (scopes_added(pre)[id].statements + statements_added(pre, id)).push(st));
                    } else {
                        assert(statements_added(ops, id) == statements_added(pre, id));
                    }
                }
                assert forall|id: int| id >= b.len() implies #[trigger] statements_added(ops, id)
                    == Seq::<Statement>::empty() by {
                    assert(statements_added(ops, id) == statements_added(pre, id));
                }
                assert forall|id: int| id >= b.len() implies #[trigger] children_added(ops, id)
                    == Seq::<ScopeId>::empty() by {
                    assert(children_added(ops, id) == children_added(pre, id));
                }
            },
        }
    }
}

} // verus!
