use vstd::prelude::*;

use crate::ast::Variable;
use crate::scope::ScopeId;

verus! {

/// An unknown type: the variable it was made for, the unknowns it must
/// equal, and whether it has been bound to a type.
#[derive(Debug, PartialEq)]
pub struct SemanticBound {
    pub target_var: String,
    pub relations: Vec<usize>,
    pub resolved: bool,
}

/// The content of a `SemanticBound`.
pub struct BoundView {
    pub target_var: Seq<char>,
    pub relations: Seq<usize>,
    pub resolved: bool,
}

impl View for SemanticBound {
    type V = BoundView;

    open spec fn view(&self) -> BoundView {
        BoundView { target_var: self.target_var@, relations: self.relations@, resolved: self.resolved }
    }
}

/// `rels` with `id` added at the end, unless it is there already.
pub open spec fn add_relation_spec(rels: Seq<usize>, id: usize) -> Seq<usize> {
    if rels.contains(id) {
        rels
    } else {
        rels.push(id)
    }
}

impl Default for SemanticBound {
    fn default() -> (r: Self)
        ensures
            r@ == (BoundView { target_var: Seq::empty(), relations: Seq::empty(), resolved: false }),
    {
        SemanticBound { target_var: String::new(), relations: Vec::new(), resolved: false }
    }
}

impl SemanticBound {
    /// A fresh, unresolved unknown for `target_var`, with no relations.
    pub fn new(target_var: String) -> (r: Self)
        ensures
            r@ == (BoundView { target_var: target_var@, relations: Seq::empty(), resolved: false }),
    {
        SemanticBound { target_var, relations: Vec::new(), resolved: false }
    }

    /// Records that this unknown must equal the unknown `id`.
    pub fn add_relation(&mut self, id: usize)
        ensures
            final(self)@ == (BoundView { relations: add_relation_spec(old(self)@.relations, id), ..old(self)@ }),
    {
        let mut i: usize = 0;
        while i < self.relations.len()
            invariant
                i <= self.relations.len(),
                self@ == old(self)@,
                forall|k: int| 0 <= k < i ==> self.relations@[k] != id,
            decreases self.relations.len() - i,
        {
            if self.relations[i] == id {
                assert(self.relations@.contains(id));
                return;
            }
            i = i + 1;
        }
        self.relations.push(id);
    }
}

/// The first variable of `vs`, from `i` on, whose name is `name`.
pub open spec fn find_var_from(vs: Seq<Variable>, name: Seq<char>, i: int) -> Option<int>
    decreases vs.len() - i,
{
    if i < 0 || i >= vs.len() {
        None
    } else if vs[i].ident.lexeme@ == name {
        Some(i)
    } else {
        find_var_from(vs, name, i + 1)
    }
}

/// The first variable of `vs` whose name is `name`.
pub open spec fn find_var(vs: Seq<Variable>, name: Seq<char>) -> Option<int> {
    find_var_from(vs, name, 0)
}

/// The first unknown of `bs`, from `i` on, whose number is `id`.
pub open spec fn find_bound_from(bs: Seq<(usize, BoundView)>, id: usize, i: int) -> Option<int>
    decreases bs.len() - i,
{
    if i < 0 || i >= bs.len() {
        None
    } else if bs[i].0 == id {
        Some(i)
    } else {
        find_bound_from(bs, id, i + 1)
    }
}

/// The first unknown of `bs` whose number is `id`.
pub open spec fn find_bound(bs: Seq<(usize, BoundView)>, id: usize) -> Option<int> {
    find_bound_from(bs, id, 0)
}

pub proof fn lemma_find_bound(bs: Seq<(usize, BoundView)>, id: usize, i: int)
    requires
        0 <= i,
    ensures
        find_bound_from(bs, id, i) matches Some(k) ==> i <= k < bs.len() && bs[k].0 == id,
        find_bound_from(bs, id, i) is None ==> forall|k: int| i <= k < bs.len() ==> bs[k].0 != id,
    decreases bs.len() - i,
{
    if i < bs.len() && bs[i].0 != id {
        lemma_find_bound(bs, id, i + 1);
    }
}

pub proof fn lemma_find_var(vs: Seq<Variable>, name: Seq<char>, i: int)
    requires
        0 <= i,
    ensures
        find_var_from(vs, name, i) matches Some(k) ==> i <= k < vs.len() && vs[k].ident.lexeme@ == name,
        find_var_from(vs, name, i) is None ==> forall|k: int| i <= k < vs.len() ==> vs[k].ident.lexeme@ != name,
    decreases vs.len() - i,
{
    if i < vs.len() && vs[i].ident.lexeme@ != name {
        lemma_find_var(vs, name, i + 1);
    }
}

/// No two variables share a name.
pub open spec fn names_distinct(vs: Seq<Variable>) -> bool {
    forall|i: int, j: int|
        0 <= i < j < vs.len() ==> (#[trigger] vs[i]).ident.lexeme@ != (#[trigger] vs[j]).ident.lexeme@
}

/// No two unknowns share a number.
pub open spec fn ids_distinct(bs: Seq<(usize, BoundView)>) -> bool {
    forall|i: int, j: int| 0 <= i < j < bs.len() ==> (#[trigger] bs[i]).0 != (#[trigger] bs[j]).0
}

/// A scope holds a variable by its name and an unknown by its number:
/// adding either one replaces the one of the same name or number, so names
/// and numbers never repeat, and the one added is the one found.
pub proof fn law_scope_keys(vs: Seq<Variable>, v: Variable, bs: Seq<(usize, BoundView)>, id: usize, b: BoundView)
    requires
        names_distinct(vs),
        ids_distinct(bs),
    ensures
        names_distinct(add_variable_spec(vs, v)),
        find_var(add_variable_spec(vs, v), v.ident.lexeme@) matches Some(i) && add_variable_spec(vs, v)[i] == v,
        ids_distinct(add_bounds_spec(bs, id, b)),
        find_bound(add_bounds_spec(bs, id, b), id) matches Some(i) && add_bounds_spec(bs, id, b)[i] == (id, b),
{
    let name = v.ident.lexeme@;
    lemma_find_var(vs, name, 0);
    let w = add_variable_spec(vs, v);
    match find_var(vs, name) {
        Some(i) => {
            assert forall|a: int, c: int| 0 <= a < c < w.len() implies (#[trigger] w[a]).ident.lexeme@
                != (#[trigger] w[c]).ident.lexeme@ by {
                assert(vs[a].ident.lexeme@ != vs[c].ident.lexeme@);
            }
            lemma_find_var(w, name, 0);
            if let Some(k) = find_var(w, name) {
                if k != i {
                    if k < i {
                        assert(w[k].ident.lexeme@ != w[i].ident.lexeme@);
                    } else {
                        assert(w[i].ident.lexeme@ != w[k].ident.lexeme@);
                    }
                }
            }
        },
        None => {
            assert forall|a: int, c: int| 0 <= a < c < w.len() implies (#[trigger] w[a]).ident.lexeme@
                != (#[trigger] w[c]).ident.lexeme@ by {
                assert(w[a] == vs[a]);
                if c < vs.len() {
                    assert(w[c] == vs[c]);
                }
            }
            lemma_find_var(w, name, 0);
            let k = vs.len() as int;
            assert(w[k] == v);
        },
    }
    lemma_find_bound(bs, id, 0);
    let x = add_bounds_spec(bs, id, b);
    match find_bound(bs, id) {
        Some(i) => {
            assert forall|a: int, c: int| 0 <= a < c < x.len() implies (#[trigger] x[a]).0 != (#[trigger] x[c]).0 by {
                assert(bs[a].0 != bs[c].0);
            }
            assert(x[i] == (id, b));
            lemma_find_bound(x, id, 0);
            if let Some(k) = find_bound(x, id) {
                if k != i {
                    if k < i {
                        assert(x[k].0 != x[i].0);
                    } else {
                        assert(x[i].0 != x[k].0);
                    }
                }
            }
        },
        None => {
            assert forall|a: int, c: int| 0 <= a < c < x.len() implies (#[trigger] x[a]).0 != (#[trigger] x[c]).0 by {
                assert(x[a] == bs[a]);
                if c < bs.len() {
                    assert(x[c] == bs[c]);
                }
            }
            lemma_find_bound(x, id, 0);
            let k = bs.len() as int;
            assert(x[k] == (id, b));
        },
    }
}

/// The content of a `SemanticScope`: variables and unknowns in the order they
/// were added.
pub struct SemScopeView {
    pub parent: Option<ScopeId>,
    pub variables: Seq<Variable>,
    pub bounds: Seq<(usize, BoundView)>,
    pub children: Seq<usize>,
}

/// `vs` after `var` is added: it takes the place of the variable of the same
/// name, or goes at the end.
pub open spec fn add_variable_spec(vs: Seq<Variable>, var: Variable) -> Seq<Variable> {
    match find_var(vs, var.ident.lexeme@) {
        Some(i) => vs.update(i, var),
        None => vs.push(var),
    }
}

/// `bs` after the unknown `id` is set to `b`.
pub open spec fn add_bounds_spec(bs: Seq<(usize, BoundView)>, id: usize, b: BoundView) -> Seq<(usize, BoundView)> {
    match find_bound(bs, id) {
        Some(i) => bs.update(i, (id, b)),
        None => bs.push((id, b)),
    }
}

/// The empty scope.
pub open spec fn empty_sem_scope() -> SemScopeView {
    SemScopeView { parent: None, variables: Seq::empty(), bounds: Seq::empty(), children: Seq::empty() }
}

/// The variables and unknowns of one scope, as the type checker sees them.
#[derive(Debug, PartialEq)]
pub struct SemanticScope {
    parent: Option<ScopeId>,
    variables: Vec<Variable>,
    bounds: Vec<(usize, SemanticBound)>,
    children: Vec<usize>,
}

pub open spec fn bound_views(bs: Seq<(usize, SemanticBound)>) -> Seq<(usize, BoundView)> {
    bs.map_values(|p: (usize, SemanticBound)| (p.0, p.1@))
}

impl View for SemanticScope {
    type V = SemScopeView;

    closed spec fn view(&self) -> SemScopeView {
        SemScopeView {
            parent: self.parent,
            variables: self.variables@,
            bounds: bound_views(self.bounds@),
            children: self.children@,
        }
    }
}

impl Default for SemanticScope {
    fn default() -> (r: Self)
        ensures
            r@ == empty_sem_scope(),
    {
        let r = SemanticScope { parent: None, variables: Vec::new(), bounds: Vec::new(), children: Vec::new() };
        assert(r@.bounds =~= Seq::<(usize, BoundView)>::empty());
        r
    }
}

impl SemanticScope {
    pub(crate) fn var_index(&self, name: &String) -> (r: Option<usize>)
        ensures
            match r {
                Some(i) => find_var(self@.variables, name@) == Some(i as int) && i < self@.variables.len(),
                None => find_var(self@.variables, name@) is None,
            },
    {
        let mut i: usize = 0;
        while i < self.variables.len()
            invariant
                i <= self.variables.len(),
                find_var_from(self@.variables, name@, i as int) == find_var(self@.variables, name@),
            decreases self.variables.len() - i,
        {
            if self.variables[i].ident.lexeme == *name {
                return Some(i);
            }
            i = i + 1;
        }
        None
    }

    pub(crate) fn bound_index(&self, id: usize) -> (r: Option<usize>)
        ensures
            match r {
                Some(i) => find_bound(self@.bounds, id) == Some(i as int) && i < self@.bounds.len(),
                None => find_bound(self@.bounds, id) is None,
            },
    {
        let mut i: usize = 0;
        while i < self.bounds.len()
            invariant
                i <= self.bounds.len(),
                find_bound_from(self@.bounds, id, i as int) == find_bound(self@.bounds, id),
            decreases self.bounds.len() - i,
        {
            if self.bounds[i].0 == id {
                return Some(i);
            }
            i = i + 1;
        }
        None
    }

    /// Sets the type of the variable at index `i`.
    pub(crate) fn set_variable_ty(&mut self, i: usize, ty: Option<crate::types::Type>)
        requires
            i < old(self)@.variables.len(),
        ensures
            final(self)@ == (SemScopeView {
                variables: old(self)@.variables.update(i as int, Variable { ty, ..old(self)@.variables[i as int] }),
                ..old(self)@
            }),
    {
        let mut v = self.variables.remove(i);
        v.ty = ty;
        self.variables.insert(i, v);
        assert(self.variables@ =~= old(self).variables@.update(i as int, v));
    }

    /// Sets the value of the variable at index `i`.
    pub(crate) fn set_variable_value(&mut self, i: usize, value: Option<crate::ast::Value>)
        requires
            i < old(self)@.variables.len(),
        ensures
            final(self)@ == (SemScopeView {
                variables: old(self)@.variables.update(i as int, Variable { value, ..old(self)@.variables[i as int] }),
                ..old(self)@
            }),
    {
        let mut v = self.variables.remove(i);
        v.value = value;
        self.variables.insert(i, v);
        assert(self.variables@ =~= old(self).variables@.update(i as int, v));
    }

    /// Marks the unknown at index `i` bound.
    pub(crate) fn set_bound_resolved(&mut self, i: usize)
        requires
            i < old(self)@.bounds.len(),
        ensures
            final(self)@ == (SemScopeView {
                bounds: old(self)@.bounds.update(
                    i as int,
                    (old(self)@.bounds[i as int].0, BoundView { resolved: true, ..old(self)@.bounds[i as int].1 }),
                ),
                ..old(self)@
            }),
    {
        let (id, mut b) = self.bounds.remove(i);
        b.resolved = true;
        let ghost bv = b@;
        self.bounds.insert(i, (id, b));
        assert(bound_views(self.bounds@) =~= old(self)@.bounds.update(i as int, (id, bv)));
    }

    /// Adds the relation `other` to the unknown at index `i`.
    pub(crate) fn relate_bound(&mut self, i: usize, other: usize)
        requires
            i < old(self)@.bounds.len(),
        ensures
            final(self)@ == (SemScopeView {
                bounds: old(self)@.bounds.update(
                    i as int,
                    (
                        old(self)@.bounds[i as int].0,
                        BoundView {
                            relations: add_relation_spec(old(self)@.bounds[i as int].1.relations, other),
                            ..old(self)@.bounds[i as int].1
                        },
                    ),
                ),
                ..old(self)@
            }),
    {
        let (id, mut b) = self.bounds.remove(i);
        b.add_relation(other);
        let ghost bv = b@;
        self.bounds.insert(i, (id, b));
        assert(bound_views(self.bounds@) =~= old(self)@.bounds.update(i as int, (id, bv)));
    }

    /// The unknown at index `i`: whether it is bound, its variable, and its
    /// relations.
    pub(crate) fn bound_at(&self, i: usize) -> (r: (bool, String, Vec<usize>))
        requires
            i < self@.bounds.len(),
        ensures
            r.0 == self@.bounds[i as int].1.resolved,
            r.1@ == self@.bounds[i as int].1.target_var,
            r.2@ == self@.bounds[i as int].1.relations,
    {
        let b = &self.bounds[i].1;
        let mut rels: Vec<usize> = Vec::new();
        let mut k: usize = 0;
        while k < b.relations.len()
            invariant
                k <= b.relations.len(),
                rels@ == b.relations@.subrange(0, k as int),
            decreases b.relations.len() - k,
        {
            rels.push(b.relations[k]);
            k = k + 1;
        }
        assert(rels@ =~= b.relations@);
        (b.resolved, b.target_var.clone(), rels)
    }

    /// A copy of the value of the variable at index `i`.
    pub(crate) fn value_at(&self, i: usize) -> (r: Option<crate::ast::Value>)
        requires
            i < self@.variables.len(),
        ensures
            r == self@.variables[i as int].value,
    {
        match &self.variables[i].value {
            Some(v) => Some(v.duplicate()),
            None => None,
        }
    }

    pub fn get_variable(&self, name: &String) -> (r: Option<&Variable>)
        ensures
            match find_var(self@.variables, name@) {
                Some(i) => r == Some(&self@.variables[i]),
                None => r is None,
            },
    {
        match self.var_index(name) {
            Some(i) => Some(&self.variables[i]),
            None => None,
        }
    }

    /// The variables, in the order they were added.
    pub fn get_variables(&self) -> (r: Vec<&Variable>)
        ensures
            r@.len() == self@.variables.len(),
            forall|k: int| 0 <= k < r@.len() ==> *#[trigger] r@[k] == self@.variables[k],
    {
        let mut out: Vec<&Variable> = Vec::new();
        let mut i: usize = 0;
        while i < self.variables.len()
            invariant
                i <= self.variables.len(),
                out@.len() == i,
                forall|k: int| 0 <= k < i ==> *#[trigger] out@[k] == self@.variables[k],
            decreases self.variables.len() - i,
        {
            out.push(&self.variables[i]);
            i = i + 1;
        }
        out
    }

    /// Adds `var`, in place of the variable of the same name if there is one.
    pub fn add_variable(&mut self, var: Variable)
        ensures
            final(self)@ == (SemScopeView {
                variables: add_variable_spec(old(self)@.variables, var),
                ..old(self)@
            }),
    {
        match self.var_index(&var.ident.lexeme) {
            Some(i) => {
                self.variables.set(i, var);
            },
            None => {
                self.variables.push(var);
            },
        }
    }

    pub fn get_mut_variable(&mut self, name: &String) -> (r: Option<&mut Variable>)
        ensures
            match find_var(old(self)@.variables, name@) {
                Some(i) => r matches Some(v) && *v == old(self)@.variables[i] && final(self)@ == (SemScopeView {
                    variables: old(self)@.variables.update(i, *final(v)),
                    ..old(self)@
                }),
                None => r is None && final(self)@ == old(self)@,
            },
    {
        match self.var_index(name) {
            Some(i) => Some(&mut self.variables[i]),
            None => None,
        }
    }

    /// The number of variables.
    pub fn variable_count(&self) -> (r: usize)
        ensures
            r == self@.variables.len(),
    {
        self.variables.len()
    }

    /// The variable at index `i`, to change in place: with `variable_count`,
    /// this reaches every variable in turn.
    pub fn get_mut_variable_at(&mut self, i: usize) -> (r: Option<&mut Variable>)
        ensures
            if i < old(self)@.variables.len() {
                r matches Some(v) && *v == old(self)@.variables[i as int] && final(self)@ == (SemScopeView {
                    variables: old(self)@.variables.update(i as int, *final(v)),
                    ..old(self)@
                })
            } else {
                r is None && final(self)@ == old(self)@
            },
    {
        if i < self.variables.len() {
            Some(&mut self.variables[i])
        } else {
            None
        }
    }

    /// The unknown `id`, which must be in the scope.
    pub fn get_bounds(&self, id: usize) -> (r: &SemanticBound)
        requires
            find_bound(self@.bounds, id) is Some,
        ensures
            r@ == self@.bounds[find_bound(self@.bounds, id).unwrap()].1,
    {
        let i = self.bound_index(id).unwrap();
        &self.bounds[i].1
    }

    pub fn get_mut_bounds(&mut self, id: usize) -> (r: Option<&mut SemanticBound>)
        ensures
            match find_bound(old(self)@.bounds, id) {
                Some(i) => r matches Some(b) && b@ == old(self)@.bounds[i].1 && final(self)@ == (SemScopeView {
                    bounds: old(self)@.bounds.update(i, (id, final(b)@)),
                    ..old(self)@
                }),
                None => r is None && final(self)@ == old(self)@,
            },
    {
        proof {
            lemma_find_bound(old(self)@.bounds, id, 0);
        }
        match self.bound_index(id) {
            Some(i) => {
                proof {
                    let bs = self.bounds@;
                    assert forall|b: SemanticBound| #[trigger] bound_views(bs.update(i as int, (id, b)))
                        == bound_views(bs).update(i as int, (id, b@)) by {
                        assert(bound_views(bs.update(i as int, (id, b))) =~= bound_views(bs).update(i as int, (id, b@)));
                    }
                }
                Some(&mut self.bounds[i].1)
            },
            None => None,
        }
    }

    /// Sets the unknown `id` to `bound`.
    pub fn add_bounds(&mut self, bound_id: usize, bound: SemanticBound)
        ensures
            final(self)@ == (SemScopeView {
                bounds: add_bounds_spec(old(self)@.bounds, bound_id, bound@),
                ..old(self)@
            }),
    {
        let ghost bv = bound@;
        match self.bound_index(bound_id) {
            Some(i) => {
                self.bounds.set(i, (bound_id, bound));
                assert(bound_views(self.bounds@) =~= old(self)@.bounds.update(i as int, (bound_id, bv)));
            },
            None => {
                self.bounds.push((bound_id, bound));
                assert(bound_views(self.bounds@) =~= old(self)@.bounds.push((bound_id, bv)));
            },
        }
    }

    pub fn set_parent(&mut self, parent: usize)
        ensures
            final(self)@ == (SemScopeView { parent: Some(parent), ..old(self)@ }),
    {
        self.parent = Some(parent);
    }

    pub fn add_child_scope(&mut self, child_id: usize)
        ensures
            final(self)@ == (SemScopeView { children: old(self)@.children.push(child_id), ..old(self)@ }),
    {
        self.children.push(child_id);
    }

    pub fn get_children(&self) -> (r: &Vec<usize>)
        ensures
            r@ == self@.children,
    {
        &self.children
    }
}

} // verus!
