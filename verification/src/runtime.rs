use vstd::prelude::*;

use crate::ast::{OpKind, Value, Variable};
use crate::lexer::is_digit;
use crate::sema_scope::{SemScopeView, SemanticScope};
use crate::semantic::env_views;
use crate::types::Type;

verus! {

/// A value at run time.
#[derive(Debug, PartialEq, Eq, Clone, Copy, Structural)]
pub enum RuntimeValue {
    I32(i32),
}

/// A variable at run time: its name, type and value.
#[derive(Debug, PartialEq)]
pub struct RuntimeVariable {
    name: String,
    ty: Type,
    value: RuntimeValue,
}

impl RuntimeVariable {
    pub closed spec fn name_spec(&self) -> Seq<char> {
        self.name@
    }

    pub closed spec fn ty_spec(&self) -> Type {
        self.ty
    }

    pub closed spec fn value_spec(&self) -> RuntimeValue {
        self.value
    }

    /// The variable with these parts.
    pub closed spec fn make(name: String, ty: Type, value: RuntimeValue) -> Self {
        RuntimeVariable { name, ty, value }
    }

    pub proof fn lemma_make(name: String, ty: Type, value: RuntimeValue)
        ensures
            Self::make(name, ty, value).name_spec() == name@,
            Self::make(name, ty, value).ty_spec() == ty,
            Self::make(name, ty, value).value_spec() == value,
    {
    }

    pub fn new(name: String, ty: Type, value: RuntimeValue) -> (r: Self)
        ensures
            r == Self::make(name, ty, value),
            r.name_spec() == name@,
            r.ty_spec() == ty,
            r.value_spec() == value,
    {
        RuntimeVariable { name, ty, value }
    }

    pub fn name(&self) -> (r: &String)
        ensures
            r@ == self.name_spec(),
    {
        &self.name
    }

    pub fn value(&self) -> (r: &RuntimeValue)
        ensures
            *r == self.value_spec(),
    {
        &self.value
    }
}

/// The first variable of `vs`, from `i` on, named `name`.
pub open spec fn find_rt_var_from(vs: Seq<RuntimeVariable>, name: Seq<char>, i: int) -> Option<int>
    decreases vs.len() - i,
{
    if i < 0 || i >= vs.len() {
        None
    } else if vs[i].name_spec() == name {
        Some(i)
    } else {
        find_rt_var_from(vs, name, i + 1)
    }
}

pub open spec fn find_rt_var(vs: Seq<RuntimeVariable>, name: Seq<char>) -> Option<int> {
    find_rt_var_from(vs, name, 0)
}

/// `vs` after `var` is added, in place of the variable of the same name if
/// there is one.
pub open spec fn add_rt_var(vs: Seq<RuntimeVariable>, var: RuntimeVariable) -> Seq<RuntimeVariable> {
    match find_rt_var(vs, var.name_spec()) {
        Some(i) => vs.update(i, var),
        None => vs.push(var),
    }
}

proof fn lemma_find_rt_var(vs: Seq<RuntimeVariable>, name: Seq<char>, i: int)
    requires
        0 <= i,
    ensures
        find_rt_var_from(vs, name, i) matches Some(k) ==> i <= k < vs.len() && vs[k].name_spec() == name,
        find_rt_var_from(vs, name, i) is None ==> forall|k: int| i <= k < vs.len() ==> vs[k].name_spec() != name,
    decreases vs.len() - i,
{
    if i < vs.len() && vs[i].name_spec() != name {
        lemma_find_rt_var(vs, name, i + 1);
    }
}

/// No two run-time variables share a name.
pub open spec fn rt_names_distinct(vs: Seq<RuntimeVariable>) -> bool {
    forall|i: int, j: int| 0 <= i < j < vs.len() ==> (#[trigger] vs[i]).name_spec() != (#[trigger] vs[j]).name_spec()
}

/// A run-time scope holds a variable by its name: adding one replaces the one
/// of the same name, so names never repeat, and the one added is the one
/// found.
pub proof fn law_runtime_scope_keys(vs: Seq<RuntimeVariable>, v: RuntimeVariable)
    requires
        rt_names_distinct(vs),
    ensures
        rt_names_distinct(add_rt_var(vs, v)),
        find_rt_var(add_rt_var(vs, v), v.name_spec()) matches Some(i) && add_rt_var(vs, v)[i] == v,
{
    let name = v.name_spec();
    lemma_find_rt_var(vs, name, 0);
    let w = add_rt_var(vs, v);
    match find_rt_var(vs, name) {
        Some(i) => {
            assert forall|a: int, c: int| 0 <= a < c < w.len() implies (#[trigger] w[a]).name_spec()
                != (#[trigger] w[c]).name_spec() by {
                assert(vs[a].name_spec() != vs[c].name_spec());
            }
            assert(w[i] == v);
            lemma_find_rt_var(w, name, 0);
            if let Some(k) = find_rt_var(w, name) {
                if k != i {
                    if k < i {
                        assert(w[k].name_spec() != w[i].name_spec());
                    } else {
                        assert(w[i].name_spec() != w[k].name_spec());
                    }
                }
            }
        },
        None => {
            assert forall|a: int, c: int| 0 <= a < c < w.len() implies (#[trigger] w[a]).name_spec()
                != (#[trigger] w[c]).name_spec() by {
                assert(w[a] == vs[a]);
                if c < vs.len() {
                    assert(w[c] == vs[c]);
                }
            }
            let k = vs.len() as int;
            assert(w[k] == v);
            lemma_find_rt_var(w, name, 0);
        },
    }
}

/// The variables of one scope at run time.
#[derive(Debug, PartialEq)]
pub struct RuntimeScope {
    variables: Vec<RuntimeVariable>,
}

impl View for RuntimeScope {
    type V = Seq<RuntimeVariable>;

    closed spec fn view(&self) -> Seq<RuntimeVariable> {
        self.variables@
    }
}

impl Default for RuntimeScope {
    fn default() -> (r: Self)
        ensures
            r@ == Seq::<RuntimeVariable>::empty(),
    {
        RuntimeScope { variables: Vec::new() }
    }
}

impl RuntimeScope {
    fn index_of(&self, varname: &String) -> (r: Option<usize>)
        ensures
            match r {
                Some(i) => find_rt_var(self@, varname@) == Some(i as int) && i < self@.len(),
                None => find_rt_var(self@, varname@) is None,
            },
    {
        let mut i: usize = 0;
        while i < self.variables.len()
            invariant
                i <= self.variables.len(),
                find_rt_var_from(self@, varname@, i as int) == find_rt_var(self@, varname@),
            decreases self.variables.len() - i,
        {
            if self.variables[i].name == *varname {
                return Some(i);
            }
            i = i + 1;
        }
        None
    }

    /// Adds `var`, in place of the variable of the same name if there is one.
    pub fn add_variable(&mut self, var: RuntimeVariable)
        ensures
            final(self)@ == add_rt_var(old(self)@, var),
    {
        match self.index_of(&var.name) {
            Some(i) => self.variables.set(i, var),
            None => self.variables.push(var),
        }
    }

    pub fn get_variable(&self, varname: &String) -> (r: Option<&RuntimeVariable>)
        ensures
            match find_rt_var(self@, varname@) {
                Some(i) => r == Some(&self@[i]),
                None => r is None,
            },
    {
        match self.index_of(varname) {
            Some(i) => Some(&self.variables[i]),
            None => None,
        }
    }
}

// ---------------------------------------------------------------------------
// Evaluation, as spec functions.
// ---------------------------------------------------------------------------

/// The number that a run of decimal digits stands for.
pub open spec fn digits_value(s: Seq<char>) -> int
    decreases s.len(),
{
    if s.len() == 0 {
        0
    } else {
        digits_value(s.drop_last()) * 10 + (s.last() as int - '0' as int)
    }
}

/// Whether every character of `s` is a decimal digit.
pub open spec fn all_digits(s: Seq<char>) -> bool {
    forall|i: int| 0 <= i < s.len() ==> is_digit(#[trigger] s[i])
}

/// `s` without its sign, if it has one.
pub open spec fn unsigned_part(s: Seq<char>) -> Seq<char> {
    if s.len() > 0 && (s[0] == '-' || s[0] == '+') {
        s.drop_first()
    } else {
        s
    }
}

/// What `i32` parsing makes of a text: an optional sign, then one digit or
/// more, of a value that fits in an `i32`.
pub open spec fn parse_i32_spec(s: Seq<char>) -> Option<i32> {
    let neg = s.len() > 0 && s[0] == '-';
    let body = unsigned_part(s);
    if body.len() == 0 || !all_digits(body) {
        None
    } else {
        let v = if neg {
            -digits_value(body)
        } else {
            digits_value(body)
        };
        if i32::MIN <= v <= i32::MAX {
            Some(v as i32)
        } else {
            None
        }
    }
}

/// `a / b`, rounded toward zero.
pub open spec fn trunc_div(a: int, b: int) -> int {
    if a == 0 {
        0
    } else if a > 0 && b > 0 {
        a / b
    } else if a < 0 && b < 0 {
        (a * -1) / (b * -1)
    } else if a < 0 {
        ((a * -1) / b) * -1
    } else {
        (a / (b * -1)) * -1
    }
}

/// An `i32` result, or nothing when `v` does not fit.
pub open spec fn in_i32(v: int) -> Option<i32> {
    if i32::MIN <= v <= i32::MAX {
        Some(v as i32)
    } else {
        None
    }
}

/// The result of an operator on two `i32`s; nothing on overflow or on a
/// division by zero.
pub open spec fn apply_op(op: OpKind, a: i32, b: i32) -> Option<i32> {
    match op {
        OpKind::Addition => in_i32(a + b),
        OpKind::Subtraction => in_i32(a - b),
        OpKind::Multiplication => in_i32(a * b),
        OpKind::Division => if b == 0 {
            None
        } else {
            in_i32(trunc_div(a as int, b as int))
        },
    }
}

/// The variable named `name` in the run-time scope `scope` or one below it,
/// searched from `scope` down to the first, with its scope.
pub open spec fn rt_lookup(rt: Seq<Seq<RuntimeVariable>>, scope: int, name: Seq<char>) -> Option<(int, RuntimeVariable)>
    decreases scope,
{
    if scope < 0 || scope >= rt.len() {
        None
    } else {
        match find_rt_var(rt[scope], name) {
            Some(i) => Some((scope, rt[scope][i])),
            None => if scope == 0 {
                None
            } else {
                rt_lookup(rt, scope - 1, name)
            },
        }
    }
}

/// The value of a variable, looked up from the first run-time scope.
pub open spec fn lookup_first(rt: Seq<Seq<RuntimeVariable>>, name: Seq<char>) -> Option<i32> {
    match rt_lookup(rt, 0, name) {
        Some((_, v)) => match v.value_spec() {
            RuntimeValue::I32(n) => Some(n),
        },
        None => None,
    }
}

/// The value of an expression, with variables read from the first run-time
/// scope; nothing where evaluation would stop the program (a number that
/// does not parse, an overflow, a division by zero, an unknown variable).
pub open spec fn eval_spec(rt: Seq<Seq<RuntimeVariable>>, v: Value) -> Option<i32>
    decreases v,
{
    match v {
        Value::Integer(n) => parse_i32_spec(n@),
        Value::Identifier(s) => lookup_first(rt, s@),
        Value::Absolute(x) => match eval_spec(rt, *x) {
            Some(n) => in_i32(if n < 0 { -n } else { n as int }),
            None => None,
        },
        Value::Negate(x) => match eval_spec(rt, *x) {
            Some(n) => in_i32(-n),
            None => None,
        },
        Value::BinaryExpr { left, op, right, evaluated_ty } => match eval_spec(rt, *left) {
            Some(a) => match eval_spec(rt, *right) {
                Some(b) => apply_op(op, a, b),
                None => None,
            },
            None => None,
        },
    }
}

/// The run-time scopes after the variables `vars[i..]` of scope `id` are
/// evaluated, those with a value only.
pub open spec fn eval_vars_spec(rt: Seq<Seq<RuntimeVariable>>, id: int, vars: Seq<Variable>, i: int) -> Option<
    Seq<Seq<RuntimeVariable>>,
>
    decreases vars.len() - i,
{
    if i < 0 || i >= vars.len() {
        Some(rt)
    } else {
        let var = vars[i];
        match var.value {
            None => eval_vars_spec(rt, id, vars, i + 1),
            Some(value) => match eval_spec(rt, value) {
                None => None,
                Some(n) => if id < 0 || id >= rt.len() || var.ty is None {
                    None
                } else {
                    let rv = RuntimeVariable::make(var.ident.lexeme, var.ty.unwrap(), RuntimeValue::I32(n));
                    eval_vars_spec(rt.update(id, add_rt_var(rt[id], rv)), id, vars, i + 1)
                },
            },
        }
    }
}

/// The run-time scopes after the scope `id` of `env` is run: a new run-time
/// scope is added, the scope's variables are evaluated, then its child scopes
/// are run.
pub open spec fn eval_scope_spec(rt: Seq<Seq<RuntimeVariable>>, id: int, env: Seq<SemScopeView>, fuel: nat) -> Option<
    Seq<Seq<RuntimeVariable>>,
>
    decreases fuel, 0int,
{
    if fuel == 0 || id < 0 || id >= env.len() {
        None
    } else {
        match eval_vars_spec(rt.push(Seq::empty()), id, env[id].variables, 0) {
            None => None,
            Some(rt2) => eval_children_spec(rt2, env[id].children, 0, env, (fuel - 1) as nat),
        }
    }
}

/// The run-time scopes after the scopes `children[i..]` are run.
pub open spec fn eval_children_spec(
    rt: Seq<Seq<RuntimeVariable>>,
    children: Seq<usize>,
    i: int,
    env: Seq<SemScopeView>,
    fuel: nat,
) -> Option<Seq<Seq<RuntimeVariable>>>
    decreases fuel, children.len() - i,
{
    if i < 0 || i >= children.len() {
        Some(rt)
    } else if fuel == 0 {
        None
    } else {
        match eval_scope_spec(rt, children[i] as int, env, (fuel - 1) as nat) {
            None => None,
            Some(rt2) => eval_children_spec(rt2, children, i + 1, env, fuel),
        }
    }
}

/// How deep scopes may nest when a program is run, a bound of this library's
/// own choice; past it the run stops (`try_run` gives `false`). The type checker's scopes never nest (see
/// `law_run_first_scope`), so they never come near it.
pub const RUN_DEPTH: usize = 100000;

/// The run-time scopes after a program is run from the first scope of `env`.
pub open spec fn run_spec(rt: Seq<Seq<RuntimeVariable>>, env: Seq<SemScopeView>) -> Option<Seq<Seq<RuntimeVariable>>> {
    eval_scope_spec(rt, 0, env, RUN_DEPTH as nat)
}

} // verus!

verus! {

proof fn lemma_digits_value_nonneg(s: Seq<char>)
    requires
        forall|i: int| 0 <= i < s.len() ==> is_digit(#[trigger] s[i]),
    ensures
        digits_value(s) >= 0,
    decreases s.len(),
{
    if s.len() > 0 {
        lemma_digits_value_nonneg(s.drop_last());
    }
}

/// A longer run of digits is worth at least as much as its prefix.
proof fn lemma_digits_value_prefix(s: Seq<char>, k: int)
    requires
        0 <= k <= s.len(),
        forall|i: int| 0 <= i < s.len() ==> is_digit(#[trigger] s[i]),
    ensures
        digits_value(s) >= digits_value(s.take(k)),
    decreases s.len(),
{
    if k < s.len() {
        lemma_digits_value_nonneg(s.drop_last());
        lemma_digits_value_prefix(s.drop_last(), k);
        assert(s.drop_last().take(k) =~= s.take(k));
    } else {
        assert(s.take(k) =~= s);
    }
}

/// Parses an `i32` written in decimal, with an optional sign.
pub fn parse_i32(s: &str) -> (r: Option<i32>)
    ensures
        r == parse_i32_spec(s@),
{
    let n = s.unicode_len();
    let mut start: usize = 0;
    let mut neg = false;
    if n > 0 {
        let c0 = s.get_char(0);
        if c0 == '-' {
            neg = true;
            start = 1;
        } else if c0 == '+' {
            start = 1;
        }
    }
    let ghost body = unsigned_part(s@);
    assert(body =~= s@.subrange(start as int, n as int));
    if start == n {
        return None;
    }
    let mut acc: i64 = 0;
    let mut i: usize = start;
    while i < n
        invariant
            n == s@.len(),
            start <= i <= n,
            body =~= s@.subrange(start as int, n as int),
            body == unsigned_part(s@),
            neg == (s@.len() > 0 && s@[0] == '-'),
            body.len() > 0,
            0 <= acc <= 2147483648,
            acc == digits_value(body.take(i - start)),
            forall|k: int| 0 <= k < i - start ==> is_digit(#[trigger] body[k]),
        decreases n - i,
    {
        let c = s.get_char(i);
        if !('0' <= c && c <= '9') {
            proof {
                assert(body[i - start] == c);
                assert(!is_digit(body[i - start]));
                assert(!all_digits(body));
            }
            return None;
        }
        let d = (c as u32 - '0' as u32) as i64;
        proof {
            assert(body[i - start] == c);
            assert(d == c as int - '0' as int);
            let t = body.take(i - start + 1);
            assert(t.drop_last() =~= body.take(i - start));
            assert(t.last() == c);
            assert(digits_value(t) == digits_value(t.drop_last()) * 10 + (t.last() as int - '0' as int));
        }
        acc = acc * 10 + d;
        if acc > 2147483648 {
            proof {
                assert forall|k: int| 0 <= k < i - start + 1 implies is_digit(#[trigger] body[k]) by {
                    if k == i - start {
                        assert(body[k] == c);
                    }
                }
                if all_digits(body) {
                    lemma_digits_value_prefix(body, i - start + 1);
                    assert(digits_value(body) > 2147483648);
                }
            }
            return None;
        }
        i = i + 1;
        proof {
            assert forall|k: int| 0 <= k < i - start implies is_digit(#[trigger] body[k]) by {
                if k == i - start - 1 {
                    assert(body[k] == c);
                }
            }
        }
    }
    proof {
        assert(body.take(n - start) =~= body);
    }
    if neg {
        if acc > 2147483648 {
            None
        } else {
            Some((-acc) as i32)
        }
    } else {
        if acc > 2147483647 {
            None
        } else {
            Some(acc as i32)
        }
    }
}

} // verus!

verus! {

/// Runs checked programs: one run-time scope per scope entered.
pub struct Interpreter {
    runtime_env: Vec<RuntimeScope>,
}

pub open spec fn rt_views(rt: Seq<RuntimeScope>) -> Seq<Seq<RuntimeVariable>> {
    rt.map_values(|s: RuntimeScope| s@)
}

impl View for Interpreter {
    type V = Seq<Seq<RuntimeVariable>>;

    closed spec fn view(&self) -> Seq<Seq<RuntimeVariable>> {
        rt_views(self.runtime_env@)
    }
}

impl Interpreter {
    pub fn new() -> (r: Self)
        ensures
            r@ == Seq::<Seq<RuntimeVariable>>::empty(),
    {
        let r = Interpreter { runtime_env: Vec::new() };
        assert(r@ =~= Seq::<Seq<RuntimeVariable>>::empty());
        r
    }

    /// The run-time scopes.
    pub fn scopes(&self) -> (r: &Vec<RuntimeScope>)
        ensures
            rt_views(r@) == self@,
    {
        &self.runtime_env
    }

    /// The variable named `varname`, looked for from the run-time scope
    /// `scope_id` down to the first; `None` where the lookup would stop the
    /// program.
    fn get_variable_recursive(&self, scope_id: usize, varname: &String) -> (r: Option<(usize, &RuntimeVariable)>)
        ensures
            match rt_lookup(self@, scope_id as int, varname@) {
                Some((s, v)) => r matches Some((s2, v2)) && s2 == s && *v2 == v,
                None => r is None,
            },
    {
        let mut s = scope_id;
        while s < self.runtime_env.len()
            invariant
                rt_lookup(self@, s as int, varname@) == rt_lookup(self@, scope_id as int, varname@),
            ensures
                rt_lookup(self@, scope_id as int, varname@) is None,
            decreases s,
        {
            match self.runtime_env[s].get_variable(varname) {
                Some(v) => {
                    return Some((s, v));
                },
                None => {},
            }
            if s == 0 {
                break;
            }
            s = s - 1;
        }
        None
    }

    /// The value of `value`; `None` where evaluation would stop the program.
    fn eval_value(&self, scope_id: usize, scope: &SemanticScope, value: &Value) -> (r: Option<RuntimeValue>)
        requires
            scope_id == 0,
        ensures
            match r {
                Some(RuntimeValue::I32(n)) => eval_spec(self@, *value) == Some(n),
                None => eval_spec(self@, *value) is None,
            },
        decreases value,
    {
        match value {
            Value::Integer(n) => {
                let text = n.as_str();
                let parsed = parse_i32(text);
                assert(text@ == n@);
                match parsed {
                    Some(k) => Some(RuntimeValue::I32(k)),
                    None => None,
                }
            },
            Value::Absolute(value) => match self.eval_value(scope_id, scope, value) {
                Some(RuntimeValue::I32(n)) => if n == i32::MIN {
                    None
                } else {
                    Some(RuntimeValue::I32(if n < 0 { -n } else { n }))
                },
                None => None,
            },
            Value::Negate(value) => match self.eval_value(scope_id, scope, value) {
                Some(RuntimeValue::I32(n)) => if n == i32::MIN {
                    None
                } else {
                    Some(RuntimeValue::I32(-n))
                },
                None => None,
            },
            Value::BinaryExpr { left, op, right, evaluated_ty: _ } => {
                let left = self.eval_value(scope_id, scope, left);
                let right = self.eval_value(scope_id, scope, right);
                match (left, right) {
                    (Some(RuntimeValue::I32(n1)), Some(RuntimeValue::I32(n2))) => match op {
                        OpKind::Addition => match n1.checked_add(n2) {
                            Some(k) => Some(RuntimeValue::I32(k)),
                            None => None,
                        },
                        OpKind::Subtraction => match n1.checked_sub(n2) {
                            Some(k) => Some(RuntimeValue::I32(k)),
                            None => None,
                        },
                        OpKind::Multiplication => match n1.checked_mul(n2) {
                            Some(k) => Some(RuntimeValue::I32(k)),
                            None => None,
                        },
                        OpKind::Division => match n1.checked_div(n2) {
                            Some(k) => Some(RuntimeValue::I32(k)),
                            None => None,
                        },
                    },
                    _ => None,
                }
            },
            Value::Identifier(s) => match self.get_variable_recursive(scope_id, s) {
                Some((_, v)) => Some(*v.value()),
                None => None,
            },
        }
    }
}


proof fn lemma_rt_views_update(rt: Seq<RuntimeScope>, s: int, e: RuntimeScope)
    requires
        0 <= s < rt.len(),
    ensures
        rt_views(rt.update(s, e)) == rt_views(rt).update(s, e@),
{
    assert(rt_views(rt.update(s, e)) =~= rt_views(rt).update(s, e@));
}

impl Interpreter {
    /// Runs the scope `scope_id` of `env`: adds a run-time scope, evaluates the
    /// variables that have a value, then runs the child scopes. `false` where
    /// running would stop the program.
    fn eval_scope(&mut self, scope_id: usize, env: &Vec<SemanticScope>, fuel: usize) -> (r: bool)
        ensures
            r == eval_scope_spec(old(self)@, scope_id as int, env_views(env@), fuel as nat) is Some,
            r ==> final(self)@ == eval_scope_spec(old(self)@, scope_id as int, env_views(env@), fuel as nat).unwrap(),
        decreases fuel, 0int,
    {
        if fuel == 0 {
            return false;
        }
        let ghost envs = env_views(env@);
        let ghost spec = eval_scope_spec(old(self)@, scope_id as int, envs, fuel as nat);
        let ghost before = self.runtime_env@;
        self.runtime_env.push(RuntimeScope::default());
        proof {
            assert(self@ =~= old(self)@.push(Seq::empty()));
        }
        if scope_id >= env.len() {
            return false;
        }
        let scope = &env[scope_id];
        let vars = scope.get_variables();
        let ghost vs = envs[scope_id as int].variables;
        let ghost res1 = eval_vars_spec(self@, scope_id as int, vs, 0);
        assert(spec == (match res1 {
            None => None,
            Some(rt2) => eval_children_spec(rt2, envs[scope_id as int].children, 0, envs, (fuel - 1) as nat),
        }));
        let mut i: usize = 0;
        while i < vars.len()
            invariant
                i <= vars.len(),
                vars@.len() == vs.len(),
                forall|k: int| 0 <= k < vars@.len() ==> *#[trigger] vars@[k] == vs[k],
                eval_vars_spec(self@, scope_id as int, vs, i as int) == res1,
                envs == env_views(env@),
                scope_id < envs.len(),
                vs == envs[scope_id as int].variables,
                fuel > 0,
                spec == eval_scope_spec(old(self)@, scope_id as int, envs, fuel as nat),
                spec == (match res1 {
                    None => None,
                    Some(rt2) => eval_children_spec(rt2, envs[scope_id as int].children, 0, envs, (fuel - 1) as nat),
                }),
                self@.len() == self.runtime_env@.len(),
            ensures
                res1 == Some(self@),
            decreases vars.len() - i,
        {
            let var = vars[i];
            if let Some(value) = &var.value {
                let v = match self.eval_value(0, scope, value) {
                    Some(v) => v,
                    None => return false,
                };
                if scope_id >= self.runtime_env.len() {
                    return false;
                }
                let ty = match var.ty {
                    Some(t) => t,
                    None => return false,
                };
                let rv = RuntimeVariable::new(var.ident.lexeme.clone(), ty, v);
                let ghost pre = self.runtime_env@;
                self.runtime_env[scope_id].add_variable(rv);
                proof {
                    lemma_rt_views_update(pre, scope_id as int, self.runtime_env@[scope_id as int]);
                    assert(self.runtime_env@ == pre.update(scope_id as int, self.runtime_env@[scope_id as int]));
                }
            }
            i = i + 1;
        }
        let children = scope.get_children();
        let ghost res2 = eval_children_spec(self@, children@, 0, envs, (fuel - 1) as nat);
        assert(children@ == envs[scope_id as int].children);
        let mut k: usize = 0;
        while k < children.len()
            invariant
                k <= children.len(),
                fuel > 0,
                envs == env_views(env@),
                eval_children_spec(self@, children@, k as int, envs, (fuel - 1) as nat) == res2,
                spec == res2,
                spec == eval_scope_spec(old(self)@, scope_id as int, envs, fuel as nat),
            ensures
                res2 == Some(self@),
            decreases children.len() - k,
        {
            if fuel - 1 == 0 {
                return false;
            }
            if !self.eval_scope(children[k], env, fuel - 2) {
                return false;
            }
            k = k + 1;
        }
        true
    }

    /// Runs a checked program from the first scope of `env`. Running must not
    /// stop the program (see `try_run`).
    pub fn run(&mut self, env: Vec<SemanticScope>)
        requires
            run_spec(old(self)@, env_views(env@)) is Some,
        ensures
            final(self)@ == run_spec(old(self)@, env_views(env@)).unwrap(),
    {
        self.eval_scope(0, &env, RUN_DEPTH);
    }

    /// Runs a checked program from the first scope of `env`; `false` where
    /// running would stop the program.
    pub fn try_run(&mut self, env: Vec<SemanticScope>) -> (r: bool)
        ensures
            r == run_spec(old(self)@, env_views(env@)) is Some,
            r ==> final(self)@ == run_spec(old(self)@, env_views(env@)).unwrap(),
    {
        self.eval_scope(0, &env, RUN_DEPTH)
    }
}

} // verus!

verus! {

/// The parser reads `+-+x` as `+x`, keeping one absolute: the value the
/// evaluator gives is the same.
pub proof fn law_sign_folding_nested(rt: Seq<Seq<RuntimeVariable>>, v: Value)
    ensures
        eval_spec(rt, Value::Absolute(Box::new(Value::Negate(Box::new(Value::Absolute(Box::new(v)))))))
            == eval_spec(rt, Value::Absolute(Box::new(v))),
{
    law_sign_folding(rt, v);
    law_sign_folding(rt, Value::Absolute(Box::new(v)));
}

/// The parser folds signs: `+-x` is read as `+x`, `++x` as `+x`, and `--x`
/// as `x`. Each folding keeps the value the evaluator gives, but for `--x`
/// where `x` is the least `i32`, whose negation overflows.
pub proof fn law_sign_folding(rt: Seq<Seq<RuntimeVariable>>, v: Value)
    ensures
        eval_spec(rt, Value::Absolute(Box::new(Value::Negate(Box::new(v))))) == eval_spec(
            rt,
            Value::Absolute(Box::new(v)),
        ),
        eval_spec(rt, Value::Absolute(Box::new(Value::Absolute(Box::new(v))))) == eval_spec(
            rt,
            Value::Absolute(Box::new(v)),
        ),
        eval_spec(rt, v) != Some(i32::MIN) ==> eval_spec(
            rt,
            Value::Negate(Box::new(Value::Negate(Box::new(v)))),
        ) == eval_spec(rt, v),
{
    let neg = Value::Negate(Box::new(v));
    let abs = Value::Absolute(Box::new(v));
    assert(eval_spec(rt, neg) == match eval_spec(rt, v) {
        Some(n) => in_i32(-n),
        None => None,
    });
    assert(eval_spec(rt, abs) == match eval_spec(rt, v) {
        Some(n) => in_i32(if n < 0 { -n } else { n as int }),
        None => None,
    });
    assert(eval_spec(rt, Value::Absolute(Box::new(neg))) == match eval_spec(rt, neg) {
        Some(n) => in_i32(if n < 0 { -n } else { n as int }),
        None => None,
    });
    assert(eval_spec(rt, Value::Absolute(Box::new(abs))) == match eval_spec(rt, abs) {
        Some(n) => in_i32(if n < 0 { -n } else { n as int }),
        None => None,
    });
    assert(eval_spec(rt, Value::Negate(Box::new(neg))) == match eval_spec(rt, neg) {
        Some(n) => in_i32(-n),
        None => None,
    });
}

} // verus!

verus! {

/// Running scopes whose first scope has no child scope, as the type checker
/// hands them over, evaluates the first scope's variables and nothing more:
/// the run never runs out of depth.
pub proof fn law_run_first_scope(rt: Seq<Seq<RuntimeVariable>>, env: Seq<SemScopeView>)
    requires
        env.len() > 0,
        env[0].children.len() == 0,
    ensures
        run_spec(rt, env) == eval_vars_spec(rt.push(Seq::empty()), 0, env[0].variables, 0),
{
    let vars = eval_vars_spec(rt.push(Seq::empty()), 0, env[0].variables, 0);
    if let Some(rt2) = vars {
        assert(eval_children_spec(rt2, env[0].children, 0, env, (RUN_DEPTH - 1) as nat) == Some(rt2));
    }
}

} // verus!


verus! {

// ---------------------------------------------------------------------------
// The arithmetic of the evaluator, in plain integers.
// ---------------------------------------------------------------------------

pub open spec fn int_abs(x: int) -> int {
    if x < 0 {
        -x
    } else {
        x
    }
}

/// Division of `a` by `b`, truncating: the quotient `q` and the remainder
/// `a - q * b` that is smaller than `b` in size and has the sign of `a`
/// (or is zero); the quotient is no larger than `a` in size.
proof fn lemma_trunc_div(a: int, b: int)
    requires
        b != 0,
    ensures
        ({
            let q = trunc_div(a, b);
            let r = a - q * b;
            &&& int_abs(r) < int_abs(b)
            &&& (r == 0 || (r < 0) == (a < 0))
            &&& int_abs(q) == int_abs(a) / int_abs(b)
        }),
{
    let x = int_abs(a);
    let d = int_abs(b);
    vstd::arithmetic::div_mod::lemma_fundamental_div_mod(x, d);
    vstd::arithmetic::div_mod::lemma_mod_pos_bound(x, d);
    vstd::arithmetic::div_mod::lemma_div_pos_is_pos(x, d);
    let q0 = x / d;
    let r0 = x % d;
    assert(x == d * q0 + r0);
    let q = trunc_div(a, b);
    assert(0 <= r0 < d);
    assert(q0 >= 0);
    if a == 0 {
        assert(x / d == 0) by {
            vstd::arithmetic::div_mod::lemma_div_basics_2(d);
        }
    } else if a > 0 && b > 0 {
        assert(q == q0);
        assert(a - q * b == r0) by (nonlinear_arith)
            requires
                a == x,
                b == d,
                q == q0,
                x == d * q0 + r0,
        ;
        assert(int_abs(a - q * b) < int_abs(b));
        assert((a - q * b) == 0 || ((a - q * b) < 0) == (a < 0));
        assert(int_abs(q) == q0);
    } else if a < 0 && b < 0 {
        assert(q == q0);
        assert(a - q * b == -r0) by (nonlinear_arith)
            requires
                a == -x,
                b == -d,
                q == q0,
                x == d * q0 + r0,
        ;
        assert(int_abs(a - q * b) < int_abs(b));
        assert((a - q * b) == 0 || ((a - q * b) < 0) == (a < 0));
        assert(int_abs(q) == q0);
    } else if a < 0 {
        assert(q == -q0);
        assert(a - q * b == -r0) by (nonlinear_arith)
            requires
                a == -x,
                b == d,
                q == -q0,
                x == d * q0 + r0,
        ;
        assert(int_abs(a - q * b) < int_abs(b));
        assert((a - q * b) == 0 || ((a - q * b) < 0) == (a < 0));
        assert(int_abs(q) == q0);
    } else {
        assert(q == -q0);
        assert(a - q * b == r0) by (nonlinear_arith)
            requires
                a == x,
                b == -d,
                q == -q0,
                x == d * q0 + r0,
        ;
        assert(int_abs(a - q * b) < int_abs(b));
        assert((a - q * b) == 0 || ((a - q * b) < 0) == (a < 0));
        assert(int_abs(q) == q0);
    }
}

/// The quotient of two `i32`s fits in an `i32` but for the least `i32` over
/// `-1`.
proof fn lemma_trunc_div_fits(a: i32, b: i32)
    requires
        b != 0,
        !(a == i32::MIN && b == -1),
    ensures
        i32::MIN <= trunc_div(a as int, b as int) <= i32::MAX,
{
    lemma_trunc_div(a as int, b as int);
    let x = int_abs(a as int);
    let d = int_abs(b as int);
    let q = trunc_div(a as int, b as int);
    vstd::arithmetic::div_mod::lemma_div_nonincreasing(x, d);
    if d >= 2 {
        vstd::arithmetic::div_mod::lemma_div_is_ordered_by_denominator(x, 2, d);
        assert(x / 2 <= 0x40000000);
    } else {
        assert(d == 1);
        assert(x / 1 == x);
        // with `b == 1` the quotient is `a`; with `b == -1` it is `-a`, and `a`
        // is not the least `i32`
        if b == -1 {
            assert(a != i32::MIN);
        }
        let r = (a as int) - q * (b as int);
        assert(r == 0);
        if b == 1 {
            assert(q == a);
        } else {
            assert(q * -1 == a);
        }
    }
}

/// What evaluating `left op right` gives, over the integers, when the
/// operands have the values `a` and `b`:
/// - `+`, `-` and `*` give `a + b`, `a - b` and `a * b`, and nothing where
///   that does not fit in an `i32`;
/// - `/` gives nothing for `b == 0` and for the least `i32` over `-1`, and
///   otherwise the `q` for which `a == q * b + r`, where the remainder `r` is
///   smaller than `b` in size and is zero or has the sign of `a`: division
///   truncates toward zero.
pub proof fn law_arithmetic(
    rt: Seq<Seq<RuntimeVariable>>,
    left: Value,
    op: OpKind,
    right: Value,
    ty: Option<Type>,
    a: i32,
    b: i32,
)
    requires
        eval_spec(rt, left) == Some(a),
        eval_spec(rt, right) == Some(b),
    ensures
        ({
            let e = Value::BinaryExpr { left: Box::new(left), op, right: Box::new(right), evaluated_ty: ty };
            let v: int = if op == OpKind::Addition {
                a + b
            } else if op == OpKind::Subtraction {
                a - b
            } else {
                a * b
            };
            &&& op != OpKind::Division ==> (if i32::MIN <= v <= i32::MAX {
                eval_spec(rt, e) == Some(v as i32)
            } else {
                eval_spec(rt, e) is None
            })
            &&& op == OpKind::Division ==> (if b == 0 || (a == i32::MIN && b == -1) {
                eval_spec(rt, e) is None
            } else {
                eval_spec(rt, e) is Some && {
                    let q = eval_spec(rt, e).unwrap();
                    let r = a - q * b;
                    &&& int_abs(r) < int_abs(b as int)
                    &&& (r == 0 || (r < 0) == (a < 0))
                }
            })
        }),
{
    let e = Value::BinaryExpr { left: Box::new(left), op, right: Box::new(right), evaluated_ty: ty };
    assert(eval_spec(rt, e) == apply_op(op, a, b));
    if op == OpKind::Division && b != 0 && !(a == i32::MIN && b == -1) {
        lemma_trunc_div(a as int, b as int);
        lemma_trunc_div_fits(a, b);
    }
}

/// Where an operand of `left op right` has no value, neither has the whole.
pub proof fn law_arithmetic_fails(rt: Seq<Seq<RuntimeVariable>>, left: Value, op: OpKind, right: Value, ty: Option<Type>)
    requires
        eval_spec(rt, left) is None || eval_spec(rt, right) is None,
    ensures
        eval_spec(rt, Value::BinaryExpr { left: Box::new(left), op, right: Box::new(right), evaluated_ty: ty }) is None,
{
}

} // verus!
