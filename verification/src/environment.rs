//! The variable environment: an ordered stack of lexical scopes, each a
//! mapping from variable name to a possibly-uninitialized value.
//!
//! Its model is a sequence of maps from name to `Option<ValueModel>`: the
//! last map is the innermost scope, and `None` stands for a name declared
//! without an initializer. Lookup and assignment walk the stack from the
//! innermost scope outward; the first scope that binds the name wins, which
//! is what makes shadowing work.

use vstd::prelude::*;

use crate::value::RuntimeError;
use crate::value::Value;
use crate::value::ValueModel;

verus! {

/// The model of one scope: what each bound name is bound to.
pub type ScopeModel = Map<Seq<char>, Option<ValueModel>>;

/// The model of the whole environment, innermost scope last.
pub type EnvModel = Seq<ScopeModel>;

/// What one name resolves to in an environment.
pub enum BindingState {
    /// No scope binds the name.
    Unbound,
    /// The nearest binding exists but holds no value yet.
    Declared,
    /// The nearest binding holds this value.
    Initialized(ValueModel),
}

pub open spec fn binding_model(b: Option<Value>) -> Option<ValueModel> {
    match b {
        Some(v) => Some(v@),
        None => None,
    }
}

/// Resolution of a name, innermost scope first.
pub open spec fn env_resolve(env: EnvModel, name: Seq<char>) -> BindingState
    decreases env.len(),
{
    if env.len() == 0 {
        BindingState::Unbound
    } else if env.last().dom().contains(name) {
        match env.last()[name] {
            Some(v) => BindingState::Initialized(v),
            None => BindingState::Declared,
        }
    } else {
        env_resolve(env.drop_last(), name)
    }
}

/// Whether any scope binds the name.
pub open spec fn env_binds(env: EnvModel, name: Seq<char>) -> bool {
    !(env_resolve(env, name) is Unbound)
}

/// Defining a name: the innermost scope gains (or replaces) the binding.
pub open spec fn env_define(env: EnvModel, name: Seq<char>, b: Option<ValueModel>) -> EnvModel {
    if env.len() == 0 {
        env
    } else {
        env.update(env.len() - 1, env.last().insert(name, b))
    }
}

/// Assigning a name: the nearest scope that binds it has the binding
/// overwritten in place; every other scope is unchanged.
pub open spec fn env_assign(env: EnvModel, name: Seq<char>, v: ValueModel) -> EnvModel
    decreases env.len(),
{
    if env.len() == 0 {
        env
    } else if env.last().dom().contains(name) {
        env.update(env.len() - 1, env.last().insert(name, Some(v)))
    } else {
        env_assign(env.drop_last(), name, v).push(env.last())
    }
}

/// What the binding at the end of one scope's entry list resolves to.
spec fn find_binding(entries: Seq<(String, Option<Value>)>, name: Seq<char>) -> Option<
    Option<ValueModel>,
>
    decreases entries.len(),
{
    if entries.len() == 0 {
        None
    } else if entries.last().0@ == name {
        Some(binding_model(entries.last().1))
    } else {
        find_binding(entries.drop_last(), name)
    }
}

/// One scope as a map: entries later in the list override earlier ones.
spec fn scope_map(entries: Seq<(String, Option<Value>)>) -> ScopeModel
    decreases entries.len(),
{
    if entries.len() == 0 {
        Map::empty()
    } else {
        scope_map(entries.drop_last()).insert(entries.last().0@, binding_model(entries.last().1))
    }
}

proof fn lemma_find_binding(entries: Seq<(String, Option<Value>)>, name: Seq<char>)
    ensures
        scope_map(entries).dom().contains(name) <==> find_binding(entries, name) is Some,
        find_binding(entries, name) matches Some(b) ==> scope_map(entries)[name] == b,
    decreases entries.len(),
{
    if entries.len() > 0 {
        lemma_find_binding(entries.drop_last(), name);
    }
}

/// Law: a binding made in a freshly pushed scope is invisible once that
/// scope is popped — the environment returns to exactly its former state.
pub proof fn lemma_block_binding_invisible(env: EnvModel, name: Seq<char>, b: Option<ValueModel>)
    ensures
        env_define(env.push(Map::empty()), name, b).drop_last() =~= env,
{
}

/// Law: a binding made in a freshly pushed inner scope shadows any outer
/// binding of the same name, without error: while the scope is open, the
/// name resolves to the inner binding, whatever the outer scopes hold.
pub proof fn lemma_inner_binding_shadows(env: EnvModel, name: Seq<char>, v: ValueModel)
    ensures
        env_resolve(env_define(env.push(Map::empty()), name, Some(v)), name)
            == BindingState::Initialized(v),
{
    let defined = env_define(env.push(Map::empty()), name, Some(v));
    assert(defined.last() == Map::<Seq<char>, Option<ValueModel>>::empty().insert(name, Some(v)));
}

/// Law: defining a name twice in one scope silently replaces the first
/// binding — the environment is exactly what defining it once would give.
pub proof fn lemma_redefine_replaces(
    env: EnvModel,
    name: Seq<char>,
    b1: Option<ValueModel>,
    b2: Option<ValueModel>,
)
    requires
        env.len() >= 1,
    ensures
        env_define(env_define(env, name, b1), name, b2) =~= env_define(env, name, b2),
{
    assert(env_define(env_define(env, name, b1), name, b2)[env.len() - 1] =~= env_define(
        env,
        name,
        b2,
    )[env.len() - 1]);
}

proof fn lemma_env_assign_at(env: EnvModel, name: Seq<char>, v: ValueModel, i: int)
    requires
        0 <= i < env.len(),
        env[i].dom().contains(name),
        forall|t: int| i < t < env.len() ==> !(#[trigger] env[t]).dom().contains(name),
    ensures
        env_assign(env, name, v) =~= env.update(i, env[i].insert(name, Some(v))),
    decreases env.len(),
{
    if i < env.len() - 1 {
        lemma_env_assign_at(env.drop_last(), name, v, i);
        assert(env_assign(env.drop_last(), name, v).push(env.last()) =~= env.update(
            i,
            env[i].insert(name, Some(v)),
        ));
    }
}

/// The stack of scopes a program run resolves its variables in.
pub struct Environment {
    scopes: Vec<Vec<(String, Option<Value>)>>,
}

impl View for Environment {
    type V = EnvModel;

    closed spec fn view(&self) -> EnvModel {
        self.scopes@.map_values(|entries: Vec<(String, Option<Value>)>| scope_map(entries@))
    }
}

impl Environment {
    /// A fresh environment holding only the global scope.
    pub fn new() -> (r: Self)
        ensures
            r@ =~= seq![Map::<Seq<char>, Option<ValueModel>>::empty()],
    {
        let mut scopes: Vec<Vec<(String, Option<Value>)>> = Vec::new();
        scopes.push(Vec::new());
        Environment { scopes }
    }

    /// Pushes one empty scope; it becomes the innermost.
    pub fn begin_scope(&mut self)
        ensures
            final(self)@ =~= old(self)@.push(Map::empty()),
    {
        self.scopes.push(Vec::new());
    }

    /// Pops the innermost scope. Block execution only ever calls this
    /// paired with a prior `begin_scope`, so the global scope is never the
    /// one popped.
    pub fn end_scope(&mut self)
        ensures
            old(self)@.len() > 0 ==> final(self)@ =~= old(self)@.drop_last(),
            old(self)@.len() == 0 ==> final(self)@ =~= old(self)@,
    {
        let _ = self.scopes.pop();
        proof {
            if old(self)@.len() > 0 {
                assert(final(self)@ =~= old(self)@.drop_last());
            }
        }
    }

    /// Inserts or replaces a binding in the current innermost scope only;
    /// redefining a name there silently replaces the previous binding.
    pub fn define_var(&mut self, name: String, value: Option<Value>)
        requires
            old(self)@.len() >= 1,
        ensures
            final(self)@ =~= env_define(old(self)@, name@, binding_model(value)),
    {
        let ghost name_view = name@;
        let ghost old_scopes = self.scopes@;
        let mut scope = self.scopes.pop().unwrap();
        scope.push((name, value));
        self.scopes.push(scope);
        proof {
            let k = old_scopes.len() - 1;
            assert(self.scopes@ =~= old_scopes.update(k, self.scopes@[k]));
            assert(self.scopes@[k]@.drop_last() =~= old_scopes[k]@);
            assert(scope_map(self.scopes@[k]@) == scope_map(old_scopes[k]@).insert(
                name_view,
                binding_model(value),
            ));
            assert(final(self)@ =~= env_define(old(self)@, name_view, binding_model(value)));
        }
    }

    /// Reads a name, searching scopes from innermost to outermost. Fails
    /// with `UndefinedVariable` when no scope binds the name, and with
    /// `UninitializedVariable` when the nearest binding holds no value.
    pub fn get_var(&self, name: &String) -> (r: Result<Value, RuntimeError>)
        ensures
            match r {
                Ok(v) => env_resolve(self@, name@) == BindingState::Initialized(v@),
                Err(RuntimeError::UninitializedVariable) => env_resolve(self@, name@)
                    == BindingState::Declared,
                Err(RuntimeError::UndefinedVariable) => env_resolve(self@, name@)
                    == BindingState::Unbound,
                Err(_) => false,
            },
    {
        let mut i = self.scopes.len();
        proof {
            assert(self@.take(i as int) =~= self@);
        }
        while i > 0
            invariant
                i <= self.scopes.len(),
                self@.len() == self.scopes.len(),
                env_resolve(self@, name@) == env_resolve(self@.take(i as int), name@),
            decreases i,
        {
            i = i - 1;
            match self.find_in_scope(i, name) {
                Some(b) => {
                    proof {
                        assert(self@.take(i + 1).drop_last() =~= self@.take(i as int));
                        assert(self@.take(i + 1).last() == self@[i as int]);
                    }
                    match b {
                        Some(v) => {
                            return Ok(v);
                        },
                        None => {
                            return Err(RuntimeError::UninitializedVariable);
                        },
                    }
                },
                None => {
                    proof {
                        assert(self@.take(i + 1).drop_last() =~= self@.take(i as int));
                        assert(self@.take(i + 1).last() == self@[i as int]);
                    }
                },
            }
        }
        proof {
            assert(self@.take(0) =~= Seq::<ScopeModel>::empty());
        }
        Err(RuntimeError::UndefinedVariable)
    }

    /// Overwrites the nearest existing binding for `name`, innermost scope
    /// first, and returns the assigned value; the binding's scope depth is
    /// preserved, so assignment never creates a new binding. Fails with
    /// `UndefinedVariable` when no scope binds the name.
    pub fn assign_var(&mut self, name: &String, value: Value) -> (r: Result<Value, RuntimeError>)
        ensures
            match r {
                Ok(v) => env_binds(old(self)@, name@) && v@ == value@ && final(self)@
                    =~= env_assign(old(self)@, name@, value@),
                Err(RuntimeError::UndefinedVariable) => !env_binds(old(self)@, name@)
                    && final(self)@ =~= old(self)@,
                Err(_) => false,
            },
    {
        let mut i = self.scopes.len();
        proof {
            assert(self@.take(i as int) =~= self@);
        }
        while i > 0
            invariant
                i <= self.scopes.len(),
                self@.len() == self.scopes.len(),
                self@ == old(self)@,
                self.scopes@ == old(self).scopes@,
                env_resolve(self@, name@) == env_resolve(self@.take(i as int), name@),
                forall|t: int| i <= t < self@.len() ==> !(#[trigger] self@[t]).dom().contains(
                    name@,
                ),
            decreases i,
        {
            i = i - 1;
            proof {
                assert(self@.take(i as int + 1).drop_last() =~= self@.take(i as int));
                assert(self@.take(i as int + 1).last() == self@[i as int]);
            }
            match self.find_in_scope(i, name) {
                Some(_) => {
                    proof {
                        lemma_env_assign_at(self@, name@, value@, i as int);
                    }
                    let ret = value.duplicate();
                    let ghost old_entries = self.scopes@[i as int]@;
                    let scope = &mut self.scopes[i];
                    scope.push((name.clone(), Some(value)));
                    proof {
                        assert(self.scopes@[i as int]@.drop_last() =~= old_entries);
                        assert(scope_map(self.scopes@[i as int]@) == scope_map(
                            old_entries,
                        ).insert(name@, Some(value@)));
                        assert(final(self)@ =~= old(self)@.update(
                            i as int,
                            old(self)@[i as int].insert(name@, Some(value@)),
                        ));
                    }
                    return Ok(ret);
                },
                None => {},
            }
        }
        proof {
            assert(self@.take(0) =~= Seq::<ScopeModel>::empty());
        }
        Err(RuntimeError::UndefinedVariable)
    }

    /// The visible binding for `name` in scope `i`, if that scope has one.
    fn find_in_scope(&self, i: usize, name: &String) -> (r: Option<Option<Value>>)
        requires
            i < self.scopes@.len(),
        ensures
            self@.len() == self.scopes@.len(),
            match r {
                Some(b) => self@[i as int].dom().contains(name@) && self@[i as int][name@]
                    == binding_model(b),
                None => !self@[i as int].dom().contains(name@),
            },
    {
        let entries = &self.scopes[i];
        let ghost es = entries@;
        proof {
            assert(self@[i as int] == scope_map(es));
            assert(es.take(entries@.len() as int) =~= es);
        }
        let mut j = entries.len();
        while j > 0
            invariant
                j <= es.len(),
                i < self.scopes@.len(),
                es == self.scopes@[i as int]@,
                entries@ == es,
                self@.len() == self.scopes@.len(),
                self@[i as int] == scope_map(es),
                find_binding(es, name@) == find_binding(es.take(j as int), name@),
            decreases j,
        {
            j = j - 1;
            proof {
                assert(es.take(j + 1).drop_last() =~= es.take(j as int));
                assert(es.take(j + 1).last() == es[j as int]);
            }
            if entries[j].0 == *name {
                let b = match &entries[j].1 {
                    Some(v) => Some(v.duplicate()),
                    None => None,
                };
                proof {
                    lemma_find_binding(es, name@);
                }
                return Some(b);
            }
        }
        proof {
            assert(es.take(0) =~= Seq::<(String, Option<Value>)>::empty());
            lemma_find_binding(es, name@);
        }
        None
    }
}

} // verus!
