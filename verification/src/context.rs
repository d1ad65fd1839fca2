//! Variable scopes and the facts about the running program.
use vstd::prelude::*;
use crate::text::same_text;
use crate::value::{SVal, Value, entry_views};

verus! {

/// One scope: bindings from names to values, each name at most once.
pub type Scope = Vec<(String, Value)>;

/// The map that an association list denotes; a later entry wins over an
/// earlier one with the same key.
pub open spec fn assoc_map(es: Seq<(Seq<char>, SVal)>) -> Map<Seq<char>, SVal>
    decreases es.len(),
{
    if es.len() == 0 {
        Map::empty()
    } else {
        assoc_map(es.drop_last()).insert(es.last().0, es.last().1)
    }
}

/// No key occurs twice.
pub open spec fn keys_distinct(es: Seq<(Seq<char>, SVal)>) -> bool {
    forall|i: int, j: int| 0 <= i < es.len() && 0 <= j < es.len() && i != j ==> es[i].0 != es[j].0
}

pub proof fn lemma_assoc_map_dom(es: Seq<(Seq<char>, SVal)>, k: Seq<char>)
    ensures
        assoc_map(es).dom().contains(k) <==> exists|i: int| 0 <= i < es.len() && es[i].0 == k,
    decreases es.len(),
{
    if es.len() > 0 {
        lemma_assoc_map_dom(es.drop_last(), k);
        if assoc_map(es).dom().contains(k) && es.last().0 != k {
            let i = choose|i: int| 0 <= i < es.drop_last().len() && es.drop_last()[i].0 == k;
            assert(es[i].0 == k);
        }
        if exists|i: int| 0 <= i < es.len() && es[i].0 == k {
            let i = choose|i: int| 0 <= i < es.len() && es[i].0 == k;
            if i < es.len() - 1 {
                assert(es.drop_last()[i].0 == k);
            }
        }
    }
}

pub proof fn lemma_assoc_map_at(es: Seq<(Seq<char>, SVal)>, j: int)
    requires
        keys_distinct(es),
        0 <= j < es.len(),
    ensures
        assoc_map(es).dom().contains(es[j].0),
        assoc_map(es)[es[j].0] == es[j].1,
    decreases es.len(),
{
    if j < es.len() - 1 {
        lemma_assoc_map_at(es.drop_last(), j);
    }
}

pub proof fn lemma_assoc_map_update(es: Seq<(Seq<char>, SVal)>, j: int, v: SVal)
    requires
        keys_distinct(es),
        0 <= j < es.len(),
    ensures
        assoc_map(es.update(j, (es[j].0, v))) == assoc_map(es).insert(es[j].0, v),
        keys_distinct(es.update(j, (es[j].0, v))),
    decreases es.len(),
{
    let es2 = es.update(j, (es[j].0, v));
    if j == es.len() - 1 {
        assert(es2.drop_last() =~= es.drop_last());
        assert(assoc_map(es2) =~= assoc_map(es).insert(es[j].0, v));
    } else {
        lemma_assoc_map_update(es.drop_last(), j, v);
        assert(es2.drop_last() =~= es.drop_last().update(j, (es[j].0, v)));
        assert(assoc_map(es2) =~= assoc_map(es).insert(es[j].0, v));
    }
}

/// The first scope, searching from the innermost outwards, that binds `k`,
/// and its binding.
pub open spec fn env_lookup(env: Seq<Map<Seq<char>, SVal>>, k: Seq<char>) -> Option<SVal>
    decreases env.len(),
{
    if env.len() == 0 {
        None
    } else if env.last().dom().contains(k) {
        Some(env.last()[k])
    } else {
        env_lookup(env.drop_last(), k)
    }
}

/// The scopes of a running program, outermost first.
pub type Env = Seq<Map<Seq<char>, SVal>>;

/// Binds `k` to `v` in the innermost scope.
pub open spec fn env_set(env: Env, k: Seq<char>, v: SVal) -> Env {
    env.update(env.len() - 1, env.last().insert(k, v))
}

/// Closes the innermost scope unless it is the only one.
pub open spec fn env_pop(env: Env) -> Env {
    if env.len() > 1 {
        env.drop_last()
    } else {
        env
    }
}

/// Opens a scope in which `args` is bound to the arguments of a call.
pub open spec fn env_enter(env: Env, args: Seq<SVal>) -> Env {
    env.push(Map::empty().insert("args"@, SVal::List(args)))
}

/// The model of an optional value.
pub open spec fn opt_view(o: Option<Value>) -> Option<SVal> {
    match o {
        Some(v) => Some(v@),
        None => None,
    }
}

/// The nested scopes of a running program: `scopes[depth]` is the innermost.
pub struct Context {
    pub scopes: Vec<Scope>,
    pub depth: i32,
}

impl View for Context {
    type V = Seq<Map<Seq<char>, SVal>>;

    open spec fn view(&self) -> Seq<Map<Seq<char>, SVal>> {
        Seq::new(self.scopes@.len(), |i: int| assoc_map(entry_views(self.scopes@[i]@)))
    }
}

impl Context {
    /// No scope binds a name twice.
    pub open spec fn scopes_distinct(&self) -> bool {
        forall|i: int| 0 <= i < self.scopes@.len() ==> keys_distinct(#[trigger] entry_views(self.scopes@[i]@))
    }

    /// `depth` indexes the innermost scope, and no scope binds a name twice.
    pub open spec fn wf(&self) -> bool {
        &&& 0 <= self.depth
        &&& self.scopes@.len() == self.depth + 1
        &&& self.scopes_distinct()
    }

    /// A context with one empty, global scope.
    pub fn new() -> (r: Context)
        ensures
            r.wf(),
            r.depth == 0,
            r@ == seq![Map::<Seq<char>, SVal>::empty()],
    {
        let mut scopes: Vec<Scope> = Vec::new();
        scopes.push(Vec::new());
        let r = Context { scopes, depth: 0 };
        proof {
            assert(entry_views(r.scopes@[0]@) =~= Seq::empty());
            assert(r@ =~= seq![Map::<Seq<char>, SVal>::empty()]);
        }
        r
    }

    /// Binds `k` to `v` in the innermost scope, replacing an earlier binding
    /// of `k` there.
    pub fn set(&mut self, k: String, v: Value)
        requires
            old(self).wf(),
        ensures
            final(self).wf(),
            final(self).depth == old(self).depth,
            final(self)@ == env_set(old(self)@, k@, v@),
    {
        let ghost old_view = self@;
        let d = self.depth as usize;
        let mut top = self.scopes.pop().unwrap();
        let ghost es = entry_views(top@);
        assert(es == entry_views(old(self).scopes@[d as int]@));
        let found = find_key(&top, k.as_str());
        let ghost kk = k@;
        let ghost vv = v@;
        match found {
            Some(j) => {
                top.set(j, (k, v));
                proof {
                    lemma_assoc_map_update(es, j as int, vv);
                    assert(entry_views(top@) =~= es.update(j as int, (es[j as int].0, vv)));
                }
            },
            None => {
                top.push((k, v));
                proof {
                    assert(entry_views(top@) =~= es.push((kk, vv)));
                    assert(entry_views(top@).drop_last() =~= es);
                    assert(keys_distinct(entry_views(top@)));
                }
            },
        }
        self.scopes.push(top);
        proof {
            assert forall|i: int| 0 <= i < self.scopes@.len() implies keys_distinct(#[trigger] entry_views(self.scopes@[i]@)) by {
                if i < d {
                    assert(self.scopes@[i] == old(self).scopes@[i]);
                }
            }
            assert(self@ =~= old_view.update(d as int, old_view[d as int].insert(kk, vv))) by {
                assert forall|i: int| 0 <= i < self@.len() implies self@[i] == old_view.update(d as int, old_view[d as int].insert(kk, vv))[i] by {
                    if i < d {
                        assert(self.scopes@[i] == old(self).scopes@[i]);
                    }
                }
            }
        }
    }

    /// The binding of `k` in the innermost scope that binds it.
    pub fn get(&self, k: &str) -> (r: Option<Value>)
        requires
            self.scopes_distinct(),
        ensures
            opt_view(r) == env_lookup(self@, k@),
    {
        let mut d: usize = self.scopes.len();
        assert(self@.take(d as int) =~= self@);
        while d > 0
            invariant
                self.scopes_distinct(),
                d <= self.scopes@.len(),
                env_lookup(self@, k@) == env_lookup(self@.take(d as int), k@),
            decreases d,
        {
            let scope = &self.scopes[d - 1];
            let ghost es = entry_views(scope@);
            assert(self@.take(d as int).last() == assoc_map(es));
            assert(self@.take(d as int).drop_last() =~= self@.take(d - 1));
            match find_key(scope, k) {
                Some(j) => {
                    proof {
                        lemma_assoc_map_at(es, j as int);
                    }
                    return Some(scope[j].1.copy());
                },
                None => {
                    proof {
                        lemma_assoc_map_dom(es, k@);
                    }
                },
            }
            d -= 1;
        }
        None
    }

    /// Opens a new, empty innermost scope.
    pub fn push_scope(&mut self)
        requires
            old(self).wf(),
            old(self).depth < i32::MAX,
        ensures
            final(self).wf(),
            final(self).depth == old(self).depth + 1,
            final(self)@ == old(self)@.push(Map::empty()),
    {
        self.scopes.push(Vec::new());
        self.depth += 1;
        proof {
            let n = old(self).scopes@.len();
            assert(entry_views(self.scopes@[n as int]@) =~= Seq::empty());
            assert forall|i: int| 0 <= i < self.scopes@.len() implies keys_distinct(#[trigger] entry_views(self.scopes@[i]@)) by {
                if i < n {
                    assert(self.scopes@[i] == old(self).scopes@[i]);
                }
            }
            assert(self@ =~= old(self)@.push(Map::empty()));
        }
    }

    /// Closes the innermost scope, unless it is the global one.
    pub fn pop_scope(&mut self)
        requires
            old(self).wf(),
        ensures
            final(self).wf(),
            final(self)@ == env_pop(old(self)@),
            old(self).depth > 0 ==> final(self).depth == old(self).depth - 1,
            old(self).depth == 0 ==> *final(self) == *old(self),
    {
        if self.depth > 0 {
            self.scopes.pop();
            self.depth -= 1;
            proof {
                assert forall|i: int| 0 <= i < self.scopes@.len() implies keys_distinct(#[trigger] entry_views(self.scopes@[i]@)) by {
                    assert(self.scopes@[i] == old(self).scopes@[i]);
                }
                assert(self@ =~= old(self)@.drop_last());
            }
        }
    }
}

/// The position of the entry with key `k`, if there is one.
pub fn find_key(scope: &Vec<(String, Value)>, k: &str) -> (r: Option<usize>)
    ensures
        match r {
            Some(j) => j < scope@.len() && scope@[j as int].0@ == k@,
            None => forall|i: int| 0 <= i < scope@.len() ==> #[trigger] scope@[i].0@ != k@,
        },
        r is None <==> !(exists|i: int| 0 <= i < scope@.len() && entry_views(scope@)[i].0 == k@),
{
    let mut j: usize = 0;
    while j < scope.len()
        invariant
            j <= scope@.len(),
            forall|i: int| 0 <= i < j ==> #[trigger] scope@[i].0@ != k@,
        decreases scope.len() - j,
    {
        if same_text(scope[j].0.as_str(), k) {
            proof {
                assert(entry_views(scope@)[j as int].0 == k@);
            }
            return Some(j);
        }
        j += 1;
    }
    proof {
        assert forall|i: int| 0 <= i < scope@.len() implies entry_views(scope@)[i].0 != k@ by {
            assert(scope@[i].0@ != k@);
        }
    }
    None
}

/// Facts about the running program that builtins can read.
#[derive(Debug, Clone)]
pub struct RuntimeContext {
    pub in_repl: bool,
    pub in_include: bool,
    pub argv: Vec<String>,
}

/// The model of a [`RuntimeContext`].
pub struct SRuntime {
    pub in_repl: bool,
    pub in_include: bool,
    pub argv: Seq<Seq<char>>,
}

impl View for RuntimeContext {
    type V = SRuntime;

    open spec fn view(&self) -> SRuntime {
        SRuntime {
            in_repl: self.in_repl,
            in_include: self.in_include,
            argv: Seq::new(self.argv@.len(), |i: int| self.argv@[i]@),
        }
    }
}

} // verus!
