//! Lexical environments: scopes of variables, each enclosed by another.
//!
//! All scopes live in one store and are named by their index in it. A
//! scope is only ever enclosed by one made before it, so following the
//! enclosing scopes always ends. Closures hold the index of the scope
//! they were declared in.

use vstd::prelude::*;
use crate::callable::{Callable, NativeFunction, NativeKind, Value, native_functions};

verus! {

/// The mathematical value of a scope: its variables, and the scope that
/// encloses it, if any.
pub struct ScopeModel {
    pub vars: Map<Seq<char>, Value>,
    pub enclosing: Option<int>,
}

/// Every scope is enclosed, if at all, by one made before it.
pub open spec fn env_wf(m: Seq<ScopeModel>) -> bool {
    forall|i: int|
        0 <= i < m.len() ==> match #[trigger] m[i].enclosing {
            Some(p) => 0 <= p < i,
            None => true,
        }
}

/// The value `name` has as seen from scope `s`: its own variable if it
/// has one, else what its enclosing scope sees.
pub open spec fn lookup(m: Seq<ScopeModel>, s: int, name: Seq<char>) -> Option<Value>
    decreases s,
{
    if !(0 <= s < m.len()) {
        None
    } else if m[s].vars.contains_key(name) {
        Some(m[s].vars[name])
    } else {
        match m[s].enclosing {
            Some(p) => if 0 <= p < s {
                lookup(m, p, name)
            } else {
                None
            },
            None => None,
        }
    }
}

/// The scope whose variable `name` is, as seen from scope `s`.
pub open spec fn owner(m: Seq<ScopeModel>, s: int, name: Seq<char>) -> Option<int>
    decreases s,
{
    if !(0 <= s < m.len()) {
        None
    } else if m[s].vars.contains_key(name) {
        Some(s)
    } else {
        match m[s].enclosing {
            Some(p) => if 0 <= p < s {
                owner(m, p, name)
            } else {
                None
            },
            None => None,
        }
    }
}

/// The scopes after `name` is given `value` in scope `s`.
pub open spec fn define_in(m: Seq<ScopeModel>, s: int, name: Seq<char>, value: Value) -> Seq<
    ScopeModel,
> {
    m.update(s, ScopeModel { vars: m[s].vars.insert(name, value), enclosing: m[s].enclosing })
}

/// The scopes after a new, empty scope enclosed by `p` is made.
pub open spec fn enclose(m: Seq<ScopeModel>, p: int) -> Seq<ScopeModel> {
    m.push(ScopeModel { vars: Map::empty(), enclosing: Some(p) })
}

/// Defining a variable, or making a new scope, keeps the store well formed.
pub proof fn law_wf_kept(m: Seq<ScopeModel>, s: int, name: Seq<char>, value: Value, p: int)
    requires
        env_wf(m),
        0 <= s < m.len(),
        0 <= p < m.len(),
    ensures
        env_wf(define_in(m, s, name, value)),
        env_wf(enclose(m, p)),
{
    let d = define_in(m, s, name, value);
    assert forall|i: int| 0 <= i < d.len() implies match #[trigger] d[i].enclosing {
        Some(q) => 0 <= q < i,
        None => true,
    } by {
        assert(d[i].enclosing == m[i].enclosing);
    }
    let e = enclose(m, p);
    assert forall|i: int| 0 <= i < e.len() implies match #[trigger] e[i].enclosing {
        Some(q) => 0 <= q < i,
        None => true,
    } by {
        if i < m.len() {
            assert(e[i] == m[i]);
        }
    }
}

/// A read gives back what a write wrote: after `name` is defined in scope
/// `s`, scope `s` sees the value defined.
pub proof fn law_get_after_define(m: Seq<ScopeModel>, s: int, name: Seq<char>, value: Value)
    requires
        0 <= s < m.len(),
    ensures
        lookup(define_in(m, s, name, value), s, name) == Some(value),
{
}

/// Defining one name changes what no scope sees of another name.
pub proof fn law_define_other_name(
    m: Seq<ScopeModel>,
    s: int,
    name: Seq<char>,
    value: Value,
    t: int,
    other: Seq<char>,
)
    requires
        0 <= s < m.len(),
        other != name,
    ensures
        lookup(define_in(m, s, name, value), t, other) == lookup(m, t, other),
    decreases t,
{
    let d = define_in(m, s, name, value);
    if 0 <= t < m.len() {
        assert(d[t].vars.contains_key(other) == m[t].vars.contains_key(other));
        if m[t].vars.contains_key(other) {
            assert(d[t].vars[other] == m[t].vars[other]);
        } else {
            assert(d[t].enclosing == m[t].enclosing);
            match m[t].enclosing {
                Some(q) => {
                    if 0 <= q < t {
                        law_define_other_name(m, s, name, value, q, other);
                    }
                },
                None => {},
            }
        }
    }
}

/// A definition in a scope is not seen from the scopes made before it,
/// such as those that enclose it: an inner variable never leaks out.
pub proof fn law_define_unseen_outside(
    m: Seq<ScopeModel>,
    s: int,
    name: Seq<char>,
    value: Value,
    t: int,
    k: Seq<char>,
)
    requires
        0 <= s < m.len(),
        t < s,
    ensures
        lookup(define_in(m, s, name, value), t, k) == lookup(m, t, k),
    decreases t,
{
    let d = define_in(m, s, name, value);
    if 0 <= t {
        assert(d[t] == m[t]);
        match m[t].enclosing {
            Some(q) => {
                if 0 <= q < t {
                    law_define_unseen_outside(m, s, name, value, q, k);
                }
            },
            None => {},
        }
    }
}

/// A new scope sees what the scope enclosing it sees, and making it
/// changes what no other scope sees.
pub proof fn law_enclosed_sees_enclosing(m: Seq<ScopeModel>, p: int, k: Seq<char>, t: int)
    requires
        0 <= p < m.len(),
    ensures
        lookup(enclose(m, p), m.len() as int, k) == lookup(m, p, k),
        t < m.len() ==> lookup(enclose(m, p), t, k) == lookup(m, t, k),
    decreases t,
{
    let e = enclose(m, p);
    lemma_lookup_prefix(m, e, p, k);
    if 0 <= t < m.len() {
        lemma_lookup_prefix(m, e, t, k);
    }
}

proof fn lemma_lookup_prefix(m: Seq<ScopeModel>, e: Seq<ScopeModel>, t: int, k: Seq<char>)
    requires
        m.len() <= e.len(),
        forall|i: int| 0 <= i < m.len() ==> e[i] == m[i],
        0 <= t < m.len(),
    ensures
        lookup(e, t, k) == lookup(m, t, k),
    decreases t,
{
    match m[t].enclosing {
        Some(q) => {
            if 0 <= q < t {
                lemma_lookup_prefix(m, e, q, k);
            }
        },
        None => {},
    }
}

/// After an assignment to the variable a scope sees, that scope sees the
/// value assigned.
pub proof fn law_get_after_assign(m: Seq<ScopeModel>, s: int, name: Seq<char>, value: Value)
    requires
        owner(m, s, name) is Some,
    ensures
        lookup(define_in(m, owner(m, s, name)->0, name, value), s, name) == Some(value),
    decreases s,
{
    let o = owner(m, s, name)->0;
    let d = define_in(m, o, name, value);
    lemma_owner_range(m, s, name);
    if !m[s].vars.contains_key(name) {
        let q = m[s].enclosing->0;
        assert(d[s] == m[s]);
        law_get_after_assign(m, q, name, value);
    }
}

/// The scope that owns a variable is the scope itself or one it is
/// (transitively) enclosed by, and holds the variable.
pub proof fn lemma_owner_range(m: Seq<ScopeModel>, s: int, name: Seq<char>)
    requires
        owner(m, s, name) is Some,
    ensures
        0 <= owner(m, s, name)->0 <= s < m.len(),
        m[owner(m, s, name)->0].vars.contains_key(name),
        owner(m, s, name)->0 == s <==> m[s].vars.contains_key(name),
    decreases s,
{
    if !m[s].vars.contains_key(name) {
        lemma_owner_range(m, m[s].enclosing->0, name);
    }
}

struct Scope {
    names: Vec<String>,
    values: Vec<Value>,
    enclosing: Option<usize>,
}

/// Index of the first of `names` from `i` on that spells `k`, or -1.
spec fn find_from(names: Seq<String>, k: Seq<char>, i: int) -> int
    decreases names.len() - i,
{
    if i < 0 || i >= names.len() {
        -1
    } else if names[i]@ == k {
        i
    } else {
        find_from(names, k, i + 1)
    }
}

spec fn scope_model(sc: Scope) -> ScopeModel {
    ScopeModel {
        vars: Map::new(
            |k: Seq<char>| find_from(sc.names@, k, 0) >= 0,
            |k: Seq<char>| sc.values@[find_from(sc.names@, k, 0)],
        ),
        enclosing: match sc.enclosing {
            Some(p) => Some(p as int),
            None => None,
        },
    }
}

proof fn lemma_find_from_range(names: Seq<String>, k: Seq<char>, i: int)
    requires
        0 <= i,
    ensures
        find_from(names, k, i) == -1 || (i <= find_from(names, k, i) < names.len() && names[find_from(
            names,
            k,
            i,
        )]@ == k),
        find_from(names, k, i) == -1 ==> forall|j: int| i <= j < names.len() ==> names[j]@ != k,
    decreases names.len() - i,
{
    if i < names.len() && names[i]@ != k {
        lemma_find_from_range(names, k, i + 1);
    }
}

proof fn lemma_find_from_push(names: Seq<String>, n: String, k: Seq<char>, i: int)
    requires
        0 <= i <= names.len(),
    ensures
        find_from(names.push(n), k, i) == (if find_from(names, k, i) >= 0 {
            find_from(names, k, i)
        } else if n@ == k {
            names.len() as int
        } else {
            -1
        }),
    decreases names.len() - i,
{
    let pushed = names.push(n);
    if i < names.len() {
        assert(pushed[i] == names[i]);
        lemma_find_from_push(names, n, k, i + 1);
    } else {
        assert(pushed[i] == n);
        assert(find_from(pushed, k, i + 1) == -1);
    }
}

/// The store of all scopes, each named by its index.
///
/// Scopes are never freed: every block run and every call adds one that
/// stays for as long as the store lives, since a function value may still
/// close over it. Memory therefore grows with the number of blocks and
/// calls run, where scopes that nothing refers to any more could be
/// dropped.
pub struct Env {
    scopes: Vec<Scope>,
}

impl View for Env {
    type V = Seq<ScopeModel>;

    closed spec fn view(&self) -> Seq<ScopeModel> {
        Seq::new(self.scopes@.len(), |i: int| scope_model(self.scopes@[i]))
    }
}

impl Env {
    /// The store is well formed: each scope has a value per name, and is
    /// enclosed only by a scope made before it.
    pub closed spec fn wf(&self) -> bool {
        &&& forall|i: int|
            0 <= i < self.scopes@.len() ==> (#[trigger] self.scopes@[i]).names@.len()
                == self.scopes@[i].values@.len()
        &&& env_wf(self@)
    }

    /// A store with the one, global scope, empty.
    pub fn new() -> (e: Env)
        ensures
            e.wf(),
            e@ == seq![ScopeModel { vars: Map::empty(), enclosing: None }],
    {
        let mut scopes: Vec<Scope> = Vec::new();
        scopes.push(Scope { names: Vec::new(), values: Vec::new(), enclosing: None });
        let e = Env { scopes };
        assert(scope_model(e.scopes@[0]).vars =~= Map::empty());
        assert(e@ =~= seq![ScopeModel { vars: Map::empty(), enclosing: None }]);
        e
    }

    /// Makes a new, empty scope enclosed by `enclosing`, and returns it.
    pub fn enclosed(&mut self, enclosing: usize) -> (s: usize)
        requires
            old(self).wf(),
            enclosing < old(self)@.len(),
        ensures
            final(self).wf(),
            s == old(self)@.len(),
            final(self)@ == enclose(old(self)@, enclosing as int),
    {
        let s = self.scopes.len();
        self.scopes.push(Scope { names: Vec::new(), values: Vec::new(), enclosing: Some(enclosing) });
        assert(scope_model(self.scopes@[s as int]).vars =~= Map::empty());
        assert(self@ =~= enclose(old(self)@, enclosing as int));
        s
    }

    /// The global scope of a program: the native functions, and nothing else.
    pub fn global() -> (e: Env)
        ensures
            e.wf(),
            e@.len() == 1,
            e@[0].enclosing is None,
            e@[0].vars.dom() == set!["clock"@],
            e@[0].vars["clock"@] matches Value::Callable(Callable::Native(n)) && n.name@
                == "clock"@ && n.arity == 0 && n.kind == NativeKind::Clock,
    {
        let mut env = Env::new();
        let natives = native_functions();
        let n = natives.len();
        for i in 0..n
            invariant
                n == natives@.len(),
                natives@.len() == 1,
                natives@[0].0@ == "clock"@,
                natives@[0].1 == Callable::Native(
                    NativeFunction { name: natives@[0].0, arity: 0, kind: NativeKind::Clock },
                ),
                env.wf(),
                env@.len() == 1,
                env@[0].enclosing is None,
                i == 0 ==> env@[0].vars.dom() =~= Set::<Seq<char>>::empty(),
                i == 1 ==> env@[0].vars.dom() =~= set!["clock"@],
                i == 1 ==> env@[0].vars["clock"@] == Value::Callable(natives@[0].1),
        {
            env.define_native(0, natives[i].0.as_str(), natives[i].1.clone());
        }
        env
    }

    /// Gives `name` the value `value` in scope `scope`.
    pub fn define(&mut self, scope: usize, name: String, value: Value)
        requires
            old(self).wf(),
            scope < old(self)@.len(),
        ensures
            final(self).wf(),
            final(self)@ == define_in(old(self)@, scope as int, name@, value),
    {
        let ghost m = self@;
        let ghost k = name@;
        let idx = Env::find(&self.scopes[scope].names, name.as_str());
        proof {
            lemma_find_from_range(self.scopes@[scope as int].names@, k, 0);
        }
        let mut sc = Scope { names: Vec::new(), values: Vec::new(), enclosing: None };
        std::mem::swap(&mut sc, &mut self.scopes[scope]);
        let ghost old_sc = sc;
        match idx {
            Some(i) => {
                sc.values.set(i, value);
                assert(sc.names@ == old_sc.names@);
                assert(sc.values@ == old_sc.values@.update(i as int, value));
                proof {
                    assert forall|key: Seq<char>| find_from(sc.names@, key, 0) >= 0 && key != k
                        implies find_from(sc.names@, key, 0) != i by {
                        lemma_find_from_range(sc.names@, key, 0);
                        lemma_find_from_range(sc.names@, k, 0);
                    }
                    assert forall|key: Seq<char>| find_from(sc.names@, key, 0) >= 0 implies
                        find_from(sc.names@, key, 0) < sc.names@.len() by {
                        lemma_find_from_range(sc.names@, key, 0);
                    }
                    assert(scope_model(sc).vars =~= scope_model(old_sc).vars.insert(k, value));
                }
            },
            None => {
                proof {
                    assert forall|key: Seq<char>|
                        #![auto]
                        find_from(sc.names@.push(name), key, 0) == (if find_from(sc.names@, key, 0)
                            >= 0 {
                            find_from(sc.names@, key, 0)
                        } else if k == key {
                            sc.names@.len() as int
                        } else {
                            -1
                        }) by {
                        lemma_find_from_push(sc.names@, name, key, 0);
                    }
                    assert forall|key: Seq<char>| find_from(sc.names@, key, 0) >= 0 implies
                        find_from(sc.names@, key, 0) < sc.names@.len() by {
                        lemma_find_from_range(sc.names@, key, 0);
                    }
                }
                sc.names.push(name);
                sc.values.push(value);
                assert(scope_model(sc).vars =~= scope_model(old_sc).vars.insert(k, value));
            },
        }
        assert(sc.names@.len() == sc.values@.len());
        self.scopes.set(scope, sc);
        assert(self@ =~= define_in(m, scope as int, k, value));
        assert forall|i: int| 0 <= i < self.scopes@.len() implies (#[trigger] self.scopes@[i]).names@.len()
            == self.scopes@[i].values@.len() by {
            if i != scope {
                assert(self.scopes@[i] == old(self).scopes@[i]);
            }
        }
        assert(env_wf(self@)) by {
            assert forall|i: int| 0 <= i < self@.len() implies match #[trigger] self@[i].enclosing {
                Some(p) => 0 <= p < i,
                None => true,
            } by {
                assert(self@[i].enclosing == m[i].enclosing);
            }
        }
    }

    /// Where `name` is among `names`, if it is.
    fn find(names: &Vec<String>, name: &str) -> (r: Option<usize>)
        ensures
            match r {
                Some(i) => i as int == find_from(names@, name@, 0),
                None => find_from(names@, name@, 0) == -1,
            },
    {
        let key = String::from_str(name);
        let mut i: usize = 0;
        while i < names.len()
            invariant
                i <= names@.len(),
                key@ == name@,
                find_from(names@, name@, 0) == find_from(names@, name@, i as int),
            decreases names@.len() - i,
        {
            if names[i] == key {
                return Some(i);
            }
            i = i + 1;
        }
        None
    }

    /// The value `name` has as seen from scope `scope`.
    pub fn get(&self, scope: usize, name: &str) -> (r: Option<Value>)
        requires
            self.wf(),
            scope < self@.len(),
        ensures
            r == lookup(self@, scope as int, name@),
    {
        let mut cur = scope;
        loop
            invariant
                self.wf(),
                cur < self@.len(),
                lookup(self@, cur as int, name@) == lookup(self@, scope as int, name@),
            decreases cur,
        {
            let sc = &self.scopes[cur];
            assert(self@[cur as int] == scope_model(self.scopes@[cur as int]));
            proof {
                lemma_find_from_range(sc.names@, name@, 0);
            }
            match Env::find(&sc.names, name) {
                Some(i) => {
                    assert(self@[cur as int].vars.contains_key(name@));
                    return Some(sc.values[i].clone());
                },
                None => {},
            }
            assert(!self@[cur as int].vars.contains_key(name@));
            match sc.enclosing {
                Some(p) => {
                    assert(self@[cur as int].enclosing == Some(p as int));
                    cur = p;
                },
                None => {
                    return None;
                },
            }
        }
    }

    /// Gives `value` to the variable `name` that scope `scope` sees, if
    /// there is one.
    pub fn assign(&mut self, scope: usize, name: &str, value: Value) -> (r: Option<()>)
        requires
            old(self).wf(),
            scope < old(self)@.len(),
        ensures
            final(self).wf(),
            match owner(old(self)@, scope as int, name@) {
                Some(o) => r is Some && final(self)@ == define_in(old(self)@, o, name@, value),
                None => r is None && final(self)@ == old(self)@,
            },
    {
        let ghost m = self@;
        let mut cur = scope;
        loop
            invariant
                self.wf(),
                self@ == m,
                m == old(self)@,
                cur < self@.len(),
                owner(m, cur as int, name@) == owner(m, scope as int, name@),
            decreases cur,
        {
            assert(self@[cur as int] == scope_model(self.scopes@[cur as int]));
            proof {
                lemma_find_from_range(self.scopes@[cur as int].names@, name@, 0);
            }
            match Env::find(&self.scopes[cur].names, name) {
                Some(i) => {
                    assert(self@[cur as int].vars.contains_key(name@));
                    assert(owner(m, cur as int, name@) == Some(cur as int));
                    self.define(cur, String::from_str(name), value);
                    return Some(());
                },
                None => {},
            }
            assert(!self@[cur as int].vars.contains_key(name@));
            match self.scopes[cur].enclosing {
                Some(p) => {
                    assert(self@[cur as int].enclosing == Some(p as int));
                    cur = p;
                },
                None => {
                    assert(self@[cur as int].enclosing is None);
                    assert(owner(m, cur as int, name@) is None);
                    return None;
                },
            }
        }
    }

    /// Gives the native function `function` the name `name` in scope `scope`.
    pub fn define_native(&mut self, scope: usize, name: &str, function: Callable)
        requires
            old(self).wf(),
            scope < old(self)@.len(),
        ensures
            final(self).wf(),
            final(self)@ == define_in(old(self)@, scope as int, name@, Value::Callable(function)),
    {
        self.define(scope, String::from_str(name), Value::Callable(function));
    }
}

} // verus!
