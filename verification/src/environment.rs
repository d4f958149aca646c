use vstd::prelude::*;

verus! {

/// The bindings of one scope, as a map from names to values (the names of a
/// scope are distinct, see `distinct_names`).
pub open spec fn scope_map<V>(values: Seq<(String, V)>) -> Map<Seq<char>, V>
    decreases values.len(),
{
    if values.len() == 0 {
        Map::empty()
    } else {
        scope_map(values.drop_last()).insert(values.last().0@, values.last().1)
    }
}

pub open spec fn distinct_names<V>(values: Seq<(String, V)>) -> bool {
    forall|i: int, j: int| 0 <= i < j < values.len() ==> values[i].0@ != values[j].0@
}

/// The value of `name` in the innermost scope (first in `scopes`) that binds it.
pub open spec fn lookup_in<V>(scopes: Seq<Map<Seq<char>, V>>, name: Seq<char>) -> Option<V>
    decreases scopes.len(),
{
    if scopes.len() == 0 {
        None
    } else if scopes[0].contains_key(name) {
        Some(scopes[0][name])
    } else {
        lookup_in(scopes.drop_first(), name)
    }
}

/// Binds `name` to `v` in the innermost scope.
pub open spec fn define_in<V>(scopes: Seq<Map<Seq<char>, V>>, name: Seq<char>, v: V) -> Seq<Map<Seq<char>, V>> {
    scopes.update(0, scopes[0].insert(name, v))
}

/// Rebinds `name` to `v` in the innermost scope that binds it; `None` when
/// no scope binds it.
pub open spec fn assign_in<V>(scopes: Seq<Map<Seq<char>, V>>, name: Seq<char>, v: V) -> Option<Seq<Map<Seq<char>, V>>>
    decreases scopes.len(),
{
    if scopes.len() == 0 {
        None
    } else if scopes[0].contains_key(name) {
        Some(scopes.update(0, scopes[0].insert(name, v)))
    } else {
        match assign_in(scopes.drop_first(), name, v) {
            Some(rest) => Some(seq![scopes[0]] + rest),
            None => None,
        }
    }
}

/// Assignment keeps the number of scopes.
pub proof fn lemma_assign_in_len<V>(scopes: Seq<Map<Seq<char>, V>>, name: Seq<char>, v: V)
    ensures
        assign_in(scopes, name, v) matches Some(after) ==> after.len() == scopes.len(),
    decreases scopes.len(),
{
    if scopes.len() > 0 && !scopes[0].contains_key(name) {
        lemma_assign_in_len(scopes.drop_first(), name, v);
    }
}

proof fn lemma_scope_map_contains<V>(values: Seq<(String, V)>, name: Seq<char>)
    ensures
        scope_map(values).contains_key(name) <==> exists|i: int| 0 <= i < values.len() && (#[trigger] values[i]).0@ == name,
    decreases values.len(),
{
    if values.len() > 0 {
        lemma_scope_map_contains(values.drop_last(), name);
        if scope_map(values).contains_key(name) {
            if values.last().0@ == name {
                assert(values[values.len() - 1].0@ == name);
            } else {
                let i = choose|i: int| 0 <= i < values.drop_last().len() && (#[trigger] values.drop_last()[i]).0@ == name;
                assert(values[i] == values.drop_last()[i]);
            }
        }
        if exists|i: int| 0 <= i < values.len() && (#[trigger] values[i]).0@ == name {
            let i = choose|i: int| 0 <= i < values.len() && (#[trigger] values[i]).0@ == name;
            if i < values.len() - 1 {
                assert(values.drop_last()[i] == values[i]);
            }
        }
    }
}

proof fn lemma_scope_map_get<V>(values: Seq<(String, V)>, i: int)
    requires
        distinct_names(values),
        0 <= i < values.len(),
    ensures
        scope_map(values).contains_key(values[i].0@),
        scope_map(values)[values[i].0@] == values[i].1,
    decreases values.len(),
{
    if i < values.len() - 1 {
        assert(values.drop_last()[i] == values[i]);
        lemma_scope_map_get(values.drop_last(), i);
    }
}

proof fn lemma_scope_map_update<V>(values: Seq<(String, V)>, i: int, entry: (String, V))
    requires
        distinct_names(values),
        0 <= i < values.len(),
        entry.0@ == values[i].0@,
    ensures
        scope_map(values.update(i, entry)) == scope_map(values).insert(entry.0@, entry.1),
        distinct_names(values.update(i, entry)),
    decreases values.len(),
{
    let u = values.update(i, entry);
    if i == values.len() - 1 {
        assert(u.drop_last() =~= values.drop_last());
        lemma_scope_map_contains(values.drop_last(), entry.0@);
        if scope_map(values.drop_last()).contains_key(entry.0@) {
            let j = choose|j: int| 0 <= j < values.drop_last().len() && (#[trigger] values.drop_last()[j]).0@ == entry.0@;
            assert(values[j] == values.drop_last()[j]);
        }
        assert(scope_map(u) =~= scope_map(values).insert(entry.0@, entry.1));
    } else {
        assert(u.drop_last() =~= values.drop_last().update(i, entry));
        assert(values.drop_last()[i] == values[i]);
        lemma_scope_map_update(values.drop_last(), i, entry);
        assert(values.last().0@ != entry.0@);
        assert(scope_map(u) =~= scope_map(values).insert(entry.0@, entry.1));
    }
}

/// A chain of scopes: the bindings of the innermost scope and the scope it
/// hangs off, if any.
pub struct Environment<V> {
    pub values: Vec<(String, V)>,
    pub parent: Option<Box<Environment<V>>>,
}

impl<V> Environment<V> {
    /// The scopes, innermost first.
    pub open spec fn scopes(&self) -> Seq<Map<Seq<char>, V>>
        decreases self,
    {
        seq![scope_map(self.values@)] + match self.parent {
            Some(p) => p.scopes(),
            None => Seq::empty(),
        }
    }

    /// Every scope binds each of its names once.
    pub open spec fn wf(&self) -> bool
        decreases self,
    {
        &&& distinct_names(self.values@)
        &&& match self.parent {
            Some(p) => p.wf(),
            None => true,
        }
    }

    /// A single, empty scope.
    pub fn init() -> (r: Self)
        ensures
            r.wf(),
            r.scopes() == seq![Map::<Seq<char>, V>::empty()],
    {
        let r = Environment { values: Vec::new(), parent: None };
        assert(r.scopes() =~= seq![Map::<Seq<char>, V>::empty()]);
        r
    }

    /// A new, empty scope hanging off `parent`.
    pub fn child(parent: Self) -> (r: Self)
        requires
            parent.wf(),
        ensures
            r.wf(),
            r.scopes() == seq![Map::<Seq<char>, V>::empty()] + parent.scopes(),
    {
        let r = Environment { values: Vec::new(), parent: Some(Box::new(parent)) };
        assert(scope_map(r.values@) =~= Map::<Seq<char>, V>::empty());
        r
    }

    /// The scope this one hangs off, if any (this scope is dropped).
    pub fn into_parent(self) -> (r: Option<Self>)
        requires
            self.wf(),
        ensures
            match r {
                Some(p) => p.wf() && p.scopes() == self.scopes().drop_first(),
                None => self.scopes().len() == 1,
            },
    {
        match self.parent {
            Some(p) => {
                assert(self.scopes().drop_first() =~= p.scopes());
                Some(*p)
            },
            None => None,
        }
    }

    /// Opens a new, empty innermost scope.
    pub fn push_scope(&mut self)
        requires
            old(self).wf(),
        ensures
            final(self).wf(),
            final(self).scopes() == seq![Map::<Seq<char>, V>::empty()] + old(self).scopes(),
    {
        let mut values: Vec<(String, V)> = Vec::new();
        core::mem::swap(&mut values, &mut self.values);
        let parent = self.parent.take();
        let outer = Environment { values, parent };
        assert(outer.scopes() == old(self).scopes());
        self.parent = Some(Box::new(outer));
        assert(scope_map(self.values@) =~= Map::<Seq<char>, V>::empty());
    }

    /// Drops the innermost scope; `false`, and no change, where it is the
    /// only one.
    pub fn pop_scope(&mut self) -> (r: bool)
        requires
            old(self).wf(),
        ensures
            final(self).wf(),
            r == (old(self).scopes().len() > 1),
            r ==> final(self).scopes() == old(self).scopes().drop_first(),
            !r ==> final(self).scopes() == old(self).scopes(),
    {
        match self.parent.take() {
            Some(p) => {
                let ghost q: Environment<V> = *p;
                assert(q.scopes().len() >= 1);
                assert(old(self).scopes().drop_first() =~= q.scopes());
                *self = *p;
                true
            },
            None => {
                assert(old(self).scopes().len() == 1);
                false
            },
        }
    }

    /// Index of `name` in this scope's bindings, if bound here.
    fn find(&self, name: &String) -> (r: Option<usize>)
        ensures
            match r {
                Some(i) => i < self.values@.len() && self.values@[i as int].0@ == name@,
                None => !scope_map(self.values@).contains_key(name@),
            },
    {
        let mut i: usize = 0;
        while i < self.values.len()
            invariant
                i <= self.values@.len(),
                forall|j: int| 0 <= j < i ==> (#[trigger] self.values@[j]).0@ != name@,
            decreases self.values@.len() - i,
        {
            if self.values[i].0 == *name {
                return Some(i);
            }
            i = i + 1;
        }
        proof {
            lemma_scope_map_contains(self.values@, name@);
        }
        None
    }

    /// Binds `name` to `val` in this (the innermost) scope.
    pub fn define(&mut self, name: &str, val: V)
        requires
            old(self).wf(),
        ensures
            final(self).wf(),
            final(self).scopes() == define_in(old(self).scopes(), name@, val),
    {
        let key = name.to_owned();
        match self.find(&key) {
            Some(i) => {
                proof {
                    lemma_scope_map_update(self.values@, i as int, (key, val));
                }
                self.values.set(i, (key, val));
            },
            None => {
                let ghost k = key@;
                self.values.push((key, val));
                assert(self.values@.drop_last() =~= old(self).values@);
                proof {
                    lemma_scope_map_contains(old(self).values@, k);
                }
                assert(distinct_names(self.values@));
            },
        }
        assert(self.scopes() =~= define_in(old(self).scopes(), name@, val));
    }

    /// Rebinds `name` to `val` in the innermost scope that binds it; `None`
    /// (and no change) when no scope binds it.
    pub fn assign(&mut self, name: &str, val: V) -> (r: Option<()>)
        requires
            old(self).wf(),
        ensures
            final(self).wf(),
            r is Some <==> assign_in(old(self).scopes(), name@, val) is Some,
            r is Some ==> final(self).scopes() == assign_in(old(self).scopes(), name@, val)->0,
            r is None ==> final(self).scopes() == old(self).scopes(),
        decreases *old(self),
    {
        let key = name.to_owned();
        match self.find(&key) {
            Some(i) => {
                proof {
                    lemma_scope_map_update(self.values@, i as int, (key, val));
                    lemma_scope_map_get(self.values@, i as int);
                }
                self.values.set(i, (key, val));
                assert(self.scopes() =~= old(self).scopes().update(0, old(self).scopes()[0].insert(name@, val)));
                Some(())
            },
            None => {
                let parent = self.parent.take();
                match parent {
                    Some(mut p) => {
                        let ghost p0: Environment<V> = *p;
                        assert(old(self).scopes().drop_first() =~= p0.scopes());
                        assert(old(self).scopes()[0] == scope_map(old(self).values@));
                        let r = p.assign(name, val);
                        self.parent = Some(p);
                        proof {
                            if r is Some {
                                assert(self.scopes() =~= seq![old(self).scopes()[0]] + assign_in(old(self).scopes().drop_first(), name@, val)->0);
                            } else {
                                assert(self.scopes() =~= old(self).scopes());
                            }
                        }
                        r
                    },
                    None => {
                        self.parent = None;
                        assert(old(self).scopes().drop_first() =~= Seq::<Map<Seq<char>, V>>::empty());
                        None
                    },
                }
            },
        }
    }

    /// The value bound to `name` in the innermost scope that binds it.
    pub fn lookup(&self, name: &str) -> (r: Option<&V>)
        requires
            self.wf(),
        ensures
            r is Some <==> lookup_in(self.scopes(), name@) is Some,
            r is Some ==> *r->0 == lookup_in(self.scopes(), name@)->0,
        decreases self,
    {
        let key = name.to_owned();
        assert(self.scopes()[0] == scope_map(self.values@));
        match self.find(&key) {
            Some(i) => {
                proof {
                    lemma_scope_map_get(self.values@, i as int);
                }
                assert(lookup_in(self.scopes(), name@) == Some(self.values@[i as int].1));
                Some(&self.values[i].1)
            },
            None => match &self.parent {
                Some(p) => {
                    assert(self.scopes().drop_first() =~= p.scopes());
                    assert(lookup_in(self.scopes(), name@) == lookup_in(p.scopes(), name@));
                    p.lookup(name)
                },
                None => {
                    assert(self.scopes().drop_first() =~= Seq::<Map<Seq<char>, V>>::empty());
                    assert(lookup_in(self.scopes(), name@) == lookup_in(Seq::<Map<Seq<char>, V>>::empty(), name@));
                    None
                },
            },
        }
    }
}

} // verus!

verus! {

// ---------------------------------------------------------------------------
// Laws of environments
// ---------------------------------------------------------------------------

/// Reading a name right after defining it gives the value defined.
pub proof fn law_lookup_after_define<V>(scopes: Seq<Map<Seq<char>, V>>, name: Seq<char>, v: V)
    requires
        scopes.len() > 0,
    ensures
        lookup_in(define_in(scopes, name, v), name) == Some(v),
{
}

/// Defining a name leaves every other name as it was.
pub proof fn law_define_keeps_others<V>(scopes: Seq<Map<Seq<char>, V>>, name: Seq<char>, other: Seq<char>, v: V)
    requires
        scopes.len() > 0,
        other != name,
    ensures
        lookup_in(define_in(scopes, name, v), other) == lookup_in(scopes, other),
{
    let d = define_in(scopes, name, v);
    assert(d.drop_first() =~= scopes.drop_first());
}

/// Assignment succeeds exactly when some scope binds the name, and then
/// reading the name gives the value assigned.
pub proof fn law_assign_iff_bound<V>(scopes: Seq<Map<Seq<char>, V>>, name: Seq<char>, v: V)
    ensures
        assign_in(scopes, name, v) is Some <==> lookup_in(scopes, name) is Some,
        assign_in(scopes, name, v) matches Some(after) ==> lookup_in(after, name) == Some(v),
    decreases scopes.len(),
{
    if scopes.len() > 0 && !scopes[0].contains_key(name) {
        law_assign_iff_bound(scopes.drop_first(), name, v);
        if let Some(rest) = assign_in(scopes.drop_first(), name, v) {
            let after = seq![scopes[0]] + rest;
            assert(after.drop_first() =~= rest);
        }
    }
}

/// Assignment leaves every other name as it was.
pub proof fn law_assign_keeps_others<V>(scopes: Seq<Map<Seq<char>, V>>, name: Seq<char>, other: Seq<char>, v: V)
    requires
        other != name,
        assign_in(scopes, name, v) is Some,
    ensures
        lookup_in(assign_in(scopes, name, v)->0, other) == lookup_in(scopes, other),
    decreases scopes.len(),
{
    if scopes[0].contains_key(name) {
        let after = assign_in(scopes, name, v)->0;
        assert(after.drop_first() =~= scopes.drop_first());
    } else {
        law_assign_keeps_others(scopes.drop_first(), name, other, v);
        let after = assign_in(scopes, name, v)->0;
        assert(after.drop_first() =~= assign_in(scopes.drop_first(), name, v)->0);
    }
}

/// In a new inner scope every name reads as in the enclosing scopes, and a
/// name defined there shadows the enclosing binding without changing it:
/// once the inner scope is dropped the enclosing value reads again.
pub proof fn law_inner_scope<V>(scopes: Seq<Map<Seq<char>, V>>, name: Seq<char>, v: V)
    ensures
        lookup_in(seq![Map::<Seq<char>, V>::empty()] + scopes, name) == lookup_in(scopes, name),
        lookup_in(define_in(seq![Map::<Seq<char>, V>::empty()] + scopes, name, v), name) == Some(v),
        define_in(seq![Map::<Seq<char>, V>::empty()] + scopes, name, v).drop_first() == scopes,
{
    let inner = seq![Map::<Seq<char>, V>::empty()] + scopes;
    assert(inner.drop_first() =~= scopes);
    assert(define_in(inner, name, v).drop_first() =~= scopes);
}

} // verus!
