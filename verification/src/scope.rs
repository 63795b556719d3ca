use vstd::prelude::*;

verus! {

/// The definitions of a scope, by identifier.
pub struct Scope<T> {
    entries: Vec<(String, T)>,
}

/// The definitions of a scope, as a map from identifiers to definitions.
pub open spec fn ident_map<T>(s: Seq<(String, T)>) -> Map<Seq<char>, T>
    decreases s.len(),
{
    if s.len() == 0 {
        Map::empty()
    } else {
        ident_map(s.drop_last()).insert(s.last().0@, s.last().1)
    }
}

/// No two definitions of a scope have the same identifier.
pub open spec fn idents_distinct<T>(s: Seq<(String, T)>) -> bool {
    forall|i: int, j: int| 0 <= i < j < s.len() ==> #[trigger] s[i].0@ != #[trigger] s[j].0@
}

proof fn lemma_ident_map<T>(s: Seq<(String, T)>)
    requires
        idents_distinct(s),
    ensures
        ident_map(s).dom().finite(),
        ident_map(s).dom().len() == s.len(),
        forall|i: int|
            0 <= i < s.len() ==> #[trigger] ident_map(s).contains_key(s[i].0@) && ident_map(
                s,
            )[s[i].0@] == s[i].1,
        forall|e: Seq<char>|
            #[trigger] ident_map(s).contains_key(e) ==> exists|i: int|
                0 <= i < s.len() && #[trigger] s[i].0@ == e,
    decreases s.len(),
{
    if s.len() > 0 {
        lemma_ident_map(s.drop_last());
        let last = s.last().0@;
        assert(!ident_map(s.drop_last()).contains_key(last)) by {
            if ident_map(s.drop_last()).contains_key(last) {
                let i = choose|i: int|
                    0 <= i < s.drop_last().len() && #[trigger] s.drop_last()[i].0@ == last;
                assert(s[i].0@ == s[s.len() - 1].0@);
            }
        }
        assert forall|i: int| 0 <= i < s.len() implies #[trigger] ident_map(s).contains_key(
            s[i].0@,
        ) && ident_map(s)[s[i].0@] == s[i].1 by {
            if i < s.len() - 1 {
                assert(s.drop_last()[i] == s[i]);
                assert(s[i].0@ != s[s.len() - 1].0@);
                assert(ident_map(s.drop_last()).contains_key(s.drop_last()[i].0@));
            }
        }
        assert forall|e: Seq<char>| #[trigger] ident_map(s).contains_key(e) implies exists|i: int|
            0 <= i < s.len() && #[trigger] s[i].0@ == e by {
            if e != last {
                assert(ident_map(s.drop_last()).contains_key(e));
                let i = choose|i: int|
                    0 <= i < s.drop_last().len() && #[trigger] s.drop_last()[i].0@ == e;
                assert(s.drop_last()[i] == s[i]);
                assert(s[i].0@ == e);
            } else {
                assert(s[s.len() - 1].0@ == e);
            }
        }
    }
}

impl<T> Scope<T> {
    /// The definitions of the scope.
    pub closed spec fn view(&self) -> Map<Seq<char>, T> {
        ident_map(self.entries@)
    }

    /// Each identifier is defined once.
    pub closed spec fn wf(&self) -> bool {
        idents_distinct(self.entries@)
    }

    /// A scope holds finitely many definitions.
    pub proof fn lemma_finite(&self)
        requires
            self.wf(),
        ensures
            self@.dom().finite(),
    {
        lemma_ident_map(self.entries@);
    }

    /// Creates an empty scope.
    pub fn new() -> (r: Scope<T>)
        ensures
            r.wf(),
            r@ == Map::<Seq<char>, T>::empty(),
    {
        Scope { entries: Vec::new() }
    }

    /// The number of definitions.
    pub fn len(&self) -> (r: usize)
        requires
            self.wf(),
        ensures
            r == self@.len(),
    {
        proof {
            lemma_ident_map(self.entries@);
        }
        self.entries.len()
    }

    /// Returns true if the scope holds no definition.
    pub fn is_empty(&self) -> (r: bool)
        requires
            self.wf(),
        ensures
            r == (self@.len() == 0),
    {
        proof {
            lemma_ident_map(self.entries@);
        }
        self.entries.len() == 0
    }

    /// Returns the definition of `n`.
    pub fn get(&self, n: &String) -> (r: Option<&T>)
        requires
            self.wf(),
        ensures
            match r {
                Some(d) => self@.contains_key(n@) && self@[n@] == *d,
                None => !self@.contains_key(n@),
            },
    {
        let mut i: usize = 0;
        while i < self.entries.len()
            invariant
                self.wf(),
                i <= self.entries.len(),
                forall|j: int| 0 <= j < i ==> #[trigger] self.entries@[j].0@ != n@,
            decreases self.entries.len() - i,
        {
            if self.entries[i].0 == *n {
                proof {
                    lemma_ident_map(self.entries@);
                    assert(self@.contains_key(self.entries@[i as int].0@));
                }
                return Some(&self.entries[i].1);
            }
            i = i + 1;
        }
        proof {
            lemma_ident_map(self.entries@);
            if self@.contains_key(n@) {
                let j = choose|j: int| 0 <= j < self.entries@.len() && #[trigger] self.entries@[j].0@ == n@;
                assert(self.entries@[j].0@ != n@);
            }
        }
        None
    }

    /// Sets the definition of `n`.
    pub fn insert(&mut self, n: String, e: T)
        requires
            old(self).wf(),
        ensures
            final(self).wf(),
            final(self)@ == old(self)@.insert(n@, e),
    {
        let ghost nv = n@;
        let ghost ev = e;
        let mut i: usize = 0;
        while i < self.entries.len()
            invariant
                self.wf(),
                self@ == old(self)@,
                i <= self.entries.len(),
                n@ == nv,
                e == ev,
                forall|j: int| 0 <= j < i ==> #[trigger] self.entries@[j].0@ != nv,
            decreases self.entries.len() - i,
        {
            if self.entries[i].0 == n {
                let ghost before = self.entries@;
                let _ = self.entries.remove(i);
                self.entries.insert(i, (n, e));
                proof {
                    lemma_ident_map(before);
                    let after = self.entries@;
                    assert forall|a: int, b: int| 0 <= a < b < after.len() implies #[trigger] after[a].0@
                        != #[trigger] after[b].0@ by {
                        assert(before[a].0@ != before[b].0@);
                        if a != i {
                            assert(after[a] == before[a]);
                        }
                        if b != i {
                            assert(after[b] == before[b]);
                        }
                    }
                    lemma_ident_map(after);
                    let m1 = ident_map(after);
                    let m2 = ident_map(before).insert(nv, ev);
                    assert forall|k: Seq<char>| #[trigger] m1.contains_key(k) == m2.contains_key(k) by {
                        if m1.contains_key(k) {
                            let j = choose|j: int| 0 <= j < after.len() && #[trigger] after[j].0@ == k;
                            if j != i {
                                assert(after[j] == before[j]);
                                assert(ident_map(before).contains_key(before[j].0@));
                            }
                        }
                        if ident_map(before).contains_key(k) {
                            let j = choose|j: int| 0 <= j < before.len() && #[trigger] before[j].0@ == k;
                            if j != i {
                                assert(after[j] == before[j]);
                                assert(m1.contains_key(after[j].0@));
                            } else {
                                assert(m1.contains_key(after[j].0@));
                            }
                        }
                        if k == nv {
                            assert(m1.contains_key(after[i as int].0@));
                        }
                    }
                    assert forall|k: Seq<char>| #[trigger] m1.contains_key(k) implies m1[k] == m2[k] by {
                        let j = choose|j: int| 0 <= j < after.len() && #[trigger] after[j].0@ == k;
                        if j != i {
                            assert(after[j] == before[j]);
                            assert(before[j].0@ != before[i as int].0@);
                            assert(ident_map(before).contains_key(before[j].0@));
                        }
                    }
                    assert(m1 =~= m2);
                }
                return ;
            }
            i = i + 1;
        }
        let ghost before = self.entries@;
        self.entries.push((n, e));
        proof {
            assert(self.entries@.drop_last() =~= before);
            let after = self.entries@;
            assert forall|a: int, b: int| 0 <= a < b < after.len() implies #[trigger] after[a].0@
                != #[trigger] after[b].0@ by {
                assert(after[a] == before[a]);
                if b < before.len() {
                    assert(after[b] == before[b]);
                }
            }
        }
    }
}

/// The definition of `n` in the innermost of the first `k` scopes that defines it.
pub open spec fn lookup_in<T>(scopes: Seq<Map<Seq<char>, T>>, n: Seq<char>, k: int) -> Option<T>
    decreases k,
{
    if k <= 0 {
        None
    } else if scopes[k - 1].contains_key(n) {
        Some(scopes[k - 1][n])
    } else {
        lookup_in(scopes, n, k - 1)
    }
}

/// Lookups see through a new empty innermost scope: in the scopes that
/// `Env::within` hands to its closure, every identifier has the definition
/// that it has outside.
pub proof fn lemma_lookup_through_empty_scope<T>(scopes: Seq<Map<Seq<char>, T>>, n: Seq<char>)
    ensures
        lookup_in(scopes.push(Map::empty()), n, scopes.len() + 1int) == lookup_in(
            scopes,
            n,
            scopes.len() as int,
        ),
{
    lemma_lookup_prefix(scopes, Map::empty(), n, scopes.len() as int);
}

proof fn lemma_lookup_prefix<T>(
    scopes: Seq<Map<Seq<char>, T>>,
    m: Map<Seq<char>, T>,
    n: Seq<char>,
    k: int,
)
    requires
        0 <= k <= scopes.len(),
    ensures
        lookup_in(scopes.push(m), n, k) == lookup_in(scopes, n, k),
    decreases k,
{
    if k > 0 {
        assert(scopes.push(m)[k - 1] == scopes[k - 1]);
        lemma_lookup_prefix(scopes, m, n, k - 1);
    }
}

/// A stack of scopes of definitions by identifier, the innermost last.
pub struct Env<T> {
    scopes: Vec<Scope<T>>,
}

impl<T> Env<T> {
    /// The scopes, outermost first.
    pub closed spec fn view(&self) -> Seq<Map<Seq<char>, T>> {
        self.scopes@.map_values(|s: Scope<T>| s@)
    }

    /// Each scope is well formed.
    #[verifier::type_invariant]
    spec fn inv(&self) -> bool {
        forall|k: int| 0 <= k < self.scopes@.len() ==> #[trigger] self.scopes@[k].wf()
    }

    /// The definition of `n` in the innermost scope that defines it.
    pub open spec fn lookup_spec(&self, n: Seq<char>) -> Option<T> {
        lookup_in(self@, n, self@.len() as int)
    }

    /// Creates an environment of one empty scope.
    pub fn new() -> (r: Env<T>)
        ensures
            r@ == seq![Map::<Seq<char>, T>::empty()],
    {
        let mut scopes: Vec<Scope<T>> = Vec::new();
        scopes.push(Scope::new());
        let r = Env { scopes };
        assert(r@ =~= seq![Map::<Seq<char>, T>::empty()]);
        r
    }

    /// The innermost scope.
    pub fn head(&self) -> (r: &Scope<T>)
        requires
            self@.len() > 0,
        ensures
            r.wf(),
            r@ == self@.last(),
    {
        proof {
            use_type_invariant(self);
        }
        let k = self.scopes.len() - 1;
        assert(self.scopes@[k as int].wf());
        &self.scopes[k]
    }

    /// Declares a definition in the innermost scope.
    pub fn declare(&mut self, n: String, e: T)
        requires
            old(self)@.len() > 0,
        ensures
            final(self)@ == old(self)@.update(old(self)@.len() - 1, old(self)@.last().insert(n@, e)),
    {
        proof {
            use_type_invariant(&*self);
        }
        let ghost before = self.scopes@;
        let ghost nv = n@;
        let ghost ev = e;
        let mut scopes: Vec<Scope<T>> = Vec::new();
        std::mem::swap(&mut scopes, &mut self.scopes);
        let last = scopes.len() - 1;
        let mut scope = scopes.remove(last);
        assert(before[last as int].wf());
        scope.insert(n, e);
        scopes.push(scope);
        proof {
            assert forall|k: int| 0 <= k < scopes@.len() implies #[trigger] scopes@[k].wf() by {
                if k < last {
                    assert(scopes@[k] == before[k]);
                }
            }
        }
        std::mem::swap(&mut scopes, &mut self.scopes);
        proof {
            assert(self@ =~= old(self)@.update(old(self)@.len() - 1, old(self)@.last().insert(nv, ev)));
        }
    }

    /// Returns the definition of `n` in the innermost scope that defines it.
    pub fn lookup(&self, n: &String) -> (r: Option<&T>)
        ensures
            match r {
                Some(d) => self.lookup_spec(n@) == Some(*d),
                None => self.lookup_spec(n@) is None,
            },
    {
        proof {
            use_type_invariant(self);
        }
        let mut k: usize = self.scopes.len();
        while k > 0
            invariant
                k <= self.scopes@.len(),
                forall|j: int| 0 <= j < self.scopes@.len() ==> #[trigger] self.scopes@[j].wf(),
                self.scopes@.len() == self@.len(),
                forall|j: int| 0 <= j < self.scopes@.len() ==> #[trigger] self@[j] == self.scopes@[j]@,
                self.lookup_spec(n@) == lookup_in(self@, n@, k as int),
            decreases k,
        {
            assert(self.scopes@[k - 1].wf());
            match self.scopes[k - 1].get(n) {
                Some(d) => {
                    return Some(d);
                },
                None => {},
            }
            k = k - 1;
        }
        None
    }

    /// Returns true if the innermost scope defines `n`.
    pub fn is_declared(&self, n: &String) -> (r: bool)
        requires
            self@.len() > 0,
        ensures
            r == self@.last().contains_key(n@),
    {
        self.head().get(n).is_some()
    }

    /// Runs `f` in a new innermost scope, which is closed afterwards, and
    /// returns what `f` returns: `f` receives the scopes of the environment
    /// with one empty scope added.
    pub fn within<F, R>(&mut self, f: F) -> (r: R)
        where
            F: FnOnce(&mut Env<T>) -> R,
        requires
            forall|e: &mut Env<T>|
                (*e)@ == old(self)@.push(Map::empty()) ==> #[trigger] f.requires((e,)),
        ensures
            exists|e: &mut Env<T>|
                {
                    &&& (*e)@ == old(self)@.push(Map::empty())
                    &&& #[trigger] f.ensures((e,), r)
                    &&& final(self)@ == if (*final(e))@.len() > 0 {
                        (*final(e))@.drop_last()
                    } else {
                        (*final(e))@
                    }
                },
    {
        self.open();
        let r = f(self);
        self.close();
        r
    }

    fn open(&mut self)
        ensures
            final(self)@ == old(self)@.push(Map::empty()),
    {
        proof {
            use_type_invariant(&*self);
        }
        let ghost before = self.scopes@;
        let mut scopes: Vec<Scope<T>> = Vec::new();
        std::mem::swap(&mut scopes, &mut self.scopes);
        scopes.push(Scope::new());
        proof {
            assert forall|k: int| 0 <= k < scopes@.len() implies #[trigger] scopes@[k].wf() by {
                if k < before.len() {
                    assert(scopes@[k] == before[k]);
                }
            }
        }
        std::mem::swap(&mut scopes, &mut self.scopes);
        proof {
            assert(self@ =~= old(self)@.push(Map::empty()));
        }
    }

    fn close(&mut self)
        ensures
            final(self)@ == if old(self)@.len() > 0 {
                old(self)@.drop_last()
            } else {
                old(self)@
            },
    {
        proof {
            use_type_invariant(&*self);
        }
        let ghost before = self.scopes@;
        let mut scopes: Vec<Scope<T>> = Vec::new();
        std::mem::swap(&mut scopes, &mut self.scopes);
        let _ = scopes.pop();
        proof {
            assert forall|k: int| 0 <= k < scopes@.len() implies #[trigger] scopes@[k].wf() by {
                assert(scopes@[k] == before[k]);
            }
        }
        std::mem::swap(&mut scopes, &mut self.scopes);
        proof {
            if before.len() > 0 {
                assert(self@ =~= old(self)@.drop_last());
            } else {
                assert(self@ =~= old(self)@);
            }
        }
    }
}

/// A declaration is found by a lookup of its identifier, and leaves the
/// lookups of other identifiers unchanged.
pub proof fn lemma_scope_declare_lookup<T>(scopes: Seq<Map<Seq<char>, T>>, n: Seq<char>, e: T, m: Seq<char>)
    requires
        scopes.len() > 0,
    ensures
        lookup_in(scopes.update(scopes.len() - 1, scopes.last().insert(n, e)), n, scopes.len() as int) == Some(e),
        m != n ==> lookup_in(scopes.update(scopes.len() - 1, scopes.last().insert(n, e)), m, scopes.len() as int)
            == lookup_in(scopes, m, scopes.len() as int),
{
    let s2 = scopes.update(scopes.len() - 1, scopes.last().insert(n, e));
    if m != n {
        assert(s2[scopes.len() - 1].contains_key(m) == scopes[scopes.len() - 1].contains_key(m));
        lemma_scope_lookup_prefix(scopes, s2, m, scopes.len() - 1);
    }
}

proof fn lemma_scope_lookup_prefix<T>(a: Seq<Map<Seq<char>, T>>, b: Seq<Map<Seq<char>, T>>, m: Seq<char>, k: int)
    requires
        0 <= k <= a.len(),
        k <= b.len(),
        forall|i: int| 0 <= i < k ==> #[trigger] a[i] == b[i],
    ensures
        lookup_in(a, m, k) == lookup_in(b, m, k),
    decreases k,
{
    if k > 0 {
        lemma_scope_lookup_prefix(a, b, m, k - 1);
    }
}

/// A scope opened and closed again leaves the lookups as they were, whatever
/// was declared in it.
pub proof fn lemma_scope_within<T>(scopes: Seq<Map<Seq<char>, T>>, inner: Map<Seq<char>, T>, m: Seq<char>)
    ensures
        lookup_in(scopes.push(inner).drop_last(), m, scopes.len() as int) == lookup_in(scopes, m, scopes.len() as int),
{
    assert(scopes.push(inner).drop_last() =~= scopes);
}

/// A new scope shadows nothing: looking up through it gives what the
/// enclosing scopes give.
pub proof fn lemma_scope_open_lookup<T>(scopes: Seq<Map<Seq<char>, T>>, m: Seq<char>)
    ensures
        lookup_in(scopes.push(Map::empty()), m, scopes.len() + 1int) == lookup_in(scopes, m, scopes.len() as int),
{
    lemma_scope_lookup_prefix(scopes, scopes.push(Map::empty()), m, scopes.len() as int);
}

} // verus!
