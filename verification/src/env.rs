use vstd::prelude::*;

verus! {

/// The key of a definition: an identifier and an optional qualifier.
#[derive(Debug, PartialEq, Eq, Hash)]
pub struct Entry {
    ident: String,
    qualifier: Option<String>,
}

/// The mathematical value of an entry.
pub struct EntryV {
    pub ident: Seq<char>,
    pub qualifier: Option<Seq<char>>,
}

impl Entry {
    pub closed spec fn view(&self) -> EntryV {
        EntryV {
            ident: self.ident@,
            qualifier: match self.qualifier {
                Some(q) => Some(q@),
                None => None,
            },
        }
    }

    /// Creates an entry from an identifier and an optional qualifier.
    pub fn new(ident: String, qualifier: Option<String>) -> (r: Entry)
        ensures
            r@.ident == ident@,
            r@.qualifier == match qualifier {
                Some(q) => Some(q@),
                None => None::<Seq<char>>,
            },
    {
        Entry { ident, qualifier }
    }

    /// Creates an unqualified entry.
    pub fn from_ident(ident: String) -> (r: Entry)
        ensures
            r@.ident == ident@,
            r@.qualifier is None,
    {
        Entry { ident, qualifier: None }
    }

    /// Compares two entries.
    pub fn same(&self, other: &Entry) -> (r: bool)
        ensures
            r == (self@ == other@),
    {
        if self.ident != other.ident {
            return false;
        }
        match (&self.qualifier, &other.qualifier) {
            (None, None) => true,
            (Some(a), Some(b)) => *a == *b,
            _ => false,
        }
    }
}

/// The definitions of one scope, as a map from entries to definitions.
pub open spec fn scope_map<T>(s: Seq<(Entry, T)>) -> Map<EntryV, T>
    decreases s.len(),
{
    if s.len() == 0 {
        Map::empty()
    } else {
        scope_map(s.drop_last()).insert(s.last().0@, s.last().1)
    }
}

/// The definition of `e` in the innermost of the first `n` scopes that defines it.
pub open spec fn lookup_in<T>(scopes: Seq<Map<EntryV, T>>, e: EntryV, n: int) -> Option<T>
    decreases n,
{
    if n <= 0 {
        None
    } else if scopes[n - 1].contains_key(e) {
        Some(scopes[n - 1][e])
    } else {
        lookup_in(scopes, e, n - 1)
    }
}

/// The definition of `e` in the innermost scope that defines it.
pub open spec fn lookup_spec<T>(scopes: Seq<Map<EntryV, T>>, e: EntryV) -> Option<T> {
    lookup_in(scopes, e, scopes.len() as int)
}

/// A stack of scopes of definitions, the innermost last.
pub struct Env<T> {
    scopes: Vec<Vec<(Entry, T)>>,
}

impl<T> Env<T> {
    /// The scopes, outermost first, each as a map.
    pub closed spec fn view(&self) -> Seq<Map<EntryV, T>> {
        self.scopes@.map_values(|s: Vec<(Entry, T)>| scope_map(s@))
    }

    /// Each scope holds each entry once.
    pub closed spec fn wf(&self) -> bool {
        forall|k: int| 0 <= k < self.scopes@.len() ==> #[trigger] entries_distinct(self.scopes@[k]@)
    }

    /// Creates an environment of one empty scope.
    pub fn new() -> (r: Env<T>)
        ensures
            r.wf(),
            r@ == seq![Map::<EntryV, T>::empty()],
    {
        let mut scopes: Vec<Vec<(Entry, T)>> = Vec::new();
        scopes.push(Vec::new());
        let r = Env { scopes };
        assert(r@ =~= seq![Map::<EntryV, T>::empty()]);
        r
    }

    /// Declares a definition in the innermost scope; returns the definition
    /// that it replaces there, if any.
    pub fn declare(&mut self, e: Entry, defn: T) -> (r: Option<T>)
        requires
            old(self).wf(),
            old(self)@.len() > 0,
        ensures
            final(self).wf(),
            final(self)@.len() == old(self)@.len(),
            final(self)@ == old(self)@.update(
                old(self)@.len() - 1,
                old(self)@.last().insert(e@, defn),
            ),
            r == (if old(self)@.last().contains_key(e@) {
                Some(old(self)@.last()[e@])
            } else {
                None
            }),
    {
        let last = self.scopes.len() - 1;
        let ghost before = self.scopes@;
        let ghost ev = e@;
        let ghost dv = defn;
        let mut scope = self.scopes.remove(last);
        let r = scope_insert(&mut scope, e, defn);
        self.scopes.push(scope);
        proof {
            assert(self.scopes@ =~= before.update(last as int, self.scopes@[last as int]));
            assert forall|k: int| 0 <= k < self.scopes@.len() implies #[trigger] entries_distinct(
                self.scopes@[k]@,
            ) by {
                if k != last {
                    assert(self.scopes@[k] == before[k]);
                }
            }
            assert(self@ =~= old(self)@.update(
                old(self)@.len() - 1,
                old(self)@.last().insert(ev, dv),
            ));
        }
        r
    }

    /// Returns the definition of `e` in the innermost scope that defines it.
    pub fn lookup(&self, e: &Entry) -> (r: Option<&T>)
        requires
            self.wf(),
        ensures
            match r {
                Some(d) => lookup_spec(self@, e@) == Some(*d),
                None => lookup_spec(self@, e@) is None,
            },
    {
        let mut k: usize = self.scopes.len();
        while k > 0
            invariant
                self.wf(),
                k <= self.scopes@.len(),
                self.scopes@.len() == self@.len(),
                forall|j: int|
                    0 <= j < self.scopes@.len() ==> #[trigger] self@[j] == scope_map(
                        self.scopes@[j]@,
                    ),
                lookup_spec(self@, e@) == lookup_in(self@, e@, k as int),
            decreases k,
        {
            let scope = &self.scopes[k - 1];
            assert(entries_distinct(self.scopes@[k - 1]@));
            match scope_get(scope, e) {
                Some(d) => {
                    return Some(d);
                },
                None => {},
            }
            k = k - 1;
        }
        None
    }

    /// Opens a new, empty, innermost scope.
    pub fn open(&mut self)
        requires
            old(self).wf(),
        ensures
            final(self).wf(),
            final(self)@ == old(self)@.push(Map::empty()),
    {
        let ghost before = self.scopes@;
        self.scopes.push(Vec::new());
        proof {
            assert forall|k: int| 0 <= k < self.scopes@.len() implies #[trigger] entries_distinct(
                self.scopes@[k]@,
            ) by {
                if k < before.len() {
                    assert(self.scopes@[k] == before[k]);
                }
            }
            assert(self@ =~= old(self)@.push(Map::empty()));
        }
    }

    /// Closes the innermost scope, if any.
    pub fn close(&mut self)
        requires
            old(self).wf(),
        ensures
            final(self).wf(),
            final(self)@ == if old(self)@.len() > 0 {
                old(self)@.drop_last()
            } else {
                old(self)@
            },
    {
        if self.scopes.len() > 0 {
            let ghost before = self.scopes@;
            self.scopes.pop();
            proof {
                assert forall|k: int|
                    0 <= k < self.scopes@.len() implies #[trigger] entries_distinct(
                    self.scopes@[k]@,
                ) by {
                    assert(self.scopes@[k] == before[k]);
                }
                assert(self@ =~= old(self)@.drop_last());
            }
        }
    }
}

impl<T> Default for Env<T> {
    /// An environment of one empty scope.
    fn default() -> (r: Self)
        ensures
            r.wf(),
            r@ == seq![Map::<EntryV, T>::empty()],
    {
        Env::new()
    }
}

/// No two definitions of a scope have the same entry.
pub open spec fn entries_distinct<T>(s: Seq<(Entry, T)>) -> bool {
    forall|i: int, j: int| 0 <= i < j < s.len() ==> #[trigger] s[i].0@ != #[trigger] s[j].0@
}

proof fn lemma_scope_map<T>(s: Seq<(Entry, T)>)
    requires
        entries_distinct(s),
    ensures
        forall|i: int|
            0 <= i < s.len() ==> #[trigger] scope_map(s).contains_key(s[i].0@) && scope_map(
                s,
            )[s[i].0@] == s[i].1,
        forall|e: EntryV|
            #[trigger] scope_map(s).contains_key(e) ==> exists|i: int|
                0 <= i < s.len() && #[trigger] s[i].0@ == e,
    decreases s.len(),
{
    if s.len() > 0 {
        lemma_scope_map(s.drop_last());
        assert forall|i: int| 0 <= i < s.len() implies #[trigger] scope_map(s).contains_key(
            s[i].0@,
        ) && scope_map(s)[s[i].0@] == s[i].1 by {
            if i < s.len() - 1 {
                assert(s.drop_last()[i] == s[i]);
                assert(s[i].0@ != s[s.len() - 1].0@);
                assert(scope_map(s.drop_last()).contains_key(s.drop_last()[i].0@));
            }
        }
        assert forall|e: EntryV| #[trigger] scope_map(s).contains_key(e) implies exists|i: int|
            0 <= i < s.len() && #[trigger] s[i].0@ == e by {
            if e != s.last().0@ {
                assert(scope_map(s.drop_last()).contains_key(e));
                let i = choose|i: int| 0 <= i < s.drop_last().len() && #[trigger] s.drop_last()[i].0@ == e;
                assert(s.drop_last()[i] == s[i]);
                assert(s[i].0@ == e);
            } else {
                assert(s[s.len() - 1].0@ == e);
            }
        }
    }
}

/// Replacing the definition of an entry of a scope sets it in the map.
proof fn lemma_scope_map_update<T>(before: Seq<(Entry, T)>, i: int, after: Seq<(Entry, T)>)
    requires
        entries_distinct(before),
        0 <= i < before.len(),
        after.len() == before.len(),
        after[i].0@ == before[i].0@,
        forall|j: int| 0 <= j < before.len() && j != i ==> #[trigger] after[j] == before[j],
    ensures
        entries_distinct(after),
        scope_map(after) == scope_map(before).insert(before[i].0@, after[i].1),
{
    assert forall|a: int, b: int| 0 <= a < b < after.len() implies #[trigger] after[a].0@
        != #[trigger] after[b].0@ by {
        assert(before[a].0@ != before[b].0@);
        if a != i {
            assert(after[a] == before[a]);
        }
        if b != i {
            assert(after[b] == before[b]);
        }
    }
    lemma_scope_map(before);
    lemma_scope_map(after);
    let k0 = before[i].0@;
    let m1 = scope_map(after);
    let m2 = scope_map(before).insert(k0, after[i].1);
    assert forall|k: EntryV| #[trigger] m1.contains_key(k) == m2.contains_key(k) by {
        if m1.contains_key(k) {
            let j = choose|j: int| 0 <= j < after.len() && #[trigger] after[j].0@ == k;
            if j != i {
                assert(after[j] == before[j]);
                assert(scope_map(before).contains_key(before[j].0@));
            }
        }
        if scope_map(before).contains_key(k) {
            let j = choose|j: int| 0 <= j < before.len() && #[trigger] before[j].0@ == k;
            if j != i {
                assert(after[j] == before[j]);
                assert(m1.contains_key(after[j].0@));
            } else {
                assert(m1.contains_key(after[i].0@));
            }
        }
        if k == k0 {
            assert(m1.contains_key(after[i].0@));
        }
    }
    assert forall|k: EntryV| #[trigger] m1.contains_key(k) implies m1[k] == m2[k] by {
        let j = choose|j: int| 0 <= j < after.len() && #[trigger] after[j].0@ == k;
        if j != i {
            assert(after[j] == before[j]);
            assert(before[j].0@ != before[i].0@);
            assert(scope_map(before).contains_key(before[j].0@));
        }
    }
    assert(m1 =~= m2);
}

/// Returns the definition of `e` in the scope.
fn scope_get<'a, T>(scope: &'a Vec<(Entry, T)>, e: &Entry) -> (r: Option<&'a T>)
    requires
        entries_distinct(scope@),
    ensures
        match r {
            Some(d) => scope_map(scope@).contains_key(e@) && scope_map(scope@)[e@] == *d,
            None => !scope_map(scope@).contains_key(e@),
        },
{
    proof {
        lemma_scope_map(scope@);
    }
    let mut i: usize = 0;
    while i < scope.len()
        invariant
            i <= scope.len(),
            entries_distinct(scope@),
            forall|j: int| 0 <= j < i ==> #[trigger] scope@[j].0@ != e@,
        decreases scope.len() - i,
    {
        if scope[i].0.same(e) {
            proof {
                lemma_scope_map(scope@);
            }
            assert(scope_map(scope@).contains_key(scope@[i as int].0@));
            return Some(&scope[i].1);
        }
        i = i + 1;
    }
    assert(!scope_map(scope@).contains_key(e@)) by {
        lemma_scope_map(scope@);
        if scope_map(scope@).contains_key(e@) {
            let j = choose|j: int| 0 <= j < scope@.len() && #[trigger] scope@[j].0@ == e@;
            assert(scope@[j].0@ != e@);
        }
    }
    None
}

/// Sets the definition of `e` in the scope; returns the one it replaces, if any.
fn scope_insert<T>(scope: &mut Vec<(Entry, T)>, e: Entry, defn: T) -> (r: Option<T>)
    requires
        entries_distinct(old(scope)@),
    ensures
        entries_distinct(final(scope)@),
        scope_map(final(scope)@) == scope_map(old(scope)@).insert(e@, defn),
        r == (if scope_map(old(scope)@).contains_key(e@) {
            Some(scope_map(old(scope)@)[e@])
        } else {
            None
        }),
{
    proof {
        lemma_scope_map(old(scope)@);
    }
    let ghost ev = e@;
    let ghost dv = defn;
    let mut i: usize = 0;
    while i < scope.len()
        invariant
            i <= scope.len(),
            scope@ == old(scope)@,
            entries_distinct(scope@),
            e@ == ev,
            defn == dv,
            forall|j: int| 0 <= j < i ==> #[trigger] scope@[j].0@ != e@,
        decreases scope.len() - i,
    {
        if scope[i].0.same(&e) {
            let ghost before = scope@;
            let (_, prev) = scope.remove(i);
            scope.insert(i, (e, defn));
            proof {
                assert forall|j: int| 0 <= j < before.len() && j != i implies #[trigger] scope@[j]
                    == before[j] by {}
                assert(scope@[i as int].0@ == ev);
                assert(scope@[i as int].1 == dv);
                lemma_scope_map_update(before, i as int, scope@);
                lemma_scope_map(before);
                assert(scope_map(before).contains_key(before[i as int].0@));
            }
            return Some(prev);
        }
        i = i + 1;
    }
    let ghost before = scope@;
    scope.push((e, defn));
    proof {
        assert(scope@.drop_last() =~= before);
        assert forall|a: int, b: int| 0 <= a < b < scope@.len() implies #[trigger] scope@[a].0@
            != #[trigger] scope@[b].0@ by {
            if b == scope@.len() - 1 {
                assert(scope@[a] == before[a]);
            } else {
                assert(scope@[a] == before[a]);
                assert(scope@[b] == before[b]);
            }
        }
        assert forall|k: EntryV| !(#[trigger] scope_map(before).contains_key(k) && k == ev) by {
            if scope_map(before).contains_key(k) && k == ev {
                let j = choose|j: int| 0 <= j < before.len() && #[trigger] before[j].0@ == k;
            }
        }
    }
    None
}

/// A declared definition is found by a lookup of its entry.
pub proof fn lemma_lookup_declared<T>(scopes: Seq<Map<EntryV, T>>, e: EntryV, d: T)
    requires
        scopes.len() > 0,
    ensures
        lookup_spec(scopes.update(scopes.len() - 1, scopes.last().insert(e, d)), e) == Some(d),
{
}

/// A declaration leaves the lookup of every other entry unchanged.
pub proof fn lemma_lookup_other<T>(scopes: Seq<Map<EntryV, T>>, e: EntryV, d: T, f: EntryV)
    requires
        scopes.len() > 0,
        f != e,
    ensures
        lookup_spec(scopes.update(scopes.len() - 1, scopes.last().insert(e, d)), f)
            == lookup_spec(scopes, f),
{
    let s2 = scopes.update(scopes.len() - 1, scopes.last().insert(e, d));
    assert(s2[scopes.len() - 1].contains_key(f) == scopes[scopes.len() - 1].contains_key(f));
    lemma_lookup_prefix(scopes, s2, f, scopes.len() - 1);
}

proof fn lemma_lookup_prefix<T>(a: Seq<Map<EntryV, T>>, b: Seq<Map<EntryV, T>>, f: EntryV, n: int)
    requires
        0 <= n <= a.len(),
        n <= b.len(),
        forall|i: int| 0 <= i < n ==> #[trigger] a[i] == b[i],
    ensures
        lookup_in(a, f, n) == lookup_in(b, f, n),
    decreases n,
{
    if n > 0 {
        lemma_lookup_prefix(a, b, f, n - 1);
    }
}

/// Opening a scope then closing it gives back the environment.
pub proof fn lemma_open_close<T>(scopes: Seq<Map<EntryV, T>>)
    ensures
        scopes.push(Map::empty()).drop_last() == scopes,
{
    assert(scopes.push(Map::empty()).drop_last() =~= scopes);
}

/// Opening a scope changes no lookup: the new scope is empty.
pub proof fn lemma_lookup_open<T>(scopes: Seq<Map<EntryV, T>>, f: EntryV)
    ensures
        lookup_spec(scopes.push(Map::empty()), f) == lookup_spec(scopes, f),
{
    let s2 = scopes.push(Map::empty());
    lemma_lookup_prefix(scopes, s2, f, scopes.len() as int);
}

} // verus!
