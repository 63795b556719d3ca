use crate::locator::Locator;
use vstd::prelude::*;

verus! {

/// The modules of a list of pairs, as a map from locators to modules.
pub open spec fn modules_map<M>(s: Seq<(Locator, M)>) -> Map<Seq<char>, M>
    decreases s.len(),
{
    if s.len() == 0 {
        Map::empty()
    } else {
        modules_map(s.drop_last()).insert(s.last().0@, s.last().1)
    }
}

/// No locator holds two modules.
pub open spec fn module_locs_distinct<M>(s: Seq<(Locator, M)>) -> bool {
    forall|i: int, j: int| 0 <= i < j < s.len() ==> #[trigger] s[i].0@ != #[trigger] s[j].0@
}

proof fn lemma_modules_map<M>(s: Seq<(Locator, M)>)
    requires
        module_locs_distinct(s),
    ensures
        modules_map(s).dom().finite(),
        modules_map(s).len() == s.len(),
        forall|i: int|
            0 <= i < s.len() ==> #[trigger] modules_map(s).contains_key(s[i].0@) && modules_map(
                s,
            )[s[i].0@] == s[i].1,
        forall|e: Seq<char>|
            #[trigger] modules_map(s).contains_key(e) ==> exists|i: int|
                0 <= i < s.len() && #[trigger] s[i].0@ == e,
    decreases s.len(),
{
    if s.len() > 0 {
        lemma_modules_map(s.drop_last());
        let last = s.last().0@;
        assert(!modules_map(s.drop_last()).contains_key(last)) by {
            if modules_map(s.drop_last()).contains_key(last) {
                let i = choose|i: int|
                    0 <= i < s.drop_last().len() && #[trigger] s.drop_last()[i].0@ == last;
                assert(s[i].0@ == s[s.len() - 1].0@);
            }
        }
        assert forall|i: int| 0 <= i < s.len() implies #[trigger] modules_map(s).contains_key(
            s[i].0@,
        ) && modules_map(s)[s[i].0@] == s[i].1 by {
            if i < s.len() - 1 {
                assert(s.drop_last()[i] == s[i]);
                assert(s[i].0@ != s[s.len() - 1].0@);
                assert(modules_map(s.drop_last()).contains_key(s.drop_last()[i].0@));
            }
        }
        assert forall|e: Seq<char>| #[trigger] modules_map(s).contains_key(e) implies exists|i: int|
            0 <= i < s.len() && #[trigger] s[i].0@ == e by {
            if e != last {
                assert(modules_map(s.drop_last()).contains_key(e));
                let i = choose|i: int|
                    0 <= i < s.drop_last().len() && #[trigger] s.drop_last()[i].0@ == e;
                assert(s.drop_last()[i] == s[i]);
            } else {
                assert(s[s.len() - 1].0@ == e);
            }
        }
    } else {
        assert(modules_map(s).dom() =~= Set::empty());
    }
}

/// A set of modules by locator, with the locator of the main module.
pub struct ModuleSet<M> {
    base: Locator,
    mods: Vec<(Locator, M)>,
}

impl<M> ModuleSet<M> {
    /// The modules by locator.
    pub closed spec fn modules(&self) -> Map<Seq<char>, M> {
        modules_map(self.mods@)
    }

    /// The locator of the main module.
    pub closed spec fn base_loc(&self) -> Seq<char> {
        self.base@
    }

    /// No locator holds two modules, and the main module is in the set.
    pub closed spec fn wf(&self) -> bool {
        &&& module_locs_distinct(self.mods@)
        &&& self.modules().contains_key(self.base@)
    }

    /// Creates the set of one main module at `base`.
    pub fn new(base: Locator, main: M) -> (r: ModuleSet<M>)
        ensures
            r.wf(),
            r.base_loc() == base@,
            r.modules() == Map::<Seq<char>, M>::empty().insert(base@, main),
    {
        let loc = base.duplicate();
        let ghost mv = main;
        let mut mods: Vec<(Locator, M)> = Vec::new();
        mods.push((loc, main));
        let r = ModuleSet { base, mods };
        proof {
            assert(r.mods@.drop_last() =~= Seq::<(Locator, M)>::empty());
            assert(r.mods@.last().1 == mv);
            assert(r.mods@.last().0@ == r.base@);
            assert(modules_map(Seq::<(Locator, M)>::empty()) == Map::<Seq<char>, M>::empty());
            assert(modules_map(r.mods@.drop_last()) == Map::<Seq<char>, M>::empty());
            assert(modules_map(r.mods@) == modules_map(r.mods@.drop_last()).insert(
                r.mods@.last().0@,
                r.mods@.last().1,
            ));
        }
        r
    }

    /// The locator of the main module.
    pub fn base(&self) -> (r: &Locator)
        ensures
            r@ == self.base_loc(),
    {
        &self.base
    }

    /// Returns the position of the module at `loc`, if any.
    fn find(&self, loc: &Locator) -> (r: Option<usize>)
        requires
            module_locs_distinct(self.mods@),
        ensures
            match r {
                Some(i) => i < self.mods@.len() && self.mods@[i as int].0@ == loc@,
                None => !self.modules().contains_key(loc@),
            },
    {
        let mut i: usize = 0;
        while i < self.mods.len()
            invariant
                module_locs_distinct(self.mods@),
                i <= self.mods.len(),
                forall|j: int| 0 <= j < i ==> #[trigger] self.mods@[j].0@ != loc@,
            decreases self.mods.len() - i,
        {
            if self.mods[i].0.same(loc) {
                return Some(i);
            }
            i = i + 1;
        }
        proof {
            lemma_modules_map(self.mods@);
            if self.modules().contains_key(loc@) {
                let j = choose|j: int| 0 <= j < self.mods@.len() && #[trigger] self.mods@[j].0@ == loc@;
                assert(self.mods@[j].0@ != loc@);
            }
        }
        None
    }

    /// Returns the module at `loc`, if any.
    pub fn get(&self, loc: &Locator) -> (r: Option<&M>)
        requires
            self.wf(),
        ensures
            match r {
                Some(m) => self.modules().contains_key(loc@) && self.modules()[loc@] == *m,
                None => !self.modules().contains_key(loc@),
            },
    {
        match self.find(loc) {
            Some(i) => {
                proof {
                    lemma_modules_map(self.mods@);
                    assert(self.modules().contains_key(self.mods@[i as int].0@));
                }
                Some(&self.mods[i].1)
            },
            None => None,
        }
    }

    /// The main module.
    pub fn main(&self) -> (r: &M)
        requires
            self.wf(),
        ensures
            *r == self.modules()[self.base_loc()],
    {
        self.get(&self.base).unwrap()
    }

    /// Inserts the module at `loc`, replacing the module there, if any.
    pub fn insert(&mut self, loc: Locator, m: M)
        requires
            old(self).wf(),
        ensures
            final(self).wf(),
            final(self).base_loc() == old(self).base_loc(),
            final(self).modules() == old(self).modules().insert(loc@, m),
    {
        let ghost before = self.mods@;
        let ghost lv = loc@;
        let ghost mv = m;
        proof {
            lemma_modules_map(before);
        }
        match self.find(&loc) {
            Some(i) => {
                let _ = self.mods.remove(i);
                self.mods.insert(i, (loc, m));
                proof {
                    let after = self.mods@;
                    assert forall|a: int, b: int| 0 <= a < b < after.len() implies #[trigger] after[a].0@
                        != #[trigger] after[b].0@ by {
                        assert(before[a].0@ != before[b].0@);
                        if a != i {
                            assert(after[a] == before[a]);
                        }
                        if b != i {
                            assert(after[b] == before[b]);
                        }
                    }
                    lemma_modules_map(after);
                    let m1 = modules_map(after);
                    let m2 = modules_map(before).insert(lv, mv);
                    assert forall|k: Seq<char>| #[trigger] m1.contains_key(k) == m2.contains_key(k) by {
                        if m1.contains_key(k) {
                            let j = choose|j: int| 0 <= j < after.len() && #[trigger] after[j].0@ == k;
                            if j != i {
                                assert(after[j] == before[j]);
                                assert(modules_map(before).contains_key(before[j].0@));
                            }
                        }
                        if modules_map(before).contains_key(k) {
                            let j = choose|j: int| 0 <= j < before.len() && #[trigger] before[j].0@ == k;
                            if j != i {
                                assert(after[j] == before[j]);
                            }
                            assert(m1.contains_key(after[j].0@));
                        }
                        if k == lv {
                            assert(m1.contains_key(after[i as int].0@));
                        }
                    }
                    assert forall|k: Seq<char>| #[trigger] m1.contains_key(k) implies m1[k] == m2[k] by {
                        let j = choose|j: int| 0 <= j < after.len() && #[trigger] after[j].0@ == k;
                        if j != i {
                            assert(after[j] == before[j]);
                            assert(before[j].0@ != before[i as int].0@);
                            assert(modules_map(before).contains_key(before[j].0@));
                        }
                    }
                    assert(m1 =~= m2);
                }
            },
            None => {
                self.mods.push((loc, m));
                proof {
                    let after = self.mods@;
                    assert(after.drop_last() =~= before);
                    assert forall|a: int, b: int| 0 <= a < b < after.len() implies #[trigger] after[a].0@
                        != #[trigger] after[b].0@ by {
                        assert(after[a] == before[a]);
                        if b < before.len() {
                            assert(after[b] == before[b]);
                        } else {
                            assert(modules_map(before).contains_key(before[a].0@));
                        }
                    }
                }
            },
        }
    }

    /// The number of modules.
    pub fn len(&self) -> (r: usize)
        requires
            self.wf(),
        ensures
            r == self.modules().len(),
    {
        proof {
            lemma_modules_map(self.mods@);
        }
        self.mods.len()
    }

    /// Returns true if the set holds no module, which never happens.
    pub fn is_empty(&self) -> (r: bool)
        requires
            self.wf(),
        ensures
            r == (self.modules().len() == 0),
            !r,
    {
        proof {
            lemma_modules_map(self.mods@);
        }
        self.mods.len() == 0
    }

    /// The locators of the modules.
    pub fn locators(&self) -> (r: Vec<&Locator>)
        requires
            self.wf(),
        ensures
            r@.len() == self.modules().len(),
            forall|i: int| 0 <= i < r@.len() ==> #[trigger] self.modules().contains_key(r@[i]@),
            forall|k: Seq<char>| #[trigger] self.modules().contains_key(k) ==> exists|i: int|
                0 <= i < r@.len() && #[trigger] r@[i]@ == k,
    {
        proof {
            lemma_modules_map(self.mods@);
        }
        let mut r: Vec<&Locator> = Vec::new();
        let mut i: usize = 0;
        while i < self.mods.len()
            invariant
                i <= self.mods.len(),
                r@.len() == i,
                forall|j: int| 0 <= j < i ==> #[trigger] r@[j]@ == self.mods@[j].0@,
            decreases self.mods.len() - i,
        {
            r.push(&self.mods[i].0);
            i = i + 1;
        }
        proof {
            assert forall|j: int| 0 <= j < r@.len() implies #[trigger] self.modules().contains_key(r@[j]@) by {
                assert(self.modules().contains_key(self.mods@[j].0@));
            }
            assert forall|k: Seq<char>| #[trigger] self.modules().contains_key(k) implies exists|j: int|
                0 <= j < r@.len() && #[trigger] r@[j]@ == k by {
                let j = choose|j: int| 0 <= j < self.mods@.len() && #[trigger] self.mods@[j].0@ == k;
                assert(r@[j]@ == k);
            }
        }
        r
    }
}

} // verus!
