use crate::tag::{lemma_views, views, FuncTag, Tag, TagId, TagIdV, TagV};
use vstd::prelude::*;

verus! {

/// Substitutes bound variables in `t` by their bound tags, recursively,
/// unfolding at most `fuel` nested bindings. `None` when the fuel runs out.
pub open spec fn subst_f(m: Map<TagIdV, TagV>, t: TagV, fuel: nat) -> Option<TagV>
    decreases fuel, t,
{
    match t {
        TagV::Var(v) => if m.contains_key(v) {
            if fuel == 0 {
                None
            } else {
                subst_f(m, m[v], (fuel - 1) as nat)
            }
        } else {
            Some(t)
        },
        TagV::Func(bs, r) => match (subst_seq_f(m, bs, fuel), subst_f(m, *r, fuel)) {
            (Some(bs2), Some(r2)) => Some(TagV::Func(bs2, Box::new(r2))),
            _ => None,
        },
        TagV::Property(i) => match subst_f(m, *i, fuel) {
            Some(x) => Some(TagV::Property(Box::new(x))),
            None => None,
        },
        _ => Some(t),
    }
}

/// Substitution applied to each tag of a sequence.
pub open spec fn subst_seq_f(m: Map<TagIdV, TagV>, s: Seq<TagV>, fuel: nat) -> Option<Seq<TagV>>
    decreases fuel, s,
{
    if s.len() == 0 {
        Some(Seq::empty())
    } else {
        match (subst_seq_f(m, s.drop_last(), fuel), subst_f(m, s.last(), fuel)) {
            (Some(a), Some(b)) => Some(a.push(b)),
            _ => None,
        }
    }
}

/// The substitution of `t` terminates: the chain of bindings it unfolds is finite.
pub open spec fn subst_ok(m: Map<TagIdV, TagV>, t: TagV) -> bool {
    exists|f: nat| #[trigger] subst_f(m, t, f) is Some
}

/// The complete substitution of `t` by the bindings of `m`.
pub open spec fn subst(m: Map<TagIdV, TagV>, t: TagV) -> TagV {
    subst_f(m, t, choose|f: nat| #[trigger] subst_f(m, t, f) is Some)->0
}

/// More fuel never changes a defined substitution.
pub proof fn lemma_subst_fuel(m: Map<TagIdV, TagV>, t: TagV, f: nat, g: nat)
    requires
        subst_f(m, t, f) is Some,
        f <= g,
    ensures
        subst_f(m, t, g) == subst_f(m, t, f),
    decreases f, t,
{
    match t {
        TagV::Var(v) => {
            if m.contains_key(v) {
                lemma_subst_fuel(m, m[v], (f - 1) as nat, (g - 1) as nat);
            }
        },
        TagV::Func(bs, r) => {
            lemma_subst_seq_fuel(m, bs, f, g);
            lemma_subst_fuel(m, *r, f, g);
        },
        TagV::Property(i) => {
            lemma_subst_fuel(m, *i, f, g);
        },
        _ => {},
    }
}

pub proof fn lemma_subst_seq_fuel(m: Map<TagIdV, TagV>, s: Seq<TagV>, f: nat, g: nat)
    requires
        subst_seq_f(m, s, f) is Some,
        f <= g,
    ensures
        subst_seq_f(m, s, g) == subst_seq_f(m, s, f),
    decreases f, s,
{
    if s.len() > 0 {
        lemma_subst_seq_fuel(m, s.drop_last(), f, g);
        lemma_subst_fuel(m, s.last(), f, g);
    }
}

/// A substitution that terminates with some fuel is the complete substitution.
pub proof fn lemma_subst_value(m: Map<TagIdV, TagV>, t: TagV, f: nat)
    requires
        subst_f(m, t, f) is Some,
    ensures
        subst_ok(m, t),
        subst(m, t) == subst_f(m, t, f)->0,
{
    let g = choose|g: nat| #[trigger] subst_f(m, t, g) is Some;
    if g <= f {
        lemma_subst_fuel(m, t, g, f);
    } else {
        lemma_subst_fuel(m, t, f, g);
    }
}

/// A substituted sequence is the sequence of the substituted elements.
pub proof fn lemma_subst_seq_elems(m: Map<TagIdV, TagV>, s: Seq<TagV>, f: nat)
    requires
        subst_seq_f(m, s, f) is Some,
    ensures
        subst_seq_f(m, s, f)->0.len() == s.len(),
        forall|i: int|
            0 <= i < s.len() ==> #[trigger] subst_f(m, s[i], f) == Some(
                subst_seq_f(m, s, f)->0[i],
            ),
    decreases s.len(),
{
    if s.len() > 0 {
        lemma_subst_seq_elems(m, s.drop_last(), f);
        assert forall|i: int| 0 <= i < s.len() implies #[trigger] subst_f(m, s[i], f) == Some(
            subst_seq_f(m, s, f)->0[i],
        ) by {
            if i < s.len() - 1 {
                assert(s.drop_last()[i] == s[i]);
            }
        }
    }
}

/// A sequence whose elements all substitute is substituted elementwise.
pub proof fn lemma_subst_seq_from_elems(m: Map<TagIdV, TagV>, s: Seq<TagV>, r: Seq<TagV>, f: nat)
    requires
        r.len() == s.len(),
        forall|i: int| 0 <= i < s.len() ==> #[trigger] subst_f(m, s[i], f) == Some(r[i]),
    ensures
        subst_seq_f(m, s, f) == Some(r),
    decreases s.len(),
{
    if s.len() > 0 {
        assert forall|i: int| 0 <= i < s.drop_last().len() implies #[trigger] subst_f(
            m,
            s.drop_last()[i],
            f,
        ) == Some(r.drop_last()[i]) by {
            assert(s.drop_last()[i] == s[i]);
        }
        lemma_subst_seq_from_elems(m, s.drop_last(), r.drop_last(), f);
        assert(subst_f(m, s[s.len() - 1], f) == Some(r[r.len() - 1]));
        assert(r.drop_last().push(r.last()) =~= r);
    }
}

/// A substituted tag holds no bound variable: substituting it again changes nothing.
pub proof fn lemma_subst_unbound(m: Map<TagIdV, TagV>, t: TagV, f: nat)
    requires
        subst_f(m, t, f) is Some,
    ensures
        subst_f(m, subst_f(m, t, f)->0, 0) == subst_f(m, t, f),
    decreases f, t,
{
    match t {
        TagV::Var(v) => {
            if m.contains_key(v) {
                lemma_subst_unbound(m, m[v], (f - 1) as nat);
            }
        },
        TagV::Func(bs, r) => {
            lemma_subst_unbound(m, *r, f);
            let bs2 = subst_seq_f(m, bs, f)->0;
            lemma_subst_seq_elems(m, bs, f);
            assert forall|i: int| 0 <= i < bs2.len() implies #[trigger] subst_f(m, bs2[i], 0)
                == Some(bs2[i]) by {
                lemma_subst_unbound(m, bs[i], f);
            }
            lemma_subst_seq_from_elems(m, bs2, bs2, 0);
        },
        TagV::Property(i) => {
            lemma_subst_unbound(m, *i, f);
        },
        _ => {},
    }
}

/// Substituting under a larger set of bindings factors through the smaller one.
pub proof fn lemma_subst_compose(m: Map<TagIdV, TagV>, m2: Map<TagIdV, TagV>, t: TagV, f: nat)
    requires
        m.submap_of(m2),
        subst_f(m2, t, f) is Some,
    ensures
        subst_f(m, t, f) is Some,
        subst_f(m2, subst_f(m, t, f)->0, f) == subst_f(m2, t, f),
    decreases f, t,
{
    match t {
        TagV::Var(v) => {
            if m.contains_key(v) {
                lemma_subst_compose(m, m2, m[v], (f - 1) as nat);
                let y = subst_f(m, m[v], (f - 1) as nat)->0;
                lemma_subst_fuel(m2, y, (f - 1) as nat, f);
            }
        },
        TagV::Func(bs, r) => {
            lemma_subst_compose(m, m2, *r, f);
            lemma_subst_seq_elems(m2, bs, f);
            assert forall|i: int| 0 <= i < bs.len() implies #[trigger] subst_f(m, bs[i], f) is Some
                by {
                lemma_subst_compose(m, m2, bs[i], f);
            }
            let ys = Seq::new(bs.len(), |i: int| subst_f(m, bs[i], f)->0);
            lemma_subst_seq_from_elems(m, bs, ys, f);
            let xs = subst_seq_f(m2, bs, f)->0;
            assert forall|i: int| 0 <= i < ys.len() implies #[trigger] subst_f(m2, ys[i], f) == Some(
                xs[i],
            ) by {
                lemma_subst_compose(m, m2, bs[i], f);
            }
            lemma_subst_seq_from_elems(m2, ys, xs, f);
        },
        TagV::Property(i) => {
            lemma_subst_compose(m, m2, *i, f);
        },
        _ => {},
    }
}

/// Substitution is idempotent: substituting a substituted tag again gives it back.
pub proof fn lemma_subst_idempotent(m: Map<TagIdV, TagV>, t: TagV)
    requires
        subst_ok(m, t),
    ensures
        subst_ok(m, subst(m, t)),
        subst(m, subst(m, t)) == subst(m, t),
{
    let f = choose|f: nat| #[trigger] subst_f(m, t, f) is Some;
    lemma_subst_unbound(m, t, f);
    lemma_subst_value(m, subst_f(m, t, f)->0, 0);
}

/// A substitution of tag variables by tags, built by unification.
pub struct Substitution {
    entries: Vec<(TagId, Tag)>,
    map: Ghost<Map<TagIdV, TagV>>,
}

impl Substitution {
    /// The bindings of the substitution.
    pub closed spec fn view(&self) -> Map<TagIdV, TagV> {
        self.map@
    }

    /// The entries hold each variable once, with the bound tag of the view.
    pub closed spec fn wf(&self) -> bool {
        &&& forall|i: int|
            0 <= i < self.entries@.len() ==> #[trigger] self.map@.contains_key(
                self.entries@[i].0@,
            ) && self.map@[self.entries@[i].0@] == self.entries@[i].1@
        &&& forall|k: TagIdV|
            #[trigger] self.map@.contains_key(k) ==> exists|i: int|
                0 <= i < self.entries@.len() && #[trigger] self.entries@[i].0@ == k
        &&& forall|i: int, j: int|
            0 <= i < self.entries@.len() && 0 <= j < self.entries@.len() && i != j
                ==> #[trigger] self.entries@[i].0@ != #[trigger] self.entries@[j].0@
    }

    /// Creates an empty substitution.
    pub fn new() -> (r: Substitution)
        ensures
            r.wf(),
            r@ == Map::<TagIdV, TagV>::empty(),
    {
        Substitution { entries: Vec::new(), map: Ghost(Map::empty()) }
    }

    /// Returns the tag bound to a variable, if any.
    pub fn lookup(&self, v: &TagId) -> (r: Option<&Tag>)
        requires
            self.wf(),
        ensures
            r is Some <==> self@.contains_key(v@),
            r matches Some(t) ==> t@ == self@[v@],
    {
        let mut i: usize = 0;
        while i < self.entries.len()
            invariant
                self.wf(),
                i <= self.entries.len(),
                forall|j: int| 0 <= j < i ==> #[trigger] self.entries@[j].0@ != v@,
            decreases self.entries.len() - i,
        {
            if self.entries[i].0.same(v) {
                return Some(&self.entries[i].1);
            }
            i = i + 1;
        }
        None
    }

    /// Binds the variable `v` to the tag `t`, replacing any previous binding of `v`.
    pub fn extend(&mut self, v: TagId, t: Tag)
        requires
            old(self).wf(),
        ensures
            final(self).wf(),
            final(self)@ == old(self)@.insert(v@, t@),
    {
        let ghost key = v@;
        let ghost value = t@;
        let mut i: usize = 0;
        while i < self.entries.len()
            invariant
                self.wf(),
                self@ == old(self)@,
                i <= self.entries.len(),
                v@ == key,
                t@ == value,
                forall|j: int| 0 <= j < i ==> #[trigger] self.entries@[j].0@ != key,
            decreases self.entries.len() - i,
        {
            if self.entries[i].0.same(&v) {
                let ghost old_entries = self.entries@;
                self.entries.set(i, (v, t));
                self.map = Ghost(self.map@.insert(key, value));
                assert forall|k: TagIdV| #[trigger] self.map@.contains_key(k) implies exists|j: int|
                    0 <= j < self.entries@.len() && #[trigger] self.entries@[j].0@ == k by {
                    if k != key {
                        let j = choose|j: int|
                            0 <= j < old_entries.len() && #[trigger] old_entries[j].0@ == k;
                        assert(self.entries@[j].0@ == k);
                    } else {
                        assert(self.entries@[i as int].0@ == k);
                    }
                }
                return ;
            }
            i = i + 1;
        }
        let ghost old_entries = self.entries@;
        self.entries.push((v, t));
        self.map = Ghost(self.map@.insert(key, value));
        assert forall|k: TagIdV| #[trigger] self.map@.contains_key(k) implies exists|j: int|
            0 <= j < self.entries@.len() && #[trigger] self.entries@[j].0@ == k by {
            if k != key {
                let j = choose|j: int| 0 <= j < old_entries.len() && #[trigger] old_entries[j].0@ == k;
                assert(self.entries@[j].0@ == k);
            } else {
                assert(self.entries@[old_entries.len() as int].0@ == k);
            }
        }
    }

    fn subst_rec(&self, tag: &Tag, Ghost(f): Ghost<nat>) -> (r: Tag)
        requires
            self.wf(),
            subst_f(self@, tag@, f) is Some,
        ensures
            subst_f(self@, tag@, f) == Some(r@),
        decreases f, tag,
    {
        match tag {
            Tag::Var(v) => {
                match self.lookup(v) {
                    Some(t) => self.subst_rec(t, Ghost((f - 1) as nat)),
                    None => tag.duplicate(),
                }
            },
            Tag::Func(ft) => {
                let ghost bs = views(ft.bindings@);
                proof {
                    lemma_views(ft.bindings@);
                    lemma_subst_seq_elems(self@, bs, f);
                }
                let mut bindings: Vec<Tag> = Vec::new();
                let mut i: usize = 0;
                #[verifier::loop_isolation(false)]
                while i < ft.bindings.len()
                    invariant
                        i <= ft.bindings.len(),
                        bindings.len() == i,
                        forall|j: int|
                            0 <= j < i ==> Some(#[trigger] bindings@[j].view()) == subst_f(
                                self@,
                                bs[j],
                                f,
                            ),
                    decreases ft.bindings.len() - i,
                {
                    proof {
                        assert(decreases_to!(*tag => *ft));
                        assert(decreases_to!(*ft => ft.bindings));
                        assert(decreases_to!(ft.bindings => ft.bindings@));
                        assert(decreases_to!(ft.bindings@ => ft.bindings@[i as int]));
                        assert(bs[i as int] == ft.bindings@[i as int].view());
                    }
                    let b = self.subst_rec(&ft.bindings[i], Ghost(f));
                    bindings.push(b);
                    i = i + 1;
                }
                let range = self.subst_rec(&*ft.range, Ghost(f));
                proof {
                    lemma_views(bindings@);
                    assert(views(bindings@) =~= subst_seq_f(self@, bs, f)->0);
                }
                Tag::Func(FuncTag { bindings, range: Box::new(range) })
            },
            Tag::Property(t) => {
                let s = self.subst_rec(&**t, Ghost(f));
                Tag::Property(Box::new(s))
            },
            _ => tag.duplicate(),
        }
    }

    /// Substitutes each bound variable of the tag by its bound tag, recursively.
    pub fn substitute(&self, tag: &Tag) -> (r: Tag)
        requires
            self.wf(),
            subst_ok(self@, tag@),
        ensures
            r@ == subst(self@, tag@),
    {
        let ghost f = choose|f: nat| #[trigger] subst_f(self@, tag@, f) is Some;
        self.subst_rec(tag, Ghost(f))
    }

    fn subst_bounded(&self, tag: &Tag, fuel: u64) -> (r: Option<Tag>)
        requires
            self.wf(),
        ensures
            match subst_f(self@, tag@, fuel as nat) {
                Some(x) => r matches Some(y) && y@ == x,
                None => r is None,
            },
        decreases fuel, tag,
    {
        match tag {
            Tag::Var(v) => {
                match self.lookup(v) {
                    Some(t) => {
                        if fuel == 0 {
                            None
                        } else {
                            self.subst_bounded(t, fuel - 1)
                        }
                    },
                    None => Some(tag.duplicate()),
                }
            },
            Tag::Func(ft) => {
                let ghost f = fuel as nat;
                let ghost bs = views(ft.bindings@);
                proof {
                    lemma_views(ft.bindings@);
                }
                let mut bindings: Vec<Tag> = Vec::new();
                let mut i: usize = 0;
                #[verifier::loop_isolation(false)]
                while i < ft.bindings.len()
                    invariant
                        i <= ft.bindings.len(),
                        bindings.len() == i,
                        forall|j: int|
                            0 <= j < i ==> Some(#[trigger] bindings@[j].view()) == subst_f(
                                self@,
                                bs[j],
                                f,
                            ),
                    decreases ft.bindings.len() - i,
                {
                    proof {
                        assert(decreases_to!(*tag => *ft));
                        assert(decreases_to!(*ft => ft.bindings));
                        assert(decreases_to!(ft.bindings => ft.bindings@));
                        assert(decreases_to!(ft.bindings@ => ft.bindings@[i as int]));
                        assert(bs[i as int] == ft.bindings@[i as int].view());
                    }
                    match self.subst_bounded(&ft.bindings[i], fuel) {
                        Some(b) => bindings.push(b),
                        None => {
                            proof {
                                if subst_seq_f(self@, bs, f) is Some {
                                    lemma_subst_seq_elems(self@, bs, f);
                                }
                            }
                            return None;
                        },
                    }
                    i = i + 1;
                }
                proof {
                    lemma_views(bindings@);
                    lemma_subst_seq_from_elems(self@, bs, views(bindings@), f);
                }
                match self.subst_bounded(&*ft.range, fuel) {
                    Some(range) => Some(Tag::Func(FuncTag { bindings, range: Box::new(range) })),
                    None => None,
                }
            },
            Tag::Property(t) => {
                match self.subst_bounded(&**t, fuel) {
                    Some(x) => Some(Tag::Property(Box::new(x))),
                    None => None,
                }
            },
            _ => Some(tag.duplicate()),
        }
    }

    /// Substitutes as `substitute` does, unfolding at most `fuel` bindings
    /// in a chain: `None` when that is not enough, and always when the
    /// substitution of the tag does not terminate.
    pub fn substitute_within(&self, tag: &Tag, fuel: u64) -> (r: Option<Tag>)
        requires
            self.wf(),
        ensures
            r is Some <==> subst_f(self@, tag@, fuel as nat) is Some,
            r matches Some(x) ==> subst_ok(self@, tag@) && x@ == subst(self@, tag@),
            !subst_ok(self@, tag@) ==> r is None,
    {
        let r = self.subst_bounded(tag, fuel);
        proof {
            if r is Some {
                lemma_subst_value(self@, tag@, fuel as nat);
            }
        }
        r
    }
}

} // verus!
