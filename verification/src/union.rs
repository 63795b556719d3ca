use crate::tag::{lemma_views, views, FuncTag, Tag, TagV};
use indexmap::IndexSet;
use vstd::prelude::*;

verus! {

/// The insertion-ordered set type of `indexmap`, opaque to Verus: its
/// contents are known through `index_set_tags` and the wrappers below.
#[verifier::external_type_specification]
#[verifier::external_body]
#[verifier::reject_recursive_types(T)]
#[verifier::reject_recursive_types(S)]
pub struct ExIndexSet<T, S>(IndexSet<T, S>);

/// The tags held by an insertion-ordered set of tags, in insertion order.
pub uninterp spec fn index_set_tags(s: IndexSet<Tag>) -> Seq<TagV>;

/// `IndexSet::new`: an empty set.
#[verifier::external_body]
fn index_set_new() -> (r: IndexSet<Tag>)
    ensures
        index_set_tags(r) == Seq::<TagV>::empty(),
{
    IndexSet::new()
}

/// `IndexSet::insert_full`: when an equal tag is in the set, returns its index
/// and `false` and leaves the set unchanged; otherwise appends the tag and
/// returns its index and `true`.
#[verifier::external_body]
fn index_set_insert_full(s: &mut IndexSet<Tag>, t: Tag) -> (r: (usize, bool))
    ensures
        r.1 <==> !index_set_tags(*old(s)).contains(t@),
        index_set_tags(*final(s)) == if r.1 {
            index_set_tags(*old(s)).push(t@)
        } else {
            index_set_tags(*old(s))
        },
        r.0 < index_set_tags(*final(s)).len(),
        index_set_tags(*final(s))[r.0 as int] == t@,
{
    s.insert_full(t)
}

/// `IndexSet::get_full`: the index and the element of an equal tag, if any.
#[verifier::external_body]
fn index_set_get_full<'a>(s: &'a IndexSet<Tag>, t: &Tag) -> (r: Option<(usize, &'a Tag)>)
    ensures
        r is Some <==> index_set_tags(*s).contains(t@),
        r matches Some((i, x)) ==> i < index_set_tags(*s).len() && index_set_tags(*s)[i as int]
            == t@ && x@ == t@,
{
    s.get_full(t)
}

/// `IndexSet::get_index`: the element at an index, if the index is in bounds.
#[verifier::external_body]
fn index_set_get_index<'a>(s: &'a IndexSet<Tag>, i: usize) -> (r: Option<&'a Tag>)
    ensures
        r is Some <==> i < index_set_tags(*s).len(),
        r matches Some(x) ==> x@ == index_set_tags(*s)[i as int],
{
    s.get_index(i)
}

/// The root of the tree of `i` in the forest of parents `p`, following
/// parents of strictly increasing rank below `bound`.
pub open spec fn root_of(p: Seq<usize>, rank: Seq<nat>, bound: nat, i: int) -> int
    decreases bound - rank[i],
{
    if 0 <= i < p.len() && i < rank.len() && p[i] != i && p[i] < rank.len() && rank[i]
        < rank[p[i] as int] && rank[p[i] as int] < bound {
        root_of(p, rank, bound, p[i] as int)
    } else {
        i
    }
}

/// Parents form a forest: each parent is in bounds and has a greater rank.
pub open spec fn forest(p: Seq<usize>, rank: Seq<nat>, bound: nat) -> bool {
    &&& p.len() == rank.len()
    &&& forall|i: int|
        0 <= i < p.len() ==> #[trigger] p[i] < p.len() && rank[i] < bound && (p[i] != i ==> rank[i]
            < rank[p[i] as int])
}

proof fn lemma_forest_at(p: Seq<usize>, rank: Seq<nat>, bound: nat, i: int)
    requires
        forest(p, rank, bound),
        0 <= i < p.len(),
    ensures
        p[i] < p.len(),
        rank[i] < bound,
        p[i] != i ==> rank[i] < rank[p[i] as int],
        rank[p[i] as int] < bound,
{
    assert(p[i] < p.len());
    let j = p[i] as int;
    assert(p[j] < p.len());
}

/// The root of a tree is in bounds, is its own parent and is of higher rank.
proof fn lemma_root(p: Seq<usize>, rank: Seq<nat>, bound: nat, i: int)
    requires
        forest(p, rank, bound),
        0 <= i < p.len(),
    ensures
        0 <= root_of(p, rank, bound, i) < p.len(),
        p[root_of(p, rank, bound, i)] == root_of(p, rank, bound, i),
        root_of(p, rank, bound, i) != i ==> rank[i] < rank[root_of(p, rank, bound, i)],
    decreases bound - rank[i],
{
    lemma_forest_at(p, rank, bound, i);
    if p[i] != i {
        lemma_root(p, rank, bound, p[i] as int);
    }
}

/// Pointing a node directly at its root keeps the forest and every root.
proof fn lemma_compress(p: Seq<usize>, rank: Seq<nat>, bound: nat, v: int, x: int)
    requires
        forest(p, rank, bound),
        p.len() <= usize::MAX,
        0 <= v < p.len(),
        0 <= x < p.len(),
    ensures
        forest(p.update(v, root_of(p, rank, bound, v) as usize), rank, bound),
        root_of(p.update(v, root_of(p, rank, bound, v) as usize), rank, bound, x) == root_of(
            p,
            rank,
            bound,
            x,
        ),
    decreases bound - rank[x],
{
    let r = root_of(p, rank, bound, v);
    lemma_root(p, rank, bound, v);
    lemma_forest_at(p, rank, bound, x);
    let p2 = p.update(v, r as usize);
    assert forall|i: int| 0 <= i < p2.len() implies #[trigger] p2[i] < p2.len() && rank[i] < bound
        && (p2[i] != i ==> rank[i] < rank[p2[i] as int]) by {
        lemma_forest_at(p, rank, bound, i);
    }
    assert(forest(p2, rank, bound));
    lemma_forest_at(p2, rank, bound, x);
    lemma_forest_at(p, rank, bound, r);
    if x == v {
        if r != v {
            lemma_forest_at(p2, rank, bound, r);
            assert(p2[r] == r);
            assert(root_of(p2, rank, bound, r) == r);
            assert(p2[v] == r);
            assert(rank[v] < rank[r]);
            assert(root_of(p2, rank, bound, v) == root_of(p2, rank, bound, r));
        } else {
            assert(p2 =~= p);
        }
    } else if p[x] != x {
        lemma_forest_at(p, rank, bound, p[x] as int);
        lemma_compress(p, rank, bound, v, p[x] as int);
        assert(p2[x] == p[x]);
        assert(root_of(p, rank, bound, x) == root_of(p, rank, bound, p[x] as int));
        assert(root_of(p2, rank, bound, x) == root_of(p2, rank, bound, p2[x] as int));
    } else {
        assert(p2[x] == x);
    }
}

/// Linking the root `a` under the root `b` merges their trees under `b`.
proof fn lemma_link(p: Seq<usize>, rank: Seq<nat>, bound: nat, a: int, b: int, x: int)
    requires
        forest(p, rank, bound),
        0 <= a < p.len(),
        0 <= b < p.len(),
        0 <= x < p.len(),
        p[a] == a,
        p[b] == b,
        a != b,
    ensures
        ({
            let rb = if rank[b] <= rank[a] {
                rank[a] + 1
            } else {
                rank[b]
            };
            let rank2 = rank.update(b, rb);
            let bound2 = if bound <= rb {
                rb + 1
            } else {
                bound
            };
            let p2 = p.update(a, b as usize);
            &&& forest(p2, rank2, bound2)
            &&& root_of(p2, rank2, bound2, x) == if root_of(p, rank, bound, x) == a {
                b
            } else {
                root_of(p, rank, bound, x)
            }
        }),
    decreases bound - rank[x],
{
    let rb = if rank[b] <= rank[a] {
        rank[a] + 1
    } else {
        rank[b]
    };
    let rank2 = rank.update(b, rb);
    let bound2: nat = if bound <= rb {
        (rb + 1) as nat
    } else {
        bound
    };
    let p2 = p.update(a, b as usize);
    lemma_forest_at(p, rank, bound, x);
    lemma_forest_at(p, rank, bound, a);
    lemma_forest_at(p, rank, bound, b);
    assert forall|i: int| 0 <= i < p2.len() implies #[trigger] p2[i] < p2.len() && rank2[i] < bound2
        && (p2[i] != i ==> rank2[i] < rank2[p2[i] as int]) by {
        lemma_forest_at(p, rank, bound, i);
    }
    assert(forest(p2, rank2, bound2));
    lemma_forest_at(p2, rank2, bound2, x);
    lemma_forest_at(p2, rank2, bound2, b);
    if x == a {
        assert(p2[b] == b);
        assert(root_of(p2, rank2, bound2, b) == b);
        assert(rank2[a] < rank2[b]);
        assert(root_of(p2, rank2, bound2, a) == root_of(p2, rank2, bound2, b));
    } else if p[x] != x {
        lemma_forest_at(p, rank, bound, p[x] as int);
        lemma_link(p, rank, bound, a, b, p[x] as int);
        assert(p2[x] == p[x]);
        assert(root_of(p, rank, bound, x) == root_of(p, rank, bound, p[x] as int));
        assert(root_of(p2, rank2, bound2, x) == root_of(p2, rank2, bound2, p2[x] as int));
    } else {
        assert(p2[x] == x);
        assert(root_of(p2, rank2, bound2, x) == x);
    }
}

/// Adding a new node as its own root keeps the forest and every root.
proof fn lemma_push(p: Seq<usize>, rank: Seq<nat>, bound: nat, n: usize, x: int)
    requires
        forest(p, rank, bound),
        bound > 0,
        n == p.len(),
        0 <= x <= p.len(),
    ensures
        forest(p.push(n), rank.push(0), bound),
        root_of(p.push(n), rank.push(0), bound, x) == if x < p.len() {
            root_of(p, rank, bound, x)
        } else {
            x
        },
    decreases bound - rank.push(0)[x],
{
    let p2 = p.push(n);
    let rank2 = rank.push(0);
    assert forall|i: int| 0 <= i < p2.len() implies #[trigger] p2[i] < p2.len() && rank2[i] < bound
        && (p2[i] != i ==> rank2[i] < rank2[p2[i] as int]) by {
        if i < p.len() {
            assert(p2[i] == p[i]);
            lemma_forest_at(p, rank, bound, i);
        }
    }
    if x < p.len() {
        lemma_forest_at(p, rank, bound, x);
        if p[x] != x {
            lemma_push(p, rank, bound, n, p[x] as int);
        }
    }
}

/// A union-find (disjoint-set) structure over tags: each tag belongs to a
/// class of equivalence with a representative tag.
pub struct UnionFind {
    tags: IndexSet<Tag>,
    parents: Vec<usize>,
    rank: Ghost<Seq<nat>>,
    bound: Ghost<nat>,
}

impl UnionFind {
    spec fn tags_v(&self) -> Seq<TagV> {
        index_set_tags(self.tags)
    }

    /// The representative of the class of each known tag.
    pub closed spec fn view(&self) -> Map<TagV, TagV> {
        Map::new(
            |t: TagV| self.tags_v().contains(t),
            |t: TagV|
                self.tags_v()[root_of(self.parents@, self.rank@, self.bound@, self.tags_v().index_of(t))],
        )
    }

    /// The tags are distinct and the parents form a forest.
    pub closed spec fn wf(&self) -> bool {
        &&& self.tags_v().len() == self.parents@.len()
        &&& self.tags_v().no_duplicates()
        &&& forest(self.parents@, self.rank@, self.bound@)
        &&& self.bound@ > 0
    }

    proof fn lemma_index_of_seq(s: Seq<TagV>, i: int)
        requires
            s.no_duplicates(),
            0 <= i < s.len(),
        ensures
            s.index_of(s[i]) == i,
            s.contains(s[i]),
    {
        assert(s[i] == s[i]);
    }

    proof fn lemma_index_of(&self, i: int)
        requires
            self.wf(),
            0 <= i < self.tags_v().len(),
        ensures
            self.tags_v().index_of(self.tags_v()[i]) == i,
            self.tags_v().contains(self.tags_v()[i]),
            self@.contains_key(self.tags_v()[i]),
            self@[self.tags_v()[i]] == self.tags_v()[root_of(
                self.parents@,
                self.rank@,
                self.bound@,
                i,
            )],
    {
        assert(self.tags_v()[i] == self.tags_v()[i]);
    }

    /// A representative is known, and is the representative of its own class.
    pub proof fn lemma_representative_is_fixed(&self, t: TagV)
        requires
            self.wf(),
            self@.contains_key(t),
        ensures
            self@.contains_key(self@[t]),
            self@[self@[t]] == self@[t],
    {
        let i = self.tags_v().index_of(t);
        assert(0 <= i < self.tags_v().len() && self.tags_v()[i] == t);
        self.lemma_index_of(i);
        lemma_root(self.parents@, self.rank@, self.bound@, i);
        let r = root_of(self.parents@, self.rank@, self.bound@, i);
        assert(root_of(self.parents@, self.rank@, self.bound@, r) == r);
        self.lemma_index_of(r);
    }

    /// Creates a new set of disjoint sets.
    pub fn new() -> (r: UnionFind)
        ensures
            r.wf(),
            r@ == Map::<TagV, TagV>::empty(),
    {
        let r = UnionFind {
            tags: index_set_new(),
            parents: Vec::new(),
            rank: Ghost(Seq::empty()),
            bound: Ghost(1),
        };
        assert(r@ =~= Map::<TagV, TagV>::empty());
        r
    }

    /// Inserts a tag as a new disjoint set, unless it is already known.
    fn insert(&mut self, tag: Tag) -> (r: usize)
        requires
            old(self).wf(),
        ensures
            final(self).wf(),
            r < final(self).tags_v().len(),
            final(self).tags_v()[r as int] == tag@,
            final(self).tags_v().len() >= old(self).tags_v().len(),
            forall|i: int|
                0 <= i < old(self).tags_v().len() ==> #[trigger] final(self).tags_v()[i] == old(
                    self,
                ).tags_v()[i],
            final(self)@.dom() == old(self)@.dom().insert(tag@),
            forall|t: TagV| #[trigger]
                final(self)@.contains_key(t) ==> final(self)@[t] == if old(self)@.contains_key(t) {
                    old(self)@[t]
                } else {
                    t
                },
    {
        let ghost t = tag@;
        let ghost old_tags = self.tags_v();
        let ghost p = self.parents@;
        let ghost rank = self.rank@;
        let ghost bound = self.bound@;
        let (index, inserted) = index_set_insert_full(&mut self.tags, tag);
        if index == self.parents.len() {
            self.parents.push(index);
            self.rank = Ghost(rank.push(0));
            proof {
                assert(inserted);
                assert(self.parents@ == p.push(index));
                lemma_push(p, rank, bound, index, 0);
                assert forall|i: int, j: int|
                    0 <= i < self.tags_v().len() && 0 <= j < self.tags_v().len() && i != j
                        implies self.tags_v()[i] != self.tags_v()[j] by {
                    if i == old_tags.len() {
                        assert(old_tags.contains(self.tags_v()[j]));
                    } else if j == old_tags.len() {
                        assert(old_tags.contains(self.tags_v()[i]));
                    }
                }
            }
        }
        proof {
            if !inserted {
                assert(index < p.len());
            }
            assert(self.wf());
            assert forall|x: TagV| #[trigger]
                self@.contains_key(x) <==> old(self)@.dom().insert(t).contains(x) by {
                if self.tags_v().contains(x) {
                    let i = choose|i: int| 0 <= i < self.tags_v().len() && self.tags_v()[i] == x;
                    if i < old_tags.len() {
                        assert(old_tags[i] == x);
                    }
                }
                if old_tags.contains(x) {
                    let i = choose|i: int| 0 <= i < old_tags.len() && old_tags[i] == x;
                    assert(self.tags_v()[i] == x);
                }
            }
            assert(self@.dom() =~= old(self)@.dom().insert(t));
            assert forall|x: TagV| #[trigger] self@.contains_key(x) implies self@[x] == if old(
                self,
            )@.contains_key(x) {
                old(self)@[x]
            } else {
                x
            } by {
                let i = self.tags_v().index_of(x);
                self.lemma_index_of(i);
                if i < old_tags.len() {
                    assert(old_tags[i] == x);
                    old(self).lemma_index_of(i);
                    if inserted {
                        lemma_push(p, rank, bound, index, i);
                    }
                    lemma_root(p, rank, bound, i);
                    if inserted {
                        assert(self.tags_v()[root_of(p, rank, bound, i)] == old_tags[root_of(
                            p,
                            rank,
                            bound,
                            i,
                        )]);
                    }
                } else {
                    lemma_push(p, rank, bound, index, i);
                }
            }
        }
        index
    }

    /// Reduces a tag reference by walking the parent path.
    fn reduce(&self, v: usize) -> (r: usize)
        requires
            self.wf(),
            v < self.parents.len(),
        ensures
            r == root_of(self.parents@, self.rank@, self.bound@, v as int),
    {
        let mut w = v;
        loop
            invariant
                self.wf(),
                w < self.parents.len(),
                root_of(self.parents@, self.rank@, self.bound@, w as int) == root_of(
                    self.parents@,
                    self.rank@,
                    self.bound@,
                    v as int,
                ),
            decreases self.bound@ - self.rank@[w as int],
        {
            let parent = self.parents[w];
            proof {
                lemma_forest_at(self.parents@, self.rank@, self.bound@, w as int);
            }
            if parent == w {
                assert(root_of(self.parents@, self.rank@, self.bound@, w as int) == w);
                return w;
            }
            w = parent;
        }
    }

    /// Reduces a tag reference by walking the parent path, then points the
    /// tag directly at its representative.
    fn reduce_mut(&mut self, v: usize) -> (r: usize)
        requires
            old(self).wf(),
            v < old(self).parents.len(),
        ensures
            final(self).wf(),
            final(self).tags == old(self).tags,
            final(self).rank == old(self).rank,
            final(self).bound == old(self).bound,
            final(self).parents@.len() == old(self).parents@.len(),
            r == root_of(old(self).parents@, old(self).rank@, old(self).bound@, v as int),
            forall|x: int|
                0 <= x < old(self).parents@.len() ==> #[trigger] root_of(
                    final(self).parents@,
                    final(self).rank@,
                    final(self).bound@,
                    x,
                ) == root_of(old(self).parents@, old(self).rank@, old(self).bound@, x),
    {
        let w = self.reduce(v);
        proof {
            assert forall|x: int| 0 <= x < old(self).parents@.len() implies #[trigger] root_of(
                self.parents@.update(v as int, w),
                self.rank@,
                self.bound@,
                x,
            ) == root_of(old(self).parents@, old(self).rank@, old(self).bound@, x) by {
                lemma_compress(self.parents@, self.rank@, self.bound@, v as int, x);
            }
            lemma_compress(self.parents@, self.rank@, self.bound@, v as int, 0);
        }
        self.parents.set(v, w);
        w
    }

    /// Joins the classes of equivalence corresponding to the `left` and `right` tags.
    ///
    /// The representative of the `right` class always takes over as representative for the `left` class.
    pub fn union(&mut self, left: Tag, right: Tag)
        requires
            old(self).wf(),
        ensures
            final(self).wf(),
            final(self)@.dom() == old(self)@.dom().insert(left@).insert(right@),
            forall|t: TagV| #[trigger]
                final(self)@.contains_key(t) ==> final(self)@[t] == if class_rep(old(self)@, t)
                    == class_rep(old(self)@, left@) {
                    class_rep(old(self)@, right@)
                } else {
                    class_rep(old(self)@, t)
                },
    {
        let ghost l = left@;
        let ghost r = right@;
        let ghost m0 = self@;
        let v = self.insert(left);
        let ghost m1 = self@;
        let w = self.insert(right);
        let ghost m2 = self@;
        let ghost tags = self.tags_v();
        let ghost p0 = self.parents@;
        let vrep = self.reduce_mut(v);
        let wrep = self.reduce_mut(w);
        let ghost p = self.parents@;
        let ghost rank = self.rank@;
        let ghost bound = self.bound@;
        proof {
            lemma_root(p0, rank, bound, v as int);
            lemma_root(p0, rank, bound, w as int);
            lemma_root(p, rank, bound, vrep as int);
            lemma_root(p, rank, bound, wrep as int);
        }
        self.parents.set(vrep, wrep);
        if vrep != wrep {
            let ghost rb = if rank[wrep as int] <= rank[vrep as int] {
                rank[vrep as int] + 1
            } else {
                rank[wrep as int]
            };
            self.rank = Ghost(rank.update(wrep as int, rb));
            self.bound = Ghost(
                if bound <= rb {
                    (rb + 1) as nat
                } else {
                    bound
                },
            );
            proof {
                lemma_link(p, rank, bound, vrep as int, wrep as int, 0);
            }
        } else {
            assert(self.parents@ =~= p);
        }
        proof {
            assert(self.wf());
            assert(self@.dom() =~= m0.dom().insert(l).insert(r));
            assert forall|t: TagV| #[trigger] self@.contains_key(t) implies self@[t] == if class_rep(
                m0,
                t,
            ) == class_rep(m0, l) {
                class_rep(m0, r)
            } else {
                class_rep(m0, t)
            } by {
                let i = tags.index_of(t);
                self.lemma_index_of(i);
                assert(tags[i] == t);
                Self::lemma_index_of_seq(tags, v as int);
                Self::lemma_index_of_seq(tags, w as int);
                Self::lemma_index_of_seq(tags, i);
                assert(tags[v as int] == l);
                assert(tags[w as int] == r);
                lemma_root(p0, rank, bound, i);
                // The classes before the links are those of the tags as they were.
                assert(m2[t] == class_rep(m0, t));
                assert(m1.dom().contains(l));
                assert(m1.contains_key(l));
                assert(m2.contains_key(l));
                assert(m2.contains_key(r));
                assert(m1.contains_key(t) ==> m2[t] == m1[t]);
                assert(m2[l] == class_rep(m0, l));
                assert(m2[r] == class_rep(m0, r));
                let ri = root_of(p, rank, bound, i);
                assert(root_of(p0, rank, bound, i) == ri);
                assert(m2[t] == tags[ri]);
                assert(m2[l] == tags[vrep as int]);
                assert(m2[r] == tags[wrep as int]);
                lemma_root(p, rank, bound, i);
                if vrep != wrep {
                    lemma_link(p, rank, bound, vrep as int, wrep as int, i);
                }
            }
        }
    }

    /// Finds the representative of the class of equivalence given by `tag`,
    /// walking and flattening the parent path.
    ///
    /// If a representative is known, also returns whether a reduction happened.
    pub fn find_mut(&mut self, tag: &Tag) -> (r: Option<(&Tag, bool)>)
        requires
            old(self).wf(),
        ensures
            final(self).wf(),
            final(self)@ == old(self)@,
            r is Some <==> old(self)@.contains_key(tag@),
            r matches Some((t, reduced)) ==> t@ == old(self)@[tag@] && reduced == (t@ != tag@),
    {
        match index_set_get_full(&self.tags, tag) {
            Some((v, _)) => {
                proof {
                    self.lemma_index_of(v as int);
                }
                let vrep = self.reduce_mut(v);
                proof {
                    assert(self@ =~= old(self)@);
                    lemma_root(old(self).parents@, self.rank@, self.bound@, v as int);
                }
                let t = index_set_get_index(&self.tags, vrep).unwrap();
                Some((t, vrep != v))
            },
            None => None,
        }
    }

    /// Finds the representative of the class of equivalence given by `tag`.
    ///
    /// If a representative is known, also returns whether a reduction happened.
    pub fn find(&self, tag: &Tag) -> (r: Option<(&Tag, bool)>)
        requires
            self.wf(),
        ensures
            r is Some <==> self@.contains_key(tag@),
            r matches Some((t, reduced)) ==> t@ == self@[tag@] && reduced == (t@ != tag@),
    {
        match index_set_get_full(&self.tags, tag) {
            Some((v, _)) => {
                proof {
                    self.lemma_index_of(v as int);
                    lemma_root(self.parents@, self.rank@, self.bound@, v as int);
                }
                let vrep = self.reduce(v);
                let t = index_set_get_index(&self.tags, vrep).unwrap();
                Some((t, vrep != v))
            },
            None => None,
        }
    }
}

/// The representative of the class of `t`; an unknown tag is its own class.
pub open spec fn class_rep(m: Map<TagV, TagV>, t: TagV) -> TagV {
    if m.contains_key(t) {
        m[t]
    } else {
        t
    }
}

/// Replaces each variable of `t` by the representative of its class, when
/// that differs from it, recursively, unfolding at most `fuel` nested
/// representatives. `None` when the fuel runs out.
pub open spec fn reduce_f(m: Map<TagV, TagV>, t: TagV, fuel: nat) -> Option<TagV>
    decreases fuel, t,
{
    match t {
        TagV::Var(_) => if m.contains_key(t) && m[t] != t {
            if fuel == 0 {
                None
            } else {
                reduce_f(m, m[t], (fuel - 1) as nat)
            }
        } else {
            Some(t)
        },
        TagV::Func(bs, r) => match (reduce_seq_f(m, bs, fuel), reduce_f(m, *r, fuel)) {
            (Some(bs2), Some(r2)) => Some(TagV::Func(bs2, Box::new(r2))),
            _ => None,
        },
        TagV::Property(i) => match reduce_f(m, *i, fuel) {
            Some(x) => Some(TagV::Property(Box::new(x))),
            None => None,
        },
        _ => Some(t),
    }
}

pub open spec fn reduce_seq_f(m: Map<TagV, TagV>, s: Seq<TagV>, fuel: nat) -> Option<Seq<TagV>>
    decreases fuel, s,
{
    if s.len() == 0 {
        Some(Seq::empty())
    } else {
        match (reduce_seq_f(m, s.drop_last(), fuel), reduce_f(m, s.last(), fuel)) {
            (Some(a), Some(b)) => Some(a.push(b)),
            _ => None,
        }
    }
}

/// The reduction of `t` terminates.
pub open spec fn reduce_ok(m: Map<TagV, TagV>, t: TagV) -> bool {
    exists|f: nat| #[trigger] reduce_f(m, t, f) is Some
}

/// The complete reduction of `t` by the classes of `m`.
pub open spec fn reduce_spec(m: Map<TagV, TagV>, t: TagV) -> TagV {
    reduce_f(m, t, choose|f: nat| #[trigger] reduce_f(m, t, f) is Some)->0
}

proof fn lemma_reduce_seq_elems(m: Map<TagV, TagV>, s: Seq<TagV>, f: nat)
    requires
        reduce_seq_f(m, s, f) is Some,
    ensures
        reduce_seq_f(m, s, f)->0.len() == s.len(),
        forall|i: int|
            0 <= i < s.len() ==> #[trigger] reduce_f(m, s[i], f) == Some(
                reduce_seq_f(m, s, f)->0[i],
            ),
    decreases s.len(),
{
    if s.len() > 0 {
        lemma_reduce_seq_elems(m, s.drop_last(), f);
        assert forall|i: int| 0 <= i < s.len() implies #[trigger] reduce_f(m, s[i], f) == Some(
            reduce_seq_f(m, s, f)->0[i],
        ) by {
            if i < s.len() - 1 {
                assert(s.drop_last()[i] == s[i]);
            }
        }
    }
}

fn reduce_rec(sets: &UnionFind, tag: &Tag, Ghost(f): Ghost<nat>) -> (r: Tag)
    requires
        sets.wf(),
        reduce_f(sets@, tag@, f) is Some,
    ensures
        reduce_f(sets@, tag@, f) == Some(r@),
    decreases f, tag,
{
    match tag {
        Tag::Var(_) => match sets.find(tag) {
            Some((t, true)) => reduce_rec(sets, t, Ghost((f - 1) as nat)),
            _ => tag.duplicate(),
        },
        Tag::Func(ft) => {
            let ghost bs = views(ft.bindings@);
            proof {
                lemma_views(ft.bindings@);
                lemma_reduce_seq_elems(sets@, bs, f);
            }
            let mut bindings: Vec<Tag> = Vec::new();
            let mut i: usize = 0;
            #[verifier::loop_isolation(false)]
            while i < ft.bindings.len()
                invariant
                    i <= ft.bindings.len(),
                    bindings.len() == i,
                    forall|j: int|
                        0 <= j < i ==> Some(#[trigger] bindings@[j].view()) == reduce_f(
                            sets@,
                            bs[j],
                            f,
                        ),
                decreases ft.bindings.len() - i,
            {
                proof {
                    assert(decreases_to!(*tag => *ft));
                    assert(decreases_to!(*ft => ft.bindings));
                    assert(decreases_to!(ft.bindings => ft.bindings@));
                    assert(decreases_to!(ft.bindings@ => ft.bindings@[i as int]));
                    assert(bs[i as int] == ft.bindings@[i as int].view());
                }
                let b = reduce_rec(sets, &ft.bindings[i], Ghost(f));
                bindings.push(b);
                i = i + 1;
            }
            let range = reduce_rec(sets, &*ft.range, Ghost(f));
            proof {
                lemma_views(bindings@);
                assert(views(bindings@) =~= reduce_seq_f(sets@, bs, f)->0);
            }
            Tag::Func(FuncTag { bindings, range: Box::new(range) })
        },
        Tag::Property(t) => {
            let x = reduce_rec(sets, &**t, Ghost(f));
            Tag::Property(Box::new(x))
        },
        _ => tag.duplicate(),
    }
}

/// More fuel never changes a defined reduction.
proof fn lemma_reduce_fuel(m: Map<TagV, TagV>, t: TagV, f: nat, g: nat)
    requires
        reduce_f(m, t, f) is Some,
        f <= g,
    ensures
        reduce_f(m, t, g) == reduce_f(m, t, f),
    decreases f, t,
{
    match t {
        TagV::Var(_) => {
            if m.contains_key(t) && m[t] != t {
                lemma_reduce_fuel(m, m[t], (f - 1) as nat, (g - 1) as nat);
            }
        },
        TagV::Func(bs, r) => {
            lemma_reduce_seq_fuel(m, bs, f, g);
            lemma_reduce_fuel(m, *r, f, g);
        },
        TagV::Property(i) => {
            lemma_reduce_fuel(m, *i, f, g);
        },
        _ => {},
    }
}

proof fn lemma_reduce_seq_fuel(m: Map<TagV, TagV>, s: Seq<TagV>, f: nat, g: nat)
    requires
        reduce_seq_f(m, s, f) is Some,
        f <= g,
    ensures
        reduce_seq_f(m, s, g) == reduce_seq_f(m, s, f),
    decreases f, s,
{
    if s.len() > 0 {
        lemma_reduce_seq_fuel(m, s.drop_last(), f, g);
        lemma_reduce_fuel(m, s.last(), f, g);
    }
}

proof fn lemma_reduce_seq_from_elems(m: Map<TagV, TagV>, s: Seq<TagV>, r: Seq<TagV>, f: nat)
    requires
        r.len() == s.len(),
        forall|i: int| 0 <= i < s.len() ==> #[trigger] reduce_f(m, s[i], f) == Some(r[i]),
    ensures
        reduce_seq_f(m, s, f) == Some(r),
    decreases s.len(),
{
    if s.len() > 0 {
        assert forall|i: int| 0 <= i < s.drop_last().len() implies #[trigger] reduce_f(
            m,
            s.drop_last()[i],
            f,
        ) == Some(r.drop_last()[i]) by {
            assert(s.drop_last()[i] == s[i]);
        }
        lemma_reduce_seq_from_elems(m, s.drop_last(), r.drop_last(), f);
        assert(reduce_f(m, s[s.len() - 1], f) == Some(r[r.len() - 1]));
        assert(r.drop_last().push(r.last()) =~= r);
    }
}

fn reduce_bounded(sets: &UnionFind, tag: &Tag, fuel: u64) -> (r: Option<Tag>)
    requires
        sets.wf(),
    ensures
        match reduce_f(sets@, tag@, fuel as nat) {
            Some(x) => r matches Some(y) && y@ == x,
            None => r is None,
        },
    decreases fuel, tag,
{
    match tag {
        Tag::Var(_) => match sets.find(tag) {
            Some((t, true)) => {
                if fuel == 0 {
                    None
                } else {
                    reduce_bounded(sets, t, fuel - 1)
                }
            },
            _ => Some(tag.duplicate()),
        },
        Tag::Func(ft) => {
            let ghost f = fuel as nat;
            let ghost bs = views(ft.bindings@);
            proof {
                lemma_views(ft.bindings@);
            }
            let mut bindings: Vec<Tag> = Vec::new();
            let mut i: usize = 0;
            #[verifier::loop_isolation(false)]
            while i < ft.bindings.len()
                invariant
                    i <= ft.bindings.len(),
                    bindings.len() == i,
                    forall|j: int|
                        0 <= j < i ==> Some(#[trigger] bindings@[j].view()) == reduce_f(
                            sets@,
                            bs[j],
                            f,
                        ),
                decreases ft.bindings.len() - i,
            {
                proof {
                    assert(decreases_to!(*tag => *ft));
                    assert(decreases_to!(*ft => ft.bindings));
                    assert(decreases_to!(ft.bindings => ft.bindings@));
                    assert(decreases_to!(ft.bindings@ => ft.bindings@[i as int]));
                    assert(bs[i as int] == ft.bindings@[i as int].view());
                }
                match reduce_bounded(sets, &ft.bindings[i], fuel) {
                    Some(b) => bindings.push(b),
                    None => {
                        proof {
                            if reduce_seq_f(sets@, bs, f) is Some {
                                lemma_reduce_seq_elems(sets@, bs, f);
                            }
                        }
                        return None;
                    },
                }
                i = i + 1;
            }
            proof {
                lemma_views(bindings@);
                lemma_reduce_seq_from_elems(sets@, bs, views(bindings@), f);
            }
            match reduce_bounded(sets, &*ft.range, fuel) {
                Some(range) => Some(Tag::Func(FuncTag { bindings, range: Box::new(range) })),
                None => None,
            }
        },
        Tag::Property(t) => match reduce_bounded(sets, &**t, fuel) {
            Some(x) => Some(Tag::Property(Box::new(x))),
            None => None,
        },
        _ => Some(tag.duplicate()),
    }
}

/// Reduces as `reduce` does, following at most `fuel` representatives in a
/// chain: `None` when that is not enough, and always when the reduction of
/// the tag does not terminate.
pub fn reduce_within(sets: &UnionFind, tag: &Tag, fuel: u64) -> (r: Option<Tag>)
    requires
        sets.wf(),
    ensures
        r is Some <==> reduce_f(sets@, tag@, fuel as nat) is Some,
        r matches Some(x) ==> reduce_ok(sets@, tag@) && x@ == reduce_spec(sets@, tag@),
        !reduce_ok(sets@, tag@) ==> r is None,
{
    let r = reduce_bounded(sets, tag, fuel);
    proof {
        if r is Some {
            let f = fuel as nat;
            assert(reduce_f(sets@, tag@, f) is Some);
            let g = choose|g: nat| #[trigger] reduce_f(sets@, tag@, g) is Some;
            if g <= f {
                lemma_reduce_fuel(sets@, tag@, g, f);
            } else {
                lemma_reduce_fuel(sets@, tag@, f, g);
            }
        }
    }
    r
}

/// Reduces a [`Tag`] according to the `sets` of classes of equivalence:
/// each variable is replaced by the representative of its class, recursively.
pub fn reduce(sets: &UnionFind, tag: &Tag) -> (r: Tag)
    requires
        sets.wf(),
        reduce_ok(sets@, tag@),
    ensures
        r@ == reduce_spec(sets@, tag@),
{
    let ghost f = choose|f: nat| #[trigger] reduce_f(sets@, tag@, f) is Some;
    reduce_rec(sets, tag, Ghost(f))
}

/// Every variable of `t` is either not held by the classes of `m` or the
/// representative of its class.
pub open spec fn reduced(m: Map<TagV, TagV>, t: TagV) -> bool
    decreases t,
{
    match t {
        TagV::Var(_) => !m.contains_key(t) || m[t] == t,
        TagV::Func(bs, r) => reduced_seq(m, bs) && reduced(m, *r),
        TagV::Property(i) => reduced(m, *i),
        _ => true,
    }
}

/// Every tag of `s` is reduced by the classes of `m`.
pub open spec fn reduced_seq(m: Map<TagV, TagV>, s: Seq<TagV>) -> bool
    decreases s,
{
    if s.len() == 0 {
        true
    } else {
        reduced_seq(m, s.drop_last()) && reduced(m, s.last())
    }
}

proof fn lemma_reduce_f_reduced(m: Map<TagV, TagV>, t: TagV, f: nat)
    requires
        reduce_f(m, t, f) is Some,
    ensures
        reduced(m, reduce_f(m, t, f)->0),
    decreases f, t,
{
    match t {
        TagV::Var(_) => {
            if m.contains_key(t) && m[t] != t {
                lemma_reduce_f_reduced(m, m[t], (f - 1) as nat);
            }
        },
        TagV::Func(bs, r) => {
            lemma_reduce_seq_f_reduced(m, bs, f);
            lemma_reduce_f_reduced(m, *r, f);
        },
        TagV::Property(i) => {
            lemma_reduce_f_reduced(m, *i, f);
        },
        _ => {},
    }
}

proof fn lemma_reduce_seq_f_reduced(m: Map<TagV, TagV>, s: Seq<TagV>, f: nat)
    requires
        reduce_seq_f(m, s, f) is Some,
    ensures
        reduced_seq(m, reduce_seq_f(m, s, f)->0),
    decreases f, s,
{
    if s.len() > 0 {
        lemma_reduce_seq_f_reduced(m, s.drop_last(), f);
        lemma_reduce_f_reduced(m, s.last(), f);
        let a = reduce_seq_f(m, s.drop_last(), f)->0;
        let b = reduce_f(m, s.last(), f)->0;
        assert(a.push(b).drop_last() =~= a);
    }
}

proof fn lemma_reduced_fixed(m: Map<TagV, TagV>, t: TagV, f: nat)
    requires
        reduced(m, t),
    ensures
        reduce_f(m, t, f) == Some(t),
    decreases t,
{
    match t {
        TagV::Func(bs, r) => {
            lemma_reduced_seq_fixed(m, bs, f);
            lemma_reduced_fixed(m, *r, f);
        },
        TagV::Property(i) => {
            lemma_reduced_fixed(m, *i, f);
        },
        _ => {},
    }
}

proof fn lemma_reduced_seq_fixed(m: Map<TagV, TagV>, s: Seq<TagV>, f: nat)
    requires
        reduced_seq(m, s),
    ensures
        reduce_seq_f(m, s, f) == Some(s),
    decreases s,
{
    if s.len() > 0 {
        lemma_reduced_seq_fixed(m, s.drop_last(), f);
        lemma_reduced_fixed(m, s.last(), f);
        assert(s.drop_last().push(s.last()) =~= s);
    }
}

/// A reduced tag is its own reduction: the reduction of a variable that
/// represents its class, or that no class holds, is the variable.
pub proof fn lemma_reduce_of_reduced(m: Map<TagV, TagV>, t: TagV)
    requires
        reduced(m, t),
    ensures
        reduce_ok(m, t),
        reduce_spec(m, t) == t,
{
    lemma_reduced_fixed(m, t, 0);
    assert(reduce_f(m, t, 0) is Some);
    let f = choose|f: nat| #[trigger] reduce_f(m, t, f) is Some;
    lemma_reduced_fixed(m, t, f);
}

/// Reduction leaves only variables that no class holds or that represent
/// their class, and reducing its result again changes nothing.
pub proof fn lemma_reduce_idempotent(m: Map<TagV, TagV>, t: TagV)
    requires
        reduce_ok(m, t),
    ensures
        reduced(m, reduce_spec(m, t)),
        reduce_ok(m, reduce_spec(m, t)),
        reduce_spec(m, reduce_spec(m, t)) == reduce_spec(m, t),
{
    let f = choose|f: nat| #[trigger] reduce_f(m, t, f) is Some;
    lemma_reduce_f_reduced(m, t, f);
    lemma_reduce_of_reduced(m, reduce_spec(m, t));
}

} // verus!
