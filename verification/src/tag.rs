use crate::locator::Locator;
use vstd::prelude::*;

verus! {

/// The identifier of a tag variable: a module locator and a sequence number.
#[derive(Clone, Debug, PartialEq, Eq, PartialOrd, Ord, Hash)]
pub struct TagId {
    loc: Locator,
    n: usize,
}

/// The mathematical value of a tag variable identifier.
pub struct TagIdV {
    pub loc: Seq<char>,
    pub n: nat,
}

/// A function type: the types of its bindings and of its range.
#[derive(Debug, PartialEq, Eq, Hash)]
pub struct FuncTag {
    pub bindings: Vec<Tag>,
    pub range: Box<Tag>,
}

/// The type tag of an expression.
#[derive(Debug, PartialEq, Eq, Hash)]
pub enum Tag {
    Text,
    Number,
    Status,
    Primitive,
    Relation,
    Object,
    Content,
    Transfer,
    Array,
    Uri,
    Any,
    Property(Box<Tag>),
    Func(FuncTag),
    Var(TagId),
}

/// The mathematical value of a type tag.
pub enum TagV {
    Text,
    Number,
    Status,
    Primitive,
    Relation,
    Object,
    Content,
    Transfer,
    Array,
    Uri,
    Any,
    Property(Box<TagV>),
    Func(Seq<TagV>, Box<TagV>),
    Var(TagIdV),
}

impl TagId {
    pub closed spec fn view(&self) -> TagIdV {
        TagIdV { loc: self.loc@, n: self.n as nat }
    }

    /// The module of the variable.
    pub fn locator(&self) -> (r: &Locator)
        ensures
            r@ == self@.loc,
    {
        &self.loc
    }

    /// The sequence number of the variable.
    pub fn number(&self) -> (r: usize)
        ensures
            r == self@.n,
    {
        self.n
    }

    /// Returns a copy of the identifier.
    pub fn duplicate(&self) -> (r: TagId)
        ensures
            r@ == self@,
    {
        TagId { loc: self.loc.duplicate(), n: self.n }
    }

    /// Compares two identifiers.
    pub fn same(&self, other: &TagId) -> (r: bool)
        ensures
            r == (self@ == other@),
    {
        self.n == other.n && self.loc.same(&other.loc)
    }
}

/// The values of a sequence of tags.
pub open spec fn views(s: Seq<Tag>) -> Seq<TagV>
    decreases s,
{
    if s.len() == 0 {
        Seq::empty()
    } else {
        views(s.drop_last()).push(s.last().view())
    }
}

impl Tag {
    pub open spec fn view(&self) -> TagV
        decreases self,
    {
        match self {
            Tag::Text => TagV::Text,
            Tag::Number => TagV::Number,
            Tag::Status => TagV::Status,
            Tag::Primitive => TagV::Primitive,
            Tag::Relation => TagV::Relation,
            Tag::Object => TagV::Object,
            Tag::Content => TagV::Content,
            Tag::Transfer => TagV::Transfer,
            Tag::Array => TagV::Array,
            Tag::Uri => TagV::Uri,
            Tag::Any => TagV::Any,
            Tag::Property(t) => TagV::Property(Box::new(t.view())),
            Tag::Func(f) => TagV::Func(views(f.bindings@), Box::new(f.range.view())),
            Tag::Var(id) => TagV::Var(id.view()),
        }
    }
}

/// The values of a sequence of tags are the values of its elements.
pub proof fn lemma_views(s: Seq<Tag>)
    ensures
        views(s).len() == s.len(),
        forall|i: int| 0 <= i < s.len() ==> #[trigger] views(s)[i] == s[i].view(),
    decreases s.len(),
{
    if s.len() > 0 {
        lemma_views(s.drop_last());
    }
}

impl TagV {
    pub open spec fn is_variable(self) -> bool {
        self is Var
    }

    pub open spec fn is_schema(self) -> bool {
        self is Primitive || self is Relation || self is Object || self is Array || self is Uri
            || self is Any
    }

    pub open spec fn is_schema_like(self) -> bool {
        self is Content || self.is_schema()
    }

    pub open spec fn is_status_like(self) -> bool {
        self is Status || self is Number
    }

    pub open spec fn is_relation_like(self) -> bool {
        self is Relation || self is Uri
    }
}

impl Tag {
    /// Returns true if the tag is a type variable.
    pub fn is_variable(&self) -> (r: bool)
        ensures
            r == self@.is_variable(),
    {
        matches!(self, Tag::Var(_))
    }

    /// Returns true if the tag is the type of a schema.
    pub fn is_schema(&self) -> (r: bool)
        ensures
            r == self@.is_schema(),
    {
        matches!(
            self,
            Tag::Primitive | Tag::Relation | Tag::Object | Tag::Array | Tag::Uri | Tag::Any
        )
    }

    /// Returns true if the tag is the type of a schema or of a content.
    pub fn is_schema_like(&self) -> (r: bool)
        ensures
            r == self@.is_schema_like(),
    {
        matches!(self, Tag::Content) || self.is_schema()
    }

    /// Returns true if the tag is the type of an HTTP status or of a number.
    pub fn is_status_like(&self) -> (r: bool)
        ensures
            r == self@.is_status_like(),
    {
        matches!(self, Tag::Status | Tag::Number)
    }

    /// Returns true if the tag is the type of a relation or of a URI.
    pub fn is_relation_like(&self) -> (r: bool)
        ensures
            r == self@.is_relation_like(),
    {
        matches!(self, Tag::Relation | Tag::Uri)
    }

    /// Returns a copy of the tag.
    pub fn duplicate(&self) -> (r: Tag)
        ensures
            r@ == self@,
        decreases self,
    {
        match self {
            Tag::Text => Tag::Text,
            Tag::Number => Tag::Number,
            Tag::Status => Tag::Status,
            Tag::Primitive => Tag::Primitive,
            Tag::Relation => Tag::Relation,
            Tag::Object => Tag::Object,
            Tag::Content => Tag::Content,
            Tag::Transfer => Tag::Transfer,
            Tag::Array => Tag::Array,
            Tag::Uri => Tag::Uri,
            Tag::Any => Tag::Any,
            Tag::Property(t) => Tag::Property(Box::new((&**t).duplicate())),
            Tag::Func(f) => {
                let mut bindings: Vec<Tag> = Vec::new();
                let mut i: usize = 0;
                #[verifier::loop_isolation(false)]
                while i < f.bindings.len()
                    invariant
                        i <= f.bindings.len(),
                        bindings.len() == i,
                        forall|j: int| 0 <= j < i ==> #[trigger] bindings@[j].view()
                            == f.bindings@[j].view(),
                    decreases f.bindings.len() - i,
                {
                    proof {
                        assert(decreases_to!(*self => *f));
                        assert(decreases_to!(*f => f.bindings));
                        assert(decreases_to!(f.bindings => f.bindings@));
                        assert(decreases_to!(f.bindings@ => f.bindings@[i as int]));
                    }
                    bindings.push(f.bindings[i].duplicate());
                    i = i + 1;
                }
                let range = (&*f.range).duplicate();
                proof {
                    lemma_views(bindings@);
                    lemma_views(f.bindings@);
                    assert(views(bindings@) =~= views(f.bindings@));
                }
                Tag::Func(FuncTag { bindings, range: Box::new(range) })
            },
            Tag::Var(id) => Tag::Var(id.duplicate()),
        }
    }
}

/// Compares two tags by value.
pub fn tag_eq(a: &Tag, b: &Tag) -> (r: bool)
    ensures
        r == (a@ == b@),
    decreases a,
{
    match (a, b) {
        (Tag::Text, Tag::Text) => true,
        (Tag::Number, Tag::Number) => true,
        (Tag::Status, Tag::Status) => true,
        (Tag::Primitive, Tag::Primitive) => true,
        (Tag::Relation, Tag::Relation) => true,
        (Tag::Object, Tag::Object) => true,
        (Tag::Content, Tag::Content) => true,
        (Tag::Transfer, Tag::Transfer) => true,
        (Tag::Array, Tag::Array) => true,
        (Tag::Uri, Tag::Uri) => true,
        (Tag::Any, Tag::Any) => true,
        (Tag::Property(x), Tag::Property(y)) => tag_eq(&**x, &**y),
        (Tag::Func(f), Tag::Func(g)) => {
            proof {
                lemma_views(f.bindings@);
                lemma_views(g.bindings@);
            }
            if f.bindings.len() != g.bindings.len() {
                return false;
            }
            let mut i: usize = 0;
            #[verifier::loop_isolation(false)]
            while i < f.bindings.len()
                invariant
                    i <= f.bindings.len(),
                    f.bindings.len() == g.bindings.len(),
                    views(f.bindings@).len() == f.bindings.len(),
                    views(g.bindings@).len() == g.bindings.len(),
                    forall|j: int| 0 <= j < f.bindings.len() ==> #[trigger] views(f.bindings@)[j]
                        == f.bindings@[j].view(),
                    forall|j: int| 0 <= j < g.bindings.len() ==> #[trigger] views(g.bindings@)[j]
                        == g.bindings@[j].view(),
                    forall|j: int| 0 <= j < i ==> #[trigger] views(f.bindings@)[j] == views(
                        g.bindings@,
                    )[j],
                decreases f.bindings.len() - i,
            {
                proof {
                    assert(decreases_to!(*a => *f));
                    assert(decreases_to!(*f => f.bindings));
                    assert(decreases_to!(f.bindings => f.bindings@));
                    assert(decreases_to!(f.bindings@ => f.bindings@[i as int]));
                }
                if !tag_eq(&f.bindings[i], &g.bindings[i]) {
                    assert(views(f.bindings@)[i as int] != views(g.bindings@)[i as int]);
                    return false;
                }
                i = i + 1;
            }
            assert(views(f.bindings@) =~= views(g.bindings@));
            tag_eq(&*f.range, &*g.range)
        },
        (Tag::Var(x), Tag::Var(y)) => x.same(y),
        _ => false,
    }
}

/// A sequence of fresh tag variables for a module.
#[derive(Debug, PartialEq, Eq)]
pub struct TagSeq(TagId);

impl TagSeq {
    /// The identifier of the next tag variable.
    pub closed spec fn view(&self) -> TagIdV {
        self.0@
    }

    /// Creates a new sequence of tag variables for the given module.
    pub fn new(loc: Locator) -> (r: TagSeq)
        ensures
            r@.loc == loc@,
            r@.n == 0,
    {
        TagSeq(TagId { loc, n: 0 })
    }

    /// Allocates a new tag variable sequence number.
    pub fn next(&mut self) -> (r: TagId)
        requires
            old(self)@.n < usize::MAX,
        ensures
            r@ == old(self)@,
            final(self)@.loc == old(self)@.loc,
            final(self)@.n == old(self)@.n + 1,
    {
        let n = self.0.n;
        self.0.n = self.0.n + 1;
        TagId { loc: self.0.loc.duplicate(), n }
    }

    /// Returns the number of tag variables allocated.
    pub fn len(&self) -> (r: usize)
        ensures
            r == self@.n,
    {
        self.0.n
    }
}

/// The tags of schemas are those of primitives, relations, objects, arrays,
/// URIs and alternatives (`Any`); a content adds to them the schema-like
/// tags; statuses and numbers are status-like; relations and URIs are
/// relation-like. Texts, properties, transfers, functions and variables are
/// none of these.
pub proof fn lemma_tag_classes(t: TagV)
    ensures
        t.is_schema() <==> (t is Primitive || t is Relation || t is Object || t is Array || t is Uri
            || t is Any),
        t.is_schema_like() <==> (t is Content || t is Primitive || t is Relation || t is Object
            || t is Array || t is Uri || t is Any),
        t.is_status_like() <==> (t is Status || t is Number),
        t.is_relation_like() <==> (t is Relation || t is Uri),
        t.is_variable() <==> t is Var,
{
}

} // verus!
