use crate::errors::{Error, Kind};
use crate::infer::{literal_tag, LiteralKind};
use crate::locator::Span;
use crate::tag::{lemma_views, views, FuncTag, Tag, TagIdV, TagSeq, TagV};
use crate::typecheck::{ContentMeta, Operator};
use crate::unify::{same_span, InferenceSet};
use vstd::prelude::*;

verus! {

/// The tag of a literal, as a value.
pub open spec fn literal_tag_v(l: LiteralKind) -> TagV {
    match l {
        LiteralKind::HttpStatus => TagV::Status,
        LiteralKind::Number => TagV::Number,
        LiteralKind::Symbol => TagV::Text,
    }
}

/// An expression node as tagging reads it: its kind, and for the kinds
/// whose tag depends on other nodes, what those nodes give.
#[derive(Debug)]
pub enum TagNode {
    Literal(LiteralKind),
    Primitive,
    Relation,
    Uri,
    /// A property, with the tag of its value: a property is typed by the
    /// type of its value.
    Property(Tag),
    Object,
    Content,
    Transfer,
    Array,
    Operation(Operator),
    /// A variable, with the tag of its definition when one is in scope.
    Variable(Option<Tag>),
    Lambda,
    Binding,
    /// An application, with what its name is bound to: nothing when it is not
    /// in scope, `Some(Some(t))` for a lambda whose body has the tag `t`, and
    /// `Some(None)` for anything else.
    Application(Option<Option<Tag>>),
}

/// The tag that a node receives, when it receives one; `fresh` is the next
/// variable of the sequence, which only a sum, a lambda and a binding take.
pub open spec fn node_tag(node: TagNode, fresh: TagIdV) -> Result<TagV, Kind> {
    match node {
        TagNode::Literal(l) => Ok(literal_tag_v(l)),
        TagNode::Primitive => Ok(TagV::Primitive),
        TagNode::Relation => Ok(TagV::Relation),
        TagNode::Uri => Ok(TagV::Uri),
        TagNode::Property(t) => Ok(TagV::Property(Box::new(t@))),
        TagNode::Object => Ok(TagV::Object),
        TagNode::Content => Ok(TagV::Content),
        TagNode::Transfer => Ok(TagV::Transfer),
        TagNode::Array => Ok(TagV::Array),
        TagNode::Operation(Operator::Join) => Ok(TagV::Object),
        TagNode::Operation(Operator::Any) => Ok(TagV::Any),
        TagNode::Operation(Operator::Sum) => Ok(TagV::Var(fresh)),
        TagNode::Operation(Operator::Range) => Ok(TagV::Content),
        TagNode::Variable(Some(t)) => Ok(t@),
        TagNode::Variable(None) => Err(Kind::NotInScope),
        TagNode::Lambda | TagNode::Binding => Ok(TagV::Var(fresh)),
        TagNode::Application(None) => Err(Kind::NotInScope),
        TagNode::Application(Some(Some(body))) => Ok(body@),
        TagNode::Application(Some(None)) => Err(Kind::NotAFunction),
    }
}

/// The node takes a fresh variable from the sequence.
pub open spec fn takes_fresh(node: TagNode) -> bool {
    node matches TagNode::Operation(Operator::Sum) || node is Lambda || node is Binding
}

/// Assigns its type tag to an expression node: concrete tags for literals,
/// primitives and composite expressions, a fresh variable for sums, lambdas
/// and bindings, the tag of the definition for a variable, and the tag of
/// the body for the application of a lambda. The error of a name that is not
/// in scope, or that is applied but is not a lambda, is set at `span`.
pub fn tag_type(seq: &mut TagSeq, node: &TagNode, span: Option<Span>) -> (r: Result<Tag, Error>)
    requires
        old(seq)@.n < usize::MAX,
    ensures
        match node_tag(*node, old(seq)@) {
            Ok(t) => r matches Ok(x) && x@ == t,
            Err(k) => r matches Err(e) && e.kind == k && e.span == span && e.msg@ == if k
                is NotInScope {
                "tag"@
            } else {
                ""@
            },
        },
        final(seq)@ == if takes_fresh(*node) && node_tag(*node, old(seq)@) is Ok {
            TagIdV { loc: old(seq)@.loc, n: old(seq)@.n + 1 }
        } else {
            old(seq)@
        },
{
    let r = match node {
        TagNode::Literal(l) => Ok(literal_tag(*l)),
        TagNode::Primitive => Ok(Tag::Primitive),
        TagNode::Relation => Ok(Tag::Relation),
        TagNode::Uri => Ok(Tag::Uri),
        TagNode::Property(t) => Ok(Tag::Property(Box::new(t.duplicate()))),
        TagNode::Object => Ok(Tag::Object),
        TagNode::Content => Ok(Tag::Content),
        TagNode::Transfer => Ok(Tag::Transfer),
        TagNode::Array => Ok(Tag::Array),
        TagNode::Operation(op) => match op {
            Operator::Join => Ok(Tag::Object),
            Operator::Any => Ok(Tag::Any),
            Operator::Sum => Ok(Tag::Var(seq.next())),
            Operator::Range => Ok(Tag::Content),
        },
        TagNode::Variable(v) => match v {
            None => Err(Error::new(Kind::NotInScope, "tag").with(node)),
            Some(t) => Ok(t.duplicate()),
        },
        TagNode::Lambda | TagNode::Binding => Ok(Tag::Var(seq.next())),
        TagNode::Application(a) => match a {
            None => Err(Error::new(Kind::NotInScope, "tag").with(node)),
            Some(Some(body)) => Ok(body.duplicate()),
            Some(None) => Err(Error::new(Kind::NotAFunction, "").with(node)),
        },
    };
    match r {
        Ok(t) => Ok(t),
        Err(e) => Err(e.at(span)),
    }
}

/// The kind of a node of the syntax tree, as the tagging of a module reads it.
#[derive(Clone, Copy, Debug, PartialEq, Eq)]
pub enum SyntaxKind {
    Literal(LiteralKind),
    Primitive,
    Relation,
    UriTemplate,
    Property,
    Object,
    Content,
    Transfer,
    Array,
    VariadicOp(Operator),
    Application,
    Variable,
    Binding,
    Terminal,
    SubExpression,
    Declaration,
    /// Any other node, which receives no tag.
    Other,
}

/// The tag that the tagging of a module gives a node, if any; `fresh` is
/// the next variable of the sequence. A property gets a property of a fresh
/// variable, which its constraints later tie to its value.
pub open spec fn syntax_tag(k: SyntaxKind, fresh: TagIdV) -> Option<TagV> {
    match k {
        SyntaxKind::Literal(l) => Some(literal_tag_v(l)),
        SyntaxKind::Primitive => Some(TagV::Primitive),
        SyntaxKind::Relation => Some(TagV::Relation),
        SyntaxKind::UriTemplate => Some(TagV::Uri),
        SyntaxKind::Property => Some(TagV::Property(Box::new(TagV::Var(fresh)))),
        SyntaxKind::Object => Some(TagV::Object),
        SyntaxKind::Content => Some(TagV::Content),
        SyntaxKind::Transfer => Some(TagV::Transfer),
        SyntaxKind::Array => Some(TagV::Array),
        SyntaxKind::VariadicOp(Operator::Join) => Some(TagV::Object),
        SyntaxKind::VariadicOp(Operator::Any) => Some(TagV::Any),
        SyntaxKind::VariadicOp(Operator::Sum) => Some(TagV::Var(fresh)),
        SyntaxKind::VariadicOp(Operator::Range) => Some(TagV::Content),
        SyntaxKind::Application | SyntaxKind::Variable | SyntaxKind::Binding | SyntaxKind::Terminal
        | SyntaxKind::SubExpression | SyntaxKind::Declaration => Some(TagV::Var(fresh)),
        SyntaxKind::Other => None,
    }
}

/// The kind takes a fresh variable from the sequence.
pub open spec fn syntax_takes_fresh(k: SyntaxKind) -> bool {
    match k {
        SyntaxKind::Property | SyntaxKind::VariadicOp(Operator::Sum) | SyntaxKind::Application
        | SyntaxKind::Variable | SyntaxKind::Binding | SyntaxKind::Terminal
        | SyntaxKind::SubExpression | SyntaxKind::Declaration => true,
        _ => false,
    }
}

/// Tags the nodes of a module, in the order of the tree: each node gets the
/// tag of its kind, a fresh variable where that tag is not known yet.
pub fn tag(seq: &mut TagSeq, nodes: &Vec<SyntaxKind>) -> (r: Vec<Option<Tag>>)
    requires
        old(seq)@.n + nodes@.len() < usize::MAX,
    ensures
        r@.len() == nodes@.len(),
        final(seq)@.loc == old(seq)@.loc,
        final(seq)@.n == old(seq)@.n + fresh_count(nodes@),
        forall|i: int|
            0 <= i < nodes@.len() ==> (#[trigger] r@[i] matches Some(t) && syntax_tag(
                nodes@[i],
                TagIdV { loc: old(seq)@.loc, n: old(seq)@.n + fresh_count(nodes@.take(i)) },
            ) == Some(t@)) || (r@[i] is None && syntax_tag(nodes@[i], old(seq)@) is None),
{
    let ghost start = seq@;
    let mut r: Vec<Option<Tag>> = Vec::new();
    let mut i: usize = 0;
    while i < nodes.len()
        invariant
            i <= nodes.len(),
            r@.len() == i,
            start.n + nodes@.len() < usize::MAX,
            seq@.loc == start.loc,
            seq@.n == start.n + fresh_count(nodes@.take(i as int)),
            fresh_count(nodes@.take(i as int)) <= i,
            forall|j: int|
                0 <= j < i ==> (#[trigger] r@[j] matches Some(t) && syntax_tag(
                    nodes@[j],
                    TagIdV { loc: start.loc, n: start.n + fresh_count(nodes@.take(j)) },
                ) == Some(t@)) || (r@[j] is None && syntax_tag(nodes@[j], start) is None),
        decreases nodes.len() - i,
    {
        proof {
            assert(nodes@.take(i + 1).drop_last() =~= nodes@.take(i as int));
            assert(nodes@.take(i + 1).last() == nodes@[i as int]);
        }
        let k = nodes[i];
        let ghost cur = seq@;
        assert(cur == TagIdV { loc: start.loc, n: start.n + fresh_count(nodes@.take(i as int)) });
        let t = match k {
            SyntaxKind::Literal(l) => Some(literal_tag(l)),
            SyntaxKind::Primitive => Some(Tag::Primitive),
            SyntaxKind::Relation => Some(Tag::Relation),
            SyntaxKind::UriTemplate => Some(Tag::Uri),
            SyntaxKind::Property => {
                let v = Tag::Var(seq.next());
                assert(v@ == TagV::Var(cur));
                let p = Tag::Property(Box::new(v));
                assert(p@ == TagV::Property(Box::new(TagV::Var(cur))));
                Some(p)
            },
            SyntaxKind::Object => Some(Tag::Object),
            SyntaxKind::Content => Some(Tag::Content),
            SyntaxKind::Transfer => Some(Tag::Transfer),
            SyntaxKind::Array => Some(Tag::Array),
            SyntaxKind::VariadicOp(op) => match op {
                Operator::Join => Some(Tag::Object),
                Operator::Any => Some(Tag::Any),
                Operator::Sum => Some(Tag::Var(seq.next())),
                Operator::Range => Some(Tag::Content),
            },
            SyntaxKind::Application | SyntaxKind::Variable | SyntaxKind::Binding
            | SyntaxKind::Terminal | SyntaxKind::SubExpression | SyntaxKind::Declaration => Some(
                Tag::Var(seq.next()),
            ),
            SyntaxKind::Other => None,
        };
        assert((t matches Some(x) && syntax_tag(k, cur) == Some(x@)) || (t is None && syntax_tag(
            k,
            start,
        ) is None));
        assert(seq@.n == cur.n + if syntax_takes_fresh(k) {
            1nat
        } else {
            0nat
        });
        r.push(t);
        i = i + 1;
    }
    proof {
        assert(nodes@.take(nodes@.len() as int) =~= nodes@);
    }
    r
}

/// The number of fresh variables that the nodes take.
pub open spec fn fresh_count(ks: Seq<SyntaxKind>) -> nat
    decreases ks.len(),
{
    if ks.len() == 0 {
        0
    } else {
        fresh_count(ks.drop_last()) + if syntax_takes_fresh(ks.last()) {
            1nat
        } else {
            0nat
        }
    }
}

/// A sub-expression as constraint generation reads it: its tag and span.
#[derive(Debug)]
pub struct Typed {
    pub tag: Tag,
    pub span: Option<Span>,
}

/// An expression node as constraint generation reads it: its kind and the
/// tags of the nodes its equations speak of.
#[derive(Debug)]
pub enum ConstrainNode {
    Literal(LiteralKind),
    Primitive,
    /// A relation: its URI and its transfers.
    Relation(Typed, Vec<Typed>),
    /// A URI: its variable segments, each with the tag of its value, and
    /// its parameters, if any.
    Uri(Vec<(Typed, Tag)>, Option<Typed>),
    /// A property, with the tag of its value.
    Property(Tag),
    /// An object: its properties, each with the tag of its value.
    Object(Vec<(Typed, Tag)>),
    /// A content: its headers and its media, if any.
    Content(Option<Typed>, Option<Typed>),
    /// A transfer: its parameters, if any.
    Transfer(Option<Typed>),
    Array,
    Operation(Operator, Vec<Typed>),
    /// A lambda: the tags of its bindings and of its body.
    Lambda(Vec<Tag>, Tag),
    /// An application: the definition of its name, if it is in scope, and
    /// the tags of its arguments.
    Application(Option<Typed>, Vec<Tag>),
    Variable,
    Binding,
}

/// The tags of typed parts, in order.
pub open spec fn tags_of(ts: Seq<Typed>) -> Seq<TagV> {
    ts.map_values(|t: Typed| t.tag@)
}

/// A single equation.
pub open spec fn one(l: TagV, r: TagV) -> Seq<(TagV, TagV)> {
    seq![(l, r)]
}

/// The equation of an optional part with `r`, if the part is there.
pub open spec fn opt_eq(t: Option<Typed>, r: TagV) -> Seq<(TagV, TagV)> {
    match t {
        Some(x) => one(x.tag@, r),
        None => Seq::empty(),
    }
}

/// Each tag equated to the same tag.
pub open spec fn all_eq(ts: Seq<TagV>, r: TagV) -> Seq<(TagV, TagV)> {
    ts.map_values(|t: TagV| (t, r))
}

/// Each property equated to the property of its value.
pub open spec fn props_eq(ps: Seq<(Typed, Tag)>) -> Seq<(TagV, TagV)> {
    ps.map_values(|p: (Typed, Tag)| (p.0.tag@, TagV::Property(Box::new(p.1@))))
}

/// The equations that a node of tag `t` contributes, in order.
pub open spec fn node_equations(node: ConstrainNode, t: TagV) -> Seq<(TagV, TagV)> {
    match node {
        ConstrainNode::Literal(l) => one(t, literal_tag_v(l)),
        ConstrainNode::Primitive => one(t, TagV::Primitive),
        ConstrainNode::Relation(uri, xfers) => one(uri.tag@, TagV::Uri) + all_eq(
            tags_of(xfers@),
            TagV::Transfer,
        ) + one(t, TagV::Relation),
        ConstrainNode::Uri(vars, params) => props_eq(vars@) + opt_eq(params, TagV::Object) + one(
            t,
            TagV::Uri,
        ),
        ConstrainNode::Property(v) => one(t, TagV::Property(Box::new(v@))),
        ConstrainNode::Object(props) => props_eq(props@) + one(t, TagV::Object),
        ConstrainNode::Content(h, m) => opt_eq(h, TagV::Object) + opt_eq(m, TagV::Text) + one(
            t,
            TagV::Content,
        ),
        ConstrainNode::Transfer(p) => opt_eq(p, TagV::Object) + one(t, TagV::Transfer),
        ConstrainNode::Array => one(t, TagV::Array),
        ConstrainNode::Operation(op, ops) => match op {
            Operator::Join => all_eq(tags_of(ops@), TagV::Object) + one(t, TagV::Object),
            Operator::Sum => tags_of(ops@).map_values(|o: TagV| (t, o)),
            Operator::Any => one(t, TagV::Any),
            Operator::Range => one(t, TagV::Content),
        },
        ConstrainNode::Lambda(bs, body) => one(t, TagV::Func(views(bs@), Box::new(body@))),
        ConstrainNode::Application(Some(d), args) => one(
            d.tag@,
            TagV::Func(views(args@), Box::new(t)),
        ),
        ConstrainNode::Application(None, _) => Seq::empty(),
        ConstrainNode::Variable | ConstrainNode::Binding => Seq::empty(),
    }
}

/// The spans of typed parts, in order.
pub open spec fn spans_of(ts: Seq<Typed>) -> Seq<Option<Span>> {
    ts.map_values(|t: Typed| t.span)
}

/// The span of an optional part, if the part is there.
pub open spec fn opt_span(t: Option<Typed>) -> Seq<Option<Span>> {
    match t {
        Some(x) => seq![x.span],
        None => Seq::empty(),
    }
}

/// The spans of properties, in order.
pub open spec fn prop_spans(ps: Seq<(Typed, Tag)>) -> Seq<Option<Span>> {
    ps.map_values(|p: (Typed, Tag)| p.0.span)
}

/// The spans of the equations that a node of span `span` contributes, in the
/// order of `node_equations`: each part's equation has the part's span, the
/// node's own equation has `span`, and an application's equation has the
/// span of the definition.
pub open spec fn node_spans(node: ConstrainNode, span: Option<Span>) -> Seq<Option<Span>> {
    match node {
        ConstrainNode::Literal(_) | ConstrainNode::Primitive | ConstrainNode::Property(_)
        | ConstrainNode::Array | ConstrainNode::Lambda(_, _) => seq![span],
        ConstrainNode::Relation(uri, xfers) => seq![uri.span] + spans_of(xfers@) + seq![span],
        ConstrainNode::Uri(vars, params) => prop_spans(vars@) + opt_span(params) + seq![span],
        ConstrainNode::Object(props) => prop_spans(props@) + seq![span],
        ConstrainNode::Content(h, m) => opt_span(h) + opt_span(m) + seq![span],
        ConstrainNode::Transfer(p) => opt_span(p) + seq![span],
        ConstrainNode::Operation(op, ops) => match op {
            Operator::Join => spans_of(ops@) + seq![span],
            Operator::Sum => spans_of(ops@),
            Operator::Any | Operator::Range => seq![span],
        },
        ConstrainNode::Application(Some(d), _) => seq![d.span],
        _ => Seq::empty(),
    }
}

/// The equations of a list, as values.
pub open spec fn eq_views(s: Seq<(Tag, Tag, Option<Span>)>) -> Seq<(TagV, TagV)> {
    s.map_values(|e: (Tag, Tag, Option<Span>)| (e.0@, e.1@))
}

/// The spans of a list of equations.
pub open spec fn eq_spans(s: Seq<(Tag, Tag, Option<Span>)>) -> Seq<Option<Span>> {
    s.map_values(|e: (Tag, Tag, Option<Span>)| e.2)
}

/// Two lists of spans designate the same ranges, one by one.
pub open spec fn spans_like(a: Seq<Option<Span>>, b: Seq<Option<Span>>) -> bool {
    a.len() == b.len() && forall|i: int| 0 <= i < a.len() ==> same_span(#[trigger] a[i], b[i])
}

proof fn lemma_spans_push(a: Seq<Option<Span>>, b: Seq<Option<Span>>, x: Option<Span>, y: Option<Span>)
    requires
        spans_like(a, b),
        same_span(x, y),
    ensures
        spans_like(a.push(x), b.push(y)),
{
    assert forall|i: int| 0 <= i < a.push(x).len() implies same_span(#[trigger] a.push(x)[i], b.push(y)[i]) by {
        if i < a.len() {
            assert(a.push(x)[i] == a[i]);
            assert(b.push(y)[i] == b[i]);
        }
    }
}

proof fn lemma_spans_prefix(p: Seq<Option<Span>>, a: Seq<Option<Span>>, b: Seq<Option<Span>>)
    requires
        spans_like(a, b),
    ensures
        spans_like(p + a, p + b),
{
    assert forall|i: int| 0 <= i < (p + a).len() implies same_span(#[trigger] (p + a)[i], (p + b)[i]) by {
        if i < p.len() {
            assert((p + a)[i] == p[i]);
            assert((p + b)[i] == p[i]);
        } else {
            assert((p + a)[i] == a[i - p.len()]);
            assert((p + b)[i] == b[i - p.len()]);
        }
    }
}

proof fn lemma_eq_views_push(s: Seq<(Tag, Tag, Option<Span>)>, x: (Tag, Tag, Option<Span>))
    ensures
        eq_views(s.push(x)) == eq_views(s).push((x.0@, x.1@)),
        eq_spans(s.push(x)) == eq_spans(s).push(x.2),
{
    assert(eq_views(s.push(x)) =~= eq_views(s).push((x.0@, x.1@)));
    assert(eq_spans(s.push(x)) =~= eq_spans(s).push(x.2));
}

/// Appends one equation to a list; its span designates the range `at`.
fn push_eq(
    eqs: &mut Vec<(Tag, Tag, Option<Span>)>,
    l: Tag,
    r: Tag,
    s: Option<Span>,
    Ghost(g): Ghost<Seq<Option<Span>>>,
    Ghost(at): Ghost<Option<Span>>,
)
    requires
        spans_like(eq_spans(old(eqs)@), g),
        same_span(s, at),
    ensures
        eq_views(final(eqs)@) == eq_views(old(eqs)@).push((l@, r@)),
        spans_like(eq_spans(final(eqs)@), g.push(at)),
{
    let ghost prev = eqs@;
    let ghost sv = s;
    eqs.push((l, r, s));
    proof {
        lemma_eq_views_push(prev, eqs@.last());
        lemma_spans_push(eq_spans(prev), g, sv, at);
    }
}

/// Appends equations to the set, in order.
fn push_all(c: &mut InferenceSet, eqs: Vec<(Tag, Tag, Option<Span>)>)
    ensures
        final(c)@ == old(c)@ + eq_views(eqs@),
        final(c).spans() == old(c).spans() + eq_spans(eqs@),
{
    let ghost all = eq_views(eqs@);
    let ghost sps = eq_spans(eqs@);
    let ghost orig = eqs@;
    let ghost start = c@;
    let ghost start_spans = c.spans();
    let mut rest = eqs;
    let mut k: usize = 0;
    let n = rest.len();
    while rest.len() > 0
        invariant
            k <= n,
            n == orig.len(),
            all == eq_views(orig),
            sps == eq_spans(orig),
            all.len() == n,
            sps.len() == n,
            rest@ == orig.subrange(k as int, n as int),
            c@ == start + all.take(k as int),
            c.spans() == start_spans + sps.take(k as int),
        decreases rest.len(),
    {
        let ghost r0 = rest@;
        let (l, r, s) = rest.remove(0);
        proof {
            assert(r0[0] == orig[k as int]);
            assert(all[k as int] == (l@, r@));
            assert(sps[k as int] == s);
            assert(all.take(k + 1) =~= all.take(k as int).push(all[k as int]));
            assert(sps.take(k + 1) =~= sps.take(k as int).push(sps[k as int]));
        }
        c.push(l, r, s);
        k = k + 1;
        proof {
            assert(rest@ =~= orig.subrange(k as int, n as int));
        }
    }
    proof {
        assert(all.take(n as int) =~= all);
        assert(sps.take(n as int) =~= sps);
    }
}

fn dup(t: &Typed) -> (r: (Tag, Option<Span>))
    ensures
        r.0@ == t.tag@,
        same_span(r.1, t.span),
{
    (t.tag.duplicate(), dup_span(&t.span))
}

/// Adds the equations of a node of tag `tag` and span `span` to the set: a
/// literal, primitive or composite expression is equated to its kind's tag,
/// its parts to theirs, a property to the property of its value, a lambda to
/// its function type, and the definition of an applied name to the function
/// type of the application. Each equation has the span of the node or part
/// it equates (`node_spans`). An applied name that is not in scope is an
/// error, at `span`, and adds nothing.
pub fn constrain(c: &mut InferenceSet, node: &ConstrainNode, tag: &Tag, span: &Option<Span>) -> (r: Result<(), Error>)
    ensures
        r is Err <==> node matches ConstrainNode::Application(None, _),
        r is Ok ==> final(c)@ == old(c)@ + node_equations(*node, tag@),
        r is Ok ==> spans_like(final(c).spans(), old(c).spans() + node_spans(*node, *span)),
        r matches Err(e) ==> final(c)@ == old(c)@ && final(c).spans() == old(c).spans()
            && e.kind is NotInScope && e.msg@ == "constraint"@ && same_span(e.span, *span),
{
    let mut eqs: Vec<(Tag, Tag, Option<Span>)> = Vec::new();
    let ghost t = tag@;
    let ghost sp = *span;
    let ghost e0 = Seq::<Option<Span>>::empty();
    proof {
        assert(eq_views(eqs@) =~= Seq::empty());
        assert(eq_spans(eqs@) =~= e0);
    }
    match node {
        ConstrainNode::Literal(l) => {
            push_eq(&mut eqs, tag.duplicate(), literal_tag(*l), dup_span(span), Ghost(e0), Ghost(sp));
        },
        ConstrainNode::Primitive => {
            push_eq(&mut eqs, tag.duplicate(), Tag::Primitive, dup_span(span), Ghost(e0), Ghost(sp));
        },
        ConstrainNode::Relation(uri, xfers) => {
            let (u, us) = dup(uri);
            push_eq(&mut eqs, u, Tag::Uri, us, Ghost(e0), Ghost(uri.span));
            let ghost g1 = e0.push(uri.span);
            push_each(&mut eqs, xfers, Tag::Transfer, Ghost(g1));
            let ghost g2 = g1 + spans_of(xfers@);
            push_eq(&mut eqs, tag.duplicate(), Tag::Relation, dup_span(span), Ghost(g2), Ghost(sp));
            assert(g2.push(sp) =~= node_spans(*node, sp));
        },
        ConstrainNode::Uri(vars, params) => {
            push_props(&mut eqs, vars, Ghost(e0));
            let ghost g1 = e0 + prop_spans(vars@);
            push_opt(&mut eqs, params, Tag::Object, Ghost(g1));
            let ghost g2 = g1 + opt_span(*params);
            push_eq(&mut eqs, tag.duplicate(), Tag::Uri, dup_span(span), Ghost(g2), Ghost(sp));
            assert(g2.push(sp) =~= node_spans(*node, sp));
        },
        ConstrainNode::Property(v) => {
            push_eq(
                &mut eqs,
                tag.duplicate(),
                Tag::Property(Box::new(v.duplicate())),
                dup_span(span),
                Ghost(e0),
                Ghost(sp),
            );
        },
        ConstrainNode::Object(props) => {
            push_props(&mut eqs, props, Ghost(e0));
            let ghost g1 = e0 + prop_spans(props@);
            push_eq(&mut eqs, tag.duplicate(), Tag::Object, dup_span(span), Ghost(g1), Ghost(sp));
            assert(g1.push(sp) =~= node_spans(*node, sp));
        },
        ConstrainNode::Content(h, m) => {
            push_opt(&mut eqs, h, Tag::Object, Ghost(e0));
            let ghost g1 = e0 + opt_span(*h);
            push_opt(&mut eqs, m, Tag::Text, Ghost(g1));
            let ghost g2 = g1 + opt_span(*m);
            push_eq(&mut eqs, tag.duplicate(), Tag::Content, dup_span(span), Ghost(g2), Ghost(sp));
            assert(g2.push(sp) =~= node_spans(*node, sp));
        },
        ConstrainNode::Transfer(p) => {
            push_opt(&mut eqs, p, Tag::Object, Ghost(e0));
            let ghost g1 = e0 + opt_span(*p);
            push_eq(&mut eqs, tag.duplicate(), Tag::Transfer, dup_span(span), Ghost(g1), Ghost(sp));
            assert(g1.push(sp) =~= node_spans(*node, sp));
        },
        ConstrainNode::Array => {
            push_eq(&mut eqs, tag.duplicate(), Tag::Array, dup_span(span), Ghost(e0), Ghost(sp));
        },
        ConstrainNode::Operation(op, ops) => {
            match op {
                Operator::Join => {
                    push_each(&mut eqs, ops, Tag::Object, Ghost(e0));
                    let ghost g1 = e0 + spans_of(ops@);
                    push_eq(&mut eqs, tag.duplicate(), Tag::Object, dup_span(span), Ghost(g1), Ghost(sp));
                    assert(g1.push(sp) =~= node_spans(*node, sp));
                },
                Operator::Sum => {
                    push_sum(&mut eqs, tag, ops, Ghost(e0));
                    assert(e0 + spans_of(ops@) =~= node_spans(*node, sp));
                },
                Operator::Any => {
                    push_eq(&mut eqs, tag.duplicate(), Tag::Any, dup_span(span), Ghost(e0), Ghost(sp));
                },
                Operator::Range => {
                    push_eq(&mut eqs, tag.duplicate(), Tag::Content, dup_span(span), Ghost(e0), Ghost(sp));
                },
            }
        },
        ConstrainNode::Lambda(bs, body) => {
            let bindings = dup_tags(bs);
            let f = Tag::Func(FuncTag { bindings, range: Box::new(body.duplicate()) });
            push_eq(&mut eqs, tag.duplicate(), f, dup_span(span), Ghost(e0), Ghost(sp));
        },
        ConstrainNode::Application(def, args) => {
            match def {
                None => {
                    return Err(Error::new(Kind::NotInScope, "constraint").with(node).at(dup_span(span)));
                },
                Some(d) => {
                    let bindings = dup_tags(args);
                    let f = Tag::Func(FuncTag { bindings, range: Box::new(tag.duplicate()) });
                    let (dt, ds) = dup(d);
                    push_eq(&mut eqs, dt, f, ds, Ghost(e0), Ghost(d.span));
                },
            }
        },
        ConstrainNode::Variable | ConstrainNode::Binding => {},
    }
    assert(eq_views(eqs@) =~= node_equations(*node, t));
    assert(spans_like(eq_spans(eqs@), node_spans(*node, sp)));
    let ghost cs = c.spans();
    push_all(c, eqs);
    proof {
        lemma_spans_prefix(cs, eq_spans(eqs@), node_spans(*node, sp));
    }
    Ok(())
}

fn dup_span(span: &Option<Span>) -> (r: Option<Span>)
    ensures
        same_span(r, *span),
{
    match span {
        Some(s) => Some(s.duplicate()),
        None => None,
    }
}

/// Copies tags.
fn dup_tags(ts: &Vec<Tag>) -> (r: Vec<Tag>)
    ensures
        views(r@) == views(ts@),
{
    proof {
        lemma_views(ts@);
    }
    let mut r: Vec<Tag> = Vec::new();
    let mut i: usize = 0;
    while i < ts.len()
        invariant
            i <= ts.len(),
            r@.len() == i,
            views(ts@).len() == ts@.len(),
            forall|j: int| 0 <= j < ts@.len() ==> #[trigger] views(ts@)[j] == ts@[j]@,
            forall|j: int| 0 <= j < i ==> #[trigger] r@[j]@ == ts@[j]@,
        decreases ts.len() - i,
    {
        r.push(ts[i].duplicate());
        i = i + 1;
    }
    proof {
        lemma_views(r@);
        assert(views(r@) =~= views(ts@));
    }
    r
}

/// Appends the equation of an optional part with `to`, if the part is there.
fn push_opt(
    eqs: &mut Vec<(Tag, Tag, Option<Span>)>,
    part: &Option<Typed>,
    to: Tag,
    Ghost(g): Ghost<Seq<Option<Span>>>,
)
    requires
        spans_like(eq_spans(old(eqs)@), g),
    ensures
        eq_views(final(eqs)@) == eq_views(old(eqs)@) + opt_eq(*part, to@),
        spans_like(eq_spans(final(eqs)@), g + opt_span(*part)),
{
    match part {
        Some(x) => {
            let (xt, xs) = dup(x);
            push_eq(eqs, xt, to, xs, Ghost(g), Ghost(x.span));
            assert(g.push(x.span) =~= g + opt_span(*part));
        },
        None => {
            assert(g =~= g + opt_span(*part));
        },
    }
    assert(eq_views(eqs@) =~= eq_views(old(eqs)@) + opt_eq(*part, to@));
}

/// Appends, for each part, the equation of its tag with `to`.
fn push_each(
    eqs: &mut Vec<(Tag, Tag, Option<Span>)>,
    parts: &Vec<Typed>,
    to: Tag,
    Ghost(g): Ghost<Seq<Option<Span>>>,
)
    requires
        spans_like(eq_spans(old(eqs)@), g),
    ensures
        eq_views(final(eqs)@) == eq_views(old(eqs)@) + all_eq(tags_of(parts@), to@),
        spans_like(eq_spans(final(eqs)@), g + spans_of(parts@)),
{
    let ghost start = eq_views(eqs@);
    let ghost target = all_eq(tags_of(parts@), to@);
    let ghost ts = spans_of(parts@);
    let mut i: usize = 0;
    proof {
        assert(g + ts.take(0) =~= g);
    }
    while i < parts.len()
        invariant
            i <= parts.len(),
            target == all_eq(tags_of(parts@), to@),
            target.len() == parts@.len(),
            ts == spans_of(parts@),
            ts.len() == parts@.len(),
            eq_views(eqs@) == start + target.take(i as int),
            spans_like(eq_spans(eqs@), g + ts.take(i as int)),
        decreases parts.len() - i,
    {
        let (pt, ps) = dup(&parts[i]);
        push_eq(eqs, pt, to.duplicate(), ps, Ghost(g + ts.take(i as int)), Ghost(parts@[i as int].span));
        proof {
            assert(tags_of(parts@)[i as int] == parts@[i as int].tag@);
            assert(target[i as int] == (parts@[i as int].tag@, to@));
            assert(target.take(i + 1) =~= target.take(i as int).push(target[i as int]));
            assert(eq_views(eqs@) =~= start + target.take(i + 1));
            assert((g + ts.take(i as int)).push(parts@[i as int].span) =~= g + ts.take(i + 1));
        }
        i = i + 1;
    }
    proof {
        assert(target.take(parts.len() as int) =~= target);
        assert(ts.take(parts.len() as int) =~= ts);
    }
}

/// Appends, for each property, the equation of its tag with the property of
/// its value.
fn push_props(
    eqs: &mut Vec<(Tag, Tag, Option<Span>)>,
    props: &Vec<(Typed, Tag)>,
    Ghost(g): Ghost<Seq<Option<Span>>>,
)
    requires
        spans_like(eq_spans(old(eqs)@), g),
    ensures
        eq_views(final(eqs)@) == eq_views(old(eqs)@) + props_eq(props@),
        spans_like(eq_spans(final(eqs)@), g + prop_spans(props@)),
{
    let ghost start = eq_views(eqs@);
    let ghost target = props_eq(props@);
    let ghost ts = prop_spans(props@);
    let mut i: usize = 0;
    proof {
        assert(g + ts.take(0) =~= g);
    }
    while i < props.len()
        invariant
            i <= props.len(),
            target == props_eq(props@),
            target.len() == props@.len(),
            ts == prop_spans(props@),
            ts.len() == props@.len(),
            eq_views(eqs@) == start + target.take(i as int),
            spans_like(eq_spans(eqs@), g + ts.take(i as int)),
        decreases props.len() - i,
    {
        let (pt, ps) = dup(&props[i].0);
        let v = Tag::Property(Box::new(props[i].1.duplicate()));
        push_eq(eqs, pt, v, ps, Ghost(g + ts.take(i as int)), Ghost(props@[i as int].0.span));
        proof {
            assert(target.take(i + 1) =~= target.take(i as int).push(target[i as int]));
            assert(eq_views(eqs@) =~= start + target.take(i + 1));
            assert((g + ts.take(i as int)).push(props@[i as int].0.span) =~= g + ts.take(i + 1));
        }
        i = i + 1;
    }
    proof {
        assert(target.take(props.len() as int) =~= target);
        assert(ts.take(props.len() as int) =~= ts);
    }
}

/// Appends, for each operand of a sum, the equation of the sum with it.
fn push_sum(
    eqs: &mut Vec<(Tag, Tag, Option<Span>)>,
    tag: &Tag,
    ops: &Vec<Typed>,
    Ghost(g): Ghost<Seq<Option<Span>>>,
)
    requires
        spans_like(eq_spans(old(eqs)@), g),
    ensures
        eq_views(final(eqs)@) == eq_views(old(eqs)@) + tags_of(ops@).map_values(|o: TagV| (tag@, o)),
        spans_like(eq_spans(final(eqs)@), g + spans_of(ops@)),
{
    let ghost start = eq_views(eqs@);
    let ghost target = tags_of(ops@).map_values(|o: TagV| (tag@, o));
    let ghost ts = spans_of(ops@);
    let mut i: usize = 0;
    proof {
        assert(g + ts.take(0) =~= g);
    }
    while i < ops.len()
        invariant
            i <= ops.len(),
            target == tags_of(ops@).map_values(|o: TagV| (tag@, o)),
            target.len() == ops@.len(),
            ts == spans_of(ops@),
            ts.len() == ops@.len(),
            eq_views(eqs@) == start + target.take(i as int),
            spans_like(eq_spans(eqs@), g + ts.take(i as int)),
        decreases ops.len() - i,
    {
        let (ot, os) = dup(&ops[i]);
        push_eq(eqs, tag.duplicate(), ot, os, Ghost(g + ts.take(i as int)), Ghost(ops@[i as int].span));
        proof {
            assert(tags_of(ops@)[i as int] == ops@[i as int].tag@);
            assert(target.take(i + 1) =~= target.take(i as int).push(target[i as int]));
            assert(eq_views(eqs@) =~= start + target.take(i + 1));
            assert((g + ts.take(i as int)).push(ops@[i as int].span) =~= g + ts.take(i + 1));
        }
        i = i + 1;
    }
    proof {
        assert(target.take(ops.len() as int) =~= target);
        assert(ts.take(ops.len() as int) =~= ts);
    }
}

/// A node of a module's syntax tree as the constraints of the module read
/// it: its kind, with the tags of the nodes its equations speak of.
#[derive(Debug)]
pub enum SyntaxNode {
    Literal(LiteralKind),
    Primitive,
    /// A relation: its URI and its transfers.
    Relation(Typed, Vec<Typed>),
    /// A URI template: its variables, each with the tag of its value, and its
    /// parameters, if any.
    UriTemplate(Vec<(Typed, Tag)>, Option<Typed>),
    /// A property, with the tag of its value.
    Property(Tag),
    /// An object: its properties, each with the tag of its value.
    Object(Vec<(Typed, Tag)>),
    /// A content: its meta-properties, each with its value.
    Content(Vec<(ContentMeta, Typed)>),
    /// A transfer: its parameters, if any.
    Transfer(Option<Typed>),
    Array,
    VariadicOp(Operator, Vec<Typed>),
    /// A declaration: the tags of its bindings and of its right-hand side.
    Declaration(Vec<Tag>, Tag),
    /// An application: the tag of the definition of its name, if there is
    /// one, and the tags of its arguments.
    Application(Option<Tag>, Vec<Tag>),
    /// A variable: the tag of its definition, if there is one.
    Variable(Option<Tag>),
    /// A terminal, with the tag of the expression it holds.
    Terminal(Tag),
    /// A sub-expression, with the tag of the expression it holds.
    SubExpression(Tag),
    /// Any other node, which has no equation.
    Other,
}

/// A node of a module, with its tag and span; the tag of a node of no
/// equation is not read.
#[derive(Debug)]
pub struct ModuleNode {
    pub node: SyntaxNode,
    pub tag: Tag,
    pub span: Option<Span>,
}

/// The equation of a meta-property of a content: headers are objects, a
/// media type is a text, a status has none.
pub open spec fn meta_eq(m: (ContentMeta, Typed)) -> Seq<(TagV, TagV)> {
    match m.0 {
        ContentMeta::Headers => one(m.1.tag@, TagV::Object),
        ContentMeta::Media => one(m.1.tag@, TagV::Text),
        ContentMeta::Status => Seq::empty(),
    }
}

/// The span of the equation of a meta-property, if it has one.
pub open spec fn meta_span(m: (ContentMeta, Typed)) -> Seq<Option<Span>> {
    match m.0 {
        ContentMeta::Status => Seq::empty(),
        _ => seq![m.1.span],
    }
}

/// The equations of the meta-properties of a content, in order.
pub open spec fn metas_eq(ms: Seq<(ContentMeta, Typed)>) -> Seq<(TagV, TagV)>
    decreases ms.len(),
{
    if ms.len() == 0 {
        Seq::empty()
    } else {
        metas_eq(ms.drop_last()) + meta_eq(ms.last())
    }
}

/// The spans of the equations of the meta-properties of a content.
pub open spec fn metas_spans(ms: Seq<(ContentMeta, Typed)>) -> Seq<Option<Span>>
    decreases ms.len(),
{
    if ms.len() == 0 {
        Seq::empty()
    } else {
        metas_spans(ms.drop_last()) + meta_span(ms.last())
    }
}

/// The equations that a node of a module of tag `t` contributes, in order.
pub open spec fn syntax_equations(n: SyntaxNode, t: TagV) -> Seq<(TagV, TagV)> {
    match n {
        SyntaxNode::Literal(l) => one(t, literal_tag_v(l)),
        SyntaxNode::Primitive => one(t, TagV::Primitive),
        SyntaxNode::Relation(uri, xfers) => one(uri.tag@, TagV::Uri) + all_eq(
            tags_of(xfers@),
            TagV::Transfer,
        ) + one(t, TagV::Relation),
        SyntaxNode::UriTemplate(vars, params) => props_eq(vars@) + opt_eq(params, TagV::Object)
            + one(t, TagV::Uri),
        SyntaxNode::Property(v) => one(t, TagV::Property(Box::new(v@))),
        SyntaxNode::Object(props) => props_eq(props@) + one(t, TagV::Object),
        SyntaxNode::Content(metas) => metas_eq(metas@) + one(t, TagV::Content),
        SyntaxNode::Transfer(p) => opt_eq(p, TagV::Object) + one(t, TagV::Transfer),
        SyntaxNode::Array => one(t, TagV::Array),
        SyntaxNode::VariadicOp(op, ops) => match op {
            Operator::Join => all_eq(tags_of(ops@), TagV::Object) + one(t, TagV::Object),
            Operator::Sum => all_eq(tags_of(ops@), t),
            Operator::Any => one(t, TagV::Any),
            Operator::Range => one(t, TagV::Content),
        },
        SyntaxNode::Declaration(bs, rhs) => one(
            t,
            if bs@.len() == 0 {
                rhs@
            } else {
                TagV::Func(views(bs@), Box::new(rhs@))
            },
        ),
        SyntaxNode::Application(Some(d), args) => one(d@, TagV::Func(views(args@), Box::new(t))),
        SyntaxNode::Variable(Some(d)) => one(t, d@),
        SyntaxNode::Terminal(i) | SyntaxNode::SubExpression(i) => one(t, i@),
        _ => Seq::empty(),
    }
}

/// The spans of the equations of a node of a module of span `span`: each
/// part's equation has the part's span, the node's own equations have
/// `span`.
pub open spec fn syntax_spans(n: SyntaxNode, span: Option<Span>) -> Seq<Option<Span>> {
    match n {
        SyntaxNode::Relation(uri, xfers) => seq![uri.span] + spans_of(xfers@) + seq![span],
        SyntaxNode::UriTemplate(vars, params) => prop_spans(vars@) + opt_span(params) + seq![span],
        SyntaxNode::Object(props) => prop_spans(props@) + seq![span],
        SyntaxNode::Content(metas) => metas_spans(metas@) + seq![span],
        SyntaxNode::Transfer(p) => opt_span(p) + seq![span],
        SyntaxNode::VariadicOp(op, ops) => match op {
            Operator::Join => spans_of(ops@) + seq![span],
            Operator::Sum => spans_of(ops@),
            Operator::Any | Operator::Range => seq![span],
        },
        SyntaxNode::Application(None, _) | SyntaxNode::Variable(None) | SyntaxNode::Other => Seq::empty(),
        _ => seq![span],
    }
}

/// The node names something that is not defined.
pub open spec fn undefined(n: SyntaxNode) -> bool {
    n matches SyntaxNode::Application(None, _) || n matches SyntaxNode::Variable(None)
}

/// The message of the error of an undefined name.
pub open spec fn undefined_msg(n: SyntaxNode) -> Seq<char> {
    if n is Application {
        "function is not defined"@
    } else {
        "variable is not defined"@
    }
}

/// The equations of the nodes of a module, in order.
pub open spec fn module_equations(ns: Seq<ModuleNode>) -> Seq<(TagV, TagV)>
    decreases ns.len(),
{
    if ns.len() == 0 {
        Seq::empty()
    } else {
        module_equations(ns.drop_last()) + syntax_equations(ns.last().node, ns.last().tag@)
    }
}

/// The spans of the equations of the nodes of a module, in order.
pub open spec fn module_spans(ns: Seq<ModuleNode>) -> Seq<Option<Span>>
    decreases ns.len(),
{
    if ns.len() == 0 {
        Seq::empty()
    } else {
        module_spans(ns.drop_last()) + syntax_spans(ns.last().node, ns.last().span)
    }
}

/// Appends the equations of the meta-properties of a content.
fn push_metas(
    eqs: &mut Vec<(Tag, Tag, Option<Span>)>,
    metas: &Vec<(ContentMeta, Typed)>,
    Ghost(g): Ghost<Seq<Option<Span>>>,
)
    requires
        spans_like(eq_spans(old(eqs)@), g),
    ensures
        eq_views(final(eqs)@) == eq_views(old(eqs)@) + metas_eq(metas@),
        spans_like(eq_spans(final(eqs)@), g + metas_spans(metas@)),
{
    let ghost start = eq_views(eqs@);
    let mut i: usize = 0;
    proof {
        assert(metas@.take(0) =~= Seq::<(ContentMeta, Typed)>::empty());
        assert(start + metas_eq(metas@.take(0)) =~= start);
        assert(g + metas_spans(metas@.take(0)) =~= g);
    }
    while i < metas.len()
        invariant
            i <= metas.len(),
            eq_views(eqs@) == start + metas_eq(metas@.take(i as int)),
            spans_like(eq_spans(eqs@), g + metas_spans(metas@.take(i as int))),
        decreases metas.len() - i,
    {
        let ghost before = metas@.take(i as int);
        let ghost m = metas@[i as int];
        proof {
            assert(metas@.take(i + 1).drop_last() =~= before);
            assert(metas@.take(i + 1).last() == m);
        }
        let (kind, part) = (&metas[i].0, &metas[i].1);
        match kind {
            ContentMeta::Headers => {
                let (pt, ps) = dup(part);
                push_eq(eqs, pt, Tag::Object, ps, Ghost(g + metas_spans(before)), Ghost(part.span));
                proof {
                    assert(start + metas_eq(before) + meta_eq(m) =~= (start + metas_eq(
                        before,
                    )).push((part.tag@, TagV::Object)));
                    assert(g + metas_spans(before) + meta_span(m) =~= (g + metas_spans(
                        before,
                    )).push(part.span));
                }
            },
            ContentMeta::Media => {
                let (pt, ps) = dup(part);
                push_eq(eqs, pt, Tag::Text, ps, Ghost(g + metas_spans(before)), Ghost(part.span));
                proof {
                    assert(start + metas_eq(before) + meta_eq(m) =~= (start + metas_eq(
                        before,
                    )).push((part.tag@, TagV::Text)));
                    assert(g + metas_spans(before) + meta_span(m) =~= (g + metas_spans(
                        before,
                    )).push(part.span));
                }
            },
            ContentMeta::Status => {
                proof {
                    assert(start + metas_eq(before) + meta_eq(m) =~= start + metas_eq(before));
                    assert(g + metas_spans(before) + meta_span(m) =~= g + metas_spans(before));
                }
            },
        }
        proof {
            assert(start + metas_eq(metas@.take(i + 1)) =~= start + metas_eq(before) + meta_eq(m));
            assert(g + metas_spans(metas@.take(i + 1)) =~= g + metas_spans(before) + meta_span(m));
        }
        i = i + 1;
    }
    proof {
        assert(metas@.take(metas.len() as int) =~= metas@);
    }
}

/// Adds the equations of a node of a module to the set: literals, primitives
/// and composite expressions are equated to their kind's tag, their parts to
/// theirs; a declaration to the tag of its right-hand side, or to the
/// function type of its bindings and right-hand side; a variable to its
/// definition; a terminal and a sub-expression to what they hold; and the
/// definition of an applied name to the function type of the application.
/// Each equation has the span of the node or part it equates. A name that is
/// not defined is an error, with no span, and adds nothing.
pub fn constrain_syntax(c: &mut InferenceSet, n: &ModuleNode) -> (r: Result<(), Error>)
    ensures
        r is Err <==> undefined(n.node),
        r is Ok ==> final(c)@ == old(c)@ + syntax_equations(n.node, n.tag@),
        r is Ok ==> spans_like(final(c).spans(), old(c).spans() + syntax_spans(n.node, n.span)),
        r matches Err(e) ==> final(c)@ == old(c)@ && final(c).spans() == old(c).spans()
            && e.kind is NotInScope && e.msg@ == undefined_msg(n.node) && e.span is None,
{
    let mut eqs: Vec<(Tag, Tag, Option<Span>)> = Vec::new();
    let tag = &n.tag;
    let span = &n.span;
    let ghost t = tag@;
    let ghost sp = *span;
    let ghost e0 = Seq::<Option<Span>>::empty();
    proof {
        assert(eq_views(eqs@) =~= Seq::empty());
        assert(eq_spans(eqs@) =~= e0);
        reveal_strlit("function is not defined");
        reveal_strlit("variable is not defined");
    }
    match &n.node {
        SyntaxNode::Literal(l) => {
            push_eq(&mut eqs, tag.duplicate(), literal_tag(*l), dup_span(span), Ghost(e0), Ghost(sp));
        },
        SyntaxNode::Primitive => {
            push_eq(&mut eqs, tag.duplicate(), Tag::Primitive, dup_span(span), Ghost(e0), Ghost(sp));
        },
        SyntaxNode::Relation(uri, xfers) => {
            let (u, us) = dup(uri);
            push_eq(&mut eqs, u, Tag::Uri, us, Ghost(e0), Ghost(uri.span));
            let ghost g1 = e0.push(uri.span);
            push_each(&mut eqs, xfers, Tag::Transfer, Ghost(g1));
            let ghost g2 = g1 + spans_of(xfers@);
            push_eq(&mut eqs, tag.duplicate(), Tag::Relation, dup_span(span), Ghost(g2), Ghost(sp));
            assert(g2.push(sp) =~= syntax_spans(n.node, sp));
        },
        SyntaxNode::UriTemplate(vars, params) => {
            push_props(&mut eqs, vars, Ghost(e0));
            let ghost g1 = e0 + prop_spans(vars@);
            push_opt(&mut eqs, params, Tag::Object, Ghost(g1));
            let ghost g2 = g1 + opt_span(*params);
            push_eq(&mut eqs, tag.duplicate(), Tag::Uri, dup_span(span), Ghost(g2), Ghost(sp));
            assert(g2.push(sp) =~= syntax_spans(n.node, sp));
        },
        SyntaxNode::Property(v) => {
            push_eq(
                &mut eqs,
                tag.duplicate(),
                Tag::Property(Box::new(v.duplicate())),
                dup_span(span),
                Ghost(e0),
                Ghost(sp),
            );
        },
        SyntaxNode::Object(props) => {
            push_props(&mut eqs, props, Ghost(e0));
            let ghost g1 = e0 + prop_spans(props@);
            push_eq(&mut eqs, tag.duplicate(), Tag::Object, dup_span(span), Ghost(g1), Ghost(sp));
            assert(g1.push(sp) =~= syntax_spans(n.node, sp));
        },
        SyntaxNode::Content(metas) => {
            push_metas(&mut eqs, metas, Ghost(e0));
            let ghost g1 = e0 + metas_spans(metas@);
            push_eq(&mut eqs, tag.duplicate(), Tag::Content, dup_span(span), Ghost(g1), Ghost(sp));
            assert(g1.push(sp) =~= syntax_spans(n.node, sp));
        },
        SyntaxNode::Transfer(p) => {
            push_opt(&mut eqs, p, Tag::Object, Ghost(e0));
            let ghost g1 = e0 + opt_span(*p);
            push_eq(&mut eqs, tag.duplicate(), Tag::Transfer, dup_span(span), Ghost(g1), Ghost(sp));
            assert(g1.push(sp) =~= syntax_spans(n.node, sp));
        },
        SyntaxNode::Array => {
            push_eq(&mut eqs, tag.duplicate(), Tag::Array, dup_span(span), Ghost(e0), Ghost(sp));
        },
        SyntaxNode::VariadicOp(op, ops) => {
            match op {
                Operator::Join => {
                    push_each(&mut eqs, ops, Tag::Object, Ghost(e0));
                    let ghost g1 = e0 + spans_of(ops@);
                    push_eq(&mut eqs, tag.duplicate(), Tag::Object, dup_span(span), Ghost(g1), Ghost(sp));
                    assert(g1.push(sp) =~= syntax_spans(n.node, sp));
                },
                Operator::Sum => {
                    push_each(&mut eqs, ops, tag.duplicate(), Ghost(e0));
                    assert(e0 + spans_of(ops@) =~= syntax_spans(n.node, sp));
                },
                Operator::Any => {
                    push_eq(&mut eqs, tag.duplicate(), Tag::Any, dup_span(span), Ghost(e0), Ghost(sp));
                },
                Operator::Range => {
                    push_eq(&mut eqs, tag.duplicate(), Tag::Content, dup_span(span), Ghost(e0), Ghost(sp));
                },
            }
        },
        SyntaxNode::Declaration(bs, rhs) => {
            let right = if bs.len() == 0 {
                rhs.duplicate()
            } else {
                Tag::Func(FuncTag { bindings: dup_tags(bs), range: Box::new(rhs.duplicate()) })
            };
            push_eq(&mut eqs, tag.duplicate(), right, dup_span(span), Ghost(e0), Ghost(sp));
        },
        SyntaxNode::Application(def, args) => {
            match def {
                None => {
                    return Err(Error::new(Kind::NotInScope, "function is not defined").with(n));
                },
                Some(d) => {
                    let f = Tag::Func(FuncTag { bindings: dup_tags(args), range: Box::new(tag.duplicate()) });
                    push_eq(&mut eqs, d.duplicate(), f, dup_span(span), Ghost(e0), Ghost(sp));
                },
            }
        },
        SyntaxNode::Variable(def) => {
            match def {
                None => {
                    return Err(Error::new(Kind::NotInScope, "variable is not defined").with(n));
                },
                Some(d) => {
                    push_eq(&mut eqs, tag.duplicate(), d.duplicate(), dup_span(span), Ghost(e0), Ghost(sp));
                },
            }
        },
        SyntaxNode::Terminal(i) | SyntaxNode::SubExpression(i) => {
            push_eq(&mut eqs, tag.duplicate(), i.duplicate(), dup_span(span), Ghost(e0), Ghost(sp));
        },
        SyntaxNode::Other => {},
    }
    assert(eq_views(eqs@) =~= syntax_equations(n.node, t));
    assert(spans_like(eq_spans(eqs@), syntax_spans(n.node, sp)));
    let ghost cs = c.spans();
    push_all(c, eqs);
    proof {
        lemma_spans_prefix(cs, eq_spans(eqs@), syntax_spans(n.node, sp));
    }
    Ok(())
}

/// Returns the set of type inference equations of a module, from its nodes
/// in the order of the tree: the equations of each node in turn, each with
/// its span. The first node that names something not defined gives the error.
pub fn constrain_module(nodes: &Vec<ModuleNode>) -> (r: Result<InferenceSet, Error>)
    ensures
        r is Err <==> exists|i: int| 0 <= i < nodes@.len() && undefined(#[trigger] nodes@[i].node),
        r matches Ok(c) ==> c@ == module_equations(nodes@) && spans_like(
            c.spans(),
            module_spans(nodes@),
        ),
        r matches Err(e) ==> exists|i: int|
            0 <= i < nodes@.len() && undefined(#[trigger] nodes@[i].node) && (forall|j: int|
                0 <= j < i ==> !undefined(nodes@[j].node)) && e.kind is NotInScope && e.msg@
                == undefined_msg(nodes@[i].node) && e.span is None,
{
    let mut c = InferenceSet::new();
    let ghost ns = nodes@;
    let mut i: usize = 0;
    proof {
        assert(ns.take(0) =~= Seq::<ModuleNode>::empty());
        assert(c@ =~= module_equations(ns.take(0)));
        assert(c.spans() =~= module_spans(ns.take(0)));
    }
    while i < nodes.len()
        invariant
            ns == nodes@,
            i <= nodes.len(),
            c@ == module_equations(ns.take(i as int)),
            spans_like(c.spans(), module_spans(ns.take(i as int))),
            forall|j: int| 0 <= j < i ==> !undefined(#[trigger] ns[j].node),
        decreases nodes.len() - i,
    {
        let ghost before = ns.take(i as int);
        let ghost cs = c.spans();
        proof {
            assert(ns.take(i + 1).drop_last() =~= before);
            assert(ns.take(i + 1).last() == ns[i as int]);
        }
        match constrain_syntax(&mut c, &nodes[i]) {
            Ok(()) => {
                proof {
                    let a = module_spans(before);
                    let b = syntax_spans(ns[i as int].node, ns[i as int].span);
                    assert forall|k: int| 0 <= k < c.spans().len() implies same_span(
                        #[trigger] c.spans()[k],
                        (a + b)[k],
                    ) by {
                        if k < cs.len() {
                            assert((cs + b)[k] == cs[k]);
                            assert((a + b)[k] == a[k]);
                        } else {
                            assert((cs + b)[k] == b[k - cs.len()]);
                            assert((a + b)[k] == b[k - a.len()]);
                        }
                    }
                }
            },
            Err(e) => {
                return Err(e);
            },
        }
        i = i + 1;
    }
    proof {
        assert(ns.take(ns.len() as int) =~= ns);
    }
    Ok(c)
}

/// The tags of the nodes of a module: literals are statuses, numbers or
/// texts; primitives, relations, URI templates, objects, contents, transfers
/// and arrays have their own tags; a join is an object, an alternative is
/// `Any`, a range is a content; a sum, an application, a variable, a
/// binding, a terminal, a sub-expression and a declaration take the fresh
/// variable, a property the property of the fresh variable; other nodes get
/// no tag. Exactly the nodes whose tag holds the fresh variable take it.
pub proof fn lemma_syntax_tags(k: SyntaxKind, f: TagIdV)
    ensures
        k == SyntaxKind::Literal(LiteralKind::HttpStatus) ==> syntax_tag(k, f) == Some(TagV::Status),
        k == SyntaxKind::Literal(LiteralKind::Number) ==> syntax_tag(k, f) == Some(TagV::Number),
        k == SyntaxKind::Literal(LiteralKind::Symbol) ==> syntax_tag(k, f) == Some(TagV::Text),
        k is Primitive ==> syntax_tag(k, f) == Some(TagV::Primitive),
        k is Relation ==> syntax_tag(k, f) == Some(TagV::Relation),
        k is UriTemplate ==> syntax_tag(k, f) == Some(TagV::Uri),
        k is Object ==> syntax_tag(k, f) == Some(TagV::Object),
        k is Content ==> syntax_tag(k, f) == Some(TagV::Content),
        k is Transfer ==> syntax_tag(k, f) == Some(TagV::Transfer),
        k is Array ==> syntax_tag(k, f) == Some(TagV::Array),
        k == SyntaxKind::VariadicOp(Operator::Join) ==> syntax_tag(k, f) == Some(TagV::Object),
        k == SyntaxKind::VariadicOp(Operator::Any) ==> syntax_tag(k, f) == Some(TagV::Any),
        k == SyntaxKind::VariadicOp(Operator::Range) ==> syntax_tag(k, f) == Some(TagV::Content),
        k == SyntaxKind::VariadicOp(Operator::Sum) ==> syntax_tag(k, f) == Some(TagV::Var(f)),
        k is Property ==> syntax_tag(k, f) == Some(TagV::Property(Box::new(TagV::Var(f)))),
        (k is Application || k is Variable || k is Binding || k is Terminal || k is SubExpression
            || k is Declaration) ==> syntax_tag(k, f) == Some(TagV::Var(f)),
        k is Other ==> syntax_tag(k, f) is None,
        syntax_takes_fresh(k) <==> (syntax_tag(k, f) matches Some(TagV::Var(_)) || syntax_tag(
            k,
            f,
        ) matches Some(TagV::Property(_))),
{
}

/// The tag that `tag_type` gives a node: literals are statuses, numbers or
/// texts; a join is an object, an alternative is `Any`, a range is a content;
/// a sum, a lambda and a binding take the fresh variable; a property is the
/// property of its value; a variable has the tag of its definition, an
/// application of a lambda the tag of its body. An unknown name is not in
/// scope; an application of something else than a lambda is not a function.
/// Exactly the nodes whose tag is the fresh variable take it.
pub proof fn lemma_node_tags(n: TagNode, f: TagIdV)
    ensures
        n matches TagNode::Literal(LiteralKind::HttpStatus) ==> node_tag(n, f) == Ok::<TagV, Kind>(TagV::Status),
        n matches TagNode::Literal(LiteralKind::Number) ==> node_tag(n, f) == Ok::<TagV, Kind>(TagV::Number),
        n matches TagNode::Literal(LiteralKind::Symbol) ==> node_tag(n, f) == Ok::<TagV, Kind>(TagV::Text),
        n is Primitive ==> node_tag(n, f) == Ok::<TagV, Kind>(TagV::Primitive),
        n is Relation ==> node_tag(n, f) == Ok::<TagV, Kind>(TagV::Relation),
        n is Uri ==> node_tag(n, f) == Ok::<TagV, Kind>(TagV::Uri),
        n is Object ==> node_tag(n, f) == Ok::<TagV, Kind>(TagV::Object),
        n is Content ==> node_tag(n, f) == Ok::<TagV, Kind>(TagV::Content),
        n is Transfer ==> node_tag(n, f) == Ok::<TagV, Kind>(TagV::Transfer),
        n is Array ==> node_tag(n, f) == Ok::<TagV, Kind>(TagV::Array),
        n matches TagNode::Property(v) ==> node_tag(n, f) == Ok::<TagV, Kind>(TagV::Property(Box::new(v@))),
        n matches TagNode::Operation(Operator::Join) ==> node_tag(n, f) == Ok::<TagV, Kind>(TagV::Object),
        n matches TagNode::Operation(Operator::Any) ==> node_tag(n, f) == Ok::<TagV, Kind>(TagV::Any),
        n matches TagNode::Operation(Operator::Range) ==> node_tag(n, f) == Ok::<TagV, Kind>(TagV::Content),
        (n matches TagNode::Operation(Operator::Sum) || n is Lambda || n is Binding) ==> node_tag(n, f)
            == Ok::<TagV, Kind>(TagV::Var(f)),
        n matches TagNode::Variable(Some(d)) ==> node_tag(n, f) == Ok::<TagV, Kind>(d@),
        n matches TagNode::Application(Some(Some(b))) ==> node_tag(n, f) == Ok::<TagV, Kind>(b@),
        n matches TagNode::Application(Some(None)) ==> node_tag(n, f) == Err::<TagV, Kind>(Kind::NotAFunction),
        (n matches TagNode::Application(None) || n matches TagNode::Variable(None)) ==> node_tag(n, f)
            == Err::<TagV, Kind>(Kind::NotInScope),
        takes_fresh(n) <==> (n matches TagNode::Operation(Operator::Sum) || n is Lambda
            || n is Binding),
{
}

/// The equations of an expression node of tag `t`: each literal, primitive,
/// array, property and lambda is equated to its type; a relation's URI is a
/// URI and its transfers are transfers; URI variables and object members are
/// properties of their values, URI parameters, content headers and transfer
/// parameters are objects, a content's media is a text; the operands of a
/// join are objects, a sum is each of its operands; an alternative is `Any`,
/// a range a content; the definition of an applied name is the function from
/// the arguments to `t`. Each node's own equation comes last.
pub proof fn lemma_node_equations(n: ConstrainNode, t: TagV)
    ensures
        ({
            let e = node_equations(n, t);
            match n {
                ConstrainNode::Literal(LiteralKind::HttpStatus) => e == seq![(t, TagV::Status)],
                ConstrainNode::Literal(LiteralKind::Number) => e == seq![(t, TagV::Number)],
                ConstrainNode::Literal(LiteralKind::Symbol) => e == seq![(t, TagV::Text)],
                ConstrainNode::Primitive => e == seq![(t, TagV::Primitive)],
                ConstrainNode::Array => e == seq![(t, TagV::Array)],
                ConstrainNode::Property(v) => e == seq![(t, TagV::Property(Box::new(v@)))],
                ConstrainNode::Lambda(bs, b) => e == seq![(t, TagV::Func(views(bs@), Box::new(b@)))],
                ConstrainNode::Relation(u, xs) => {
                    &&& e.len() == xs@.len() + 2
                    &&& e[0] == (u.tag@, TagV::Uri)
                    &&& forall|i: int| 0 <= i < xs@.len() ==> e[i + 1] == (#[trigger] xs@[i].tag@, TagV::Transfer)
                    &&& e.last() == (t, TagV::Relation)
                },
                ConstrainNode::Uri(vs, p) => {
                    &&& e.len() == vs@.len() + (if p is Some { 1int } else { 0int }) + 1
                    &&& forall|i: int| 0 <= i < vs@.len() ==> e[i] == (#[trigger] vs@[i].0.tag@, TagV::Property(Box::new(vs@[i].1@)))
                    &&& p matches Some(x) ==> e[vs@.len() as int] == (x.tag@, TagV::Object)
                    &&& e.last() == (t, TagV::Uri)
                },
                ConstrainNode::Object(ps) => {
                    &&& e.len() == ps@.len() + 1
                    &&& forall|i: int| 0 <= i < ps@.len() ==> e[i] == (#[trigger] ps@[i].0.tag@, TagV::Property(Box::new(ps@[i].1@)))
                    &&& e.last() == (t, TagV::Object)
                },
                ConstrainNode::Content(h, m) => {
                    &&& e.len() == (if h is Some { 1int } else { 0int }) + (if m is Some { 1int } else { 0int }) + 1
                    &&& h matches Some(x) ==> e[0] == (x.tag@, TagV::Object)
                    &&& m matches Some(x) ==> e[e.len() - 2] == (x.tag@, TagV::Text)
                    &&& e.last() == (t, TagV::Content)
                },
                ConstrainNode::Transfer(p) => {
                    &&& e.len() == (if p is Some { 1int } else { 0int }) + 1
                    &&& p matches Some(x) ==> e[0] == (x.tag@, TagV::Object)
                    &&& e.last() == (t, TagV::Transfer)
                },
                ConstrainNode::Operation(Operator::Join, os) => {
                    &&& e.len() == os@.len() + 1
                    &&& forall|i: int| 0 <= i < os@.len() ==> e[i] == (#[trigger] os@[i].tag@, TagV::Object)
                    &&& e.last() == (t, TagV::Object)
                },
                ConstrainNode::Operation(Operator::Sum, os) => {
                    &&& e.len() == os@.len()
                    &&& forall|i: int| 0 <= i < os@.len() ==> e[i] == (t, #[trigger] os@[i].tag@)
                },
                ConstrainNode::Operation(Operator::Any, _) => e == seq![(t, TagV::Any)],
                ConstrainNode::Operation(Operator::Range, _) => e == seq![(t, TagV::Content)],
                ConstrainNode::Application(Some(d), args) => e == seq![(d.tag@, TagV::Func(views(args@), Box::new(t)))],
                _ => e.len() == 0,
            }
        }),
{
    let e = node_equations(n, t);
    match n {
        ConstrainNode::Content(h, m) => {
            assert(e.last() == (t, TagV::Content));
        },
        _ => {},
    }
}

/// The equations of the meta-properties of a content: headers are objects,
/// a media type is a text, a status has no equation.
pub proof fn lemma_metas_equations(ms: Seq<(ContentMeta, Typed)>)
    ensures
        forall|i: int|
            0 <= i < ms.len() ==> match #[trigger] ms[i].0 {
                ContentMeta::Headers => metas_eq(ms).contains((ms[i].1.tag@, TagV::Object)),
                ContentMeta::Media => metas_eq(ms).contains((ms[i].1.tag@, TagV::Text)),
                ContentMeta::Status => true,
            },
        forall|j: int|
            0 <= j < metas_eq(ms).len() ==> (#[trigger] metas_eq(ms)[j]).1 == TagV::Object
                || metas_eq(ms)[j].1 == TagV::Text,
    decreases ms.len(),
{
    if ms.len() > 0 {
        let front = ms.drop_last();
        lemma_metas_equations(front);
        let a = metas_eq(front);
        let b = meta_eq(ms.last());
        assert(metas_eq(ms) == a + b);
        assert forall|i: int| 0 <= i < ms.len() implies match #[trigger] ms[i].0 {
            ContentMeta::Headers => metas_eq(ms).contains((ms[i].1.tag@, TagV::Object)),
            ContentMeta::Media => metas_eq(ms).contains((ms[i].1.tag@, TagV::Text)),
            ContentMeta::Status => true,
        } by {
            if i < front.len() {
                assert(front[i] == ms[i]);
                match ms[i].0 {
                    ContentMeta::Headers => {
                        let j = choose|j: int| 0 <= j < a.len() && a[j] == (ms[i].1.tag@, TagV::Object);
                        assert((a + b)[j] == a[j]);
                    },
                    ContentMeta::Media => {
                        let j = choose|j: int| 0 <= j < a.len() && a[j] == (ms[i].1.tag@, TagV::Text);
                        assert((a + b)[j] == a[j]);
                    },
                    ContentMeta::Status => {},
                }
            } else {
                match ms[i].0 {
                    ContentMeta::Status => {},
                    _ => {
                        assert((a + b)[a.len() as int] == b[0]);
                    },
                }
            }
        }
        assert forall|j: int| 0 <= j < metas_eq(ms).len() implies (#[trigger] metas_eq(ms)[j]).1
            == TagV::Object || metas_eq(ms)[j].1 == TagV::Text by {
            if j < a.len() {
                assert((a + b)[j] == a[j]);
            } else {
                assert((a + b)[j] == b[j - a.len()]);
            }
        }
    }
}

/// The equations of a node of a module of tag `t`: as those of expression
/// nodes, with a content's meta-properties (headers are objects, a media
/// type is a text), a sum's operands each equated to the sum, a declaration
/// equated to its right-hand side, or to the function from its bindings to
/// it; a variable to its definition, a terminal and a sub-expression to what
/// they hold, and the definition of an applied name to the function from the
/// arguments to `t`. Each node's own equation comes last.
pub proof fn lemma_syntax_equations(n: SyntaxNode, t: TagV)
    ensures
        ({
            let e = syntax_equations(n, t);
            match n {
                SyntaxNode::Literal(LiteralKind::HttpStatus) => e == seq![(t, TagV::Status)],
                SyntaxNode::Literal(LiteralKind::Number) => e == seq![(t, TagV::Number)],
                SyntaxNode::Literal(LiteralKind::Symbol) => e == seq![(t, TagV::Text)],
                SyntaxNode::Primitive => e == seq![(t, TagV::Primitive)],
                SyntaxNode::Array => e == seq![(t, TagV::Array)],
                SyntaxNode::Property(v) => e == seq![(t, TagV::Property(Box::new(v@)))],
                SyntaxNode::Relation(u, xs) => {
                    &&& e.len() == xs@.len() + 2
                    &&& e[0] == (u.tag@, TagV::Uri)
                    &&& forall|i: int| 0 <= i < xs@.len() ==> e[i + 1] == (#[trigger] xs@[i].tag@, TagV::Transfer)
                    &&& e.last() == (t, TagV::Relation)
                },
                SyntaxNode::UriTemplate(vs, p) => {
                    &&& e.len() == vs@.len() + (if p is Some { 1int } else { 0int }) + 1
                    &&& forall|i: int| 0 <= i < vs@.len() ==> e[i] == (#[trigger] vs@[i].0.tag@, TagV::Property(Box::new(vs@[i].1@)))
                    &&& p matches Some(x) ==> e[vs@.len() as int] == (x.tag@, TagV::Object)
                    &&& e.last() == (t, TagV::Uri)
                },
                SyntaxNode::Object(ps) => {
                    &&& e.len() == ps@.len() + 1
                    &&& forall|i: int| 0 <= i < ps@.len() ==> e[i] == (#[trigger] ps@[i].0.tag@, TagV::Property(Box::new(ps@[i].1@)))
                    &&& e.last() == (t, TagV::Object)
                },
                SyntaxNode::Content(ms) => {
                    &&& forall|i: int| 0 <= i < ms@.len() ==> match #[trigger] ms@[i].0 {
                        ContentMeta::Headers => e.contains((ms@[i].1.tag@, TagV::Object)),
                        ContentMeta::Media => e.contains((ms@[i].1.tag@, TagV::Text)),
                        ContentMeta::Status => true,
                    }
                    &&& forall|j: int| 0 <= j < e.len() - 1 ==> (#[trigger] e[j]).1 == TagV::Object || e[j].1 == TagV::Text
                    &&& e.last() == (t, TagV::Content)
                },
                SyntaxNode::Transfer(p) => {
                    &&& e.len() == (if p is Some { 1int } else { 0int }) + 1
                    &&& p matches Some(x) ==> e[0] == (x.tag@, TagV::Object)
                    &&& e.last() == (t, TagV::Transfer)
                },
                SyntaxNode::VariadicOp(Operator::Join, os) => {
                    &&& e.len() == os@.len() + 1
                    &&& forall|i: int| 0 <= i < os@.len() ==> e[i] == (#[trigger] os@[i].tag@, TagV::Object)
                    &&& e.last() == (t, TagV::Object)
                },
                SyntaxNode::VariadicOp(Operator::Sum, os) => {
                    &&& e.len() == os@.len()
                    &&& forall|i: int| 0 <= i < os@.len() ==> e[i] == (#[trigger] os@[i].tag@, t)
                },
                SyntaxNode::VariadicOp(Operator::Any, _) => e == seq![(t, TagV::Any)],
                SyntaxNode::VariadicOp(Operator::Range, _) => e == seq![(t, TagV::Content)],
                SyntaxNode::Declaration(bs, rhs) => e == seq![(t, if bs@.len() == 0 { rhs@ } else { TagV::Func(views(bs@), Box::new(rhs@)) })],
                SyntaxNode::Application(Some(d), args) => e == seq![(d@, TagV::Func(views(args@), Box::new(t)))],
                SyntaxNode::Variable(Some(d)) => e == seq![(t, d@)],
                SyntaxNode::Terminal(i) => e == seq![(t, i@)],
                SyntaxNode::SubExpression(i) => e == seq![(t, i@)],
                _ => e.len() == 0,
            }
        }),
{
    let e = syntax_equations(n, t);
    match n {
        SyntaxNode::Content(ms) => {
            lemma_metas_equations(ms@);
            let a = metas_eq(ms@);
            assert(e == a + one(t, TagV::Content));
            assert forall|i: int| 0 <= i < ms@.len() implies match #[trigger] ms@[i].0 {
                ContentMeta::Headers => e.contains((ms@[i].1.tag@, TagV::Object)),
                ContentMeta::Media => e.contains((ms@[i].1.tag@, TagV::Text)),
                ContentMeta::Status => true,
            } by {
                match ms@[i].0 {
                    ContentMeta::Headers => {
                        let j = choose|j: int| 0 <= j < a.len() && a[j] == (ms@[i].1.tag@, TagV::Object);
                        assert(e[j] == a[j]);
                    },
                    ContentMeta::Media => {
                        let j = choose|j: int| 0 <= j < a.len() && a[j] == (ms@[i].1.tag@, TagV::Text);
                        assert(e[j] == a[j]);
                    },
                    ContentMeta::Status => {},
                }
            }
            assert forall|j: int| 0 <= j < e.len() - 1 implies (#[trigger] e[j]).1 == TagV::Object || e[j].1 == TagV::Text by {
                assert(e[j] == a[j]);
            }
        },
        _ => {},
    }
}

} // verus!
