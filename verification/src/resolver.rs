use crate::errors::{Error, Kind};
use crate::scope::Scope;
use crate::tag::{Tag, TagV};
use vstd::prelude::*;

verus! {

/// An HTTP method of a relation.
#[derive(Clone, Copy, Debug, PartialEq, Eq)]
pub enum Method {
    Get,
    Put,
    Post,
    Patch,
    Delete,
    Options,
    Head,
}

/// A primitive type.
#[derive(Clone, Copy, Debug, PartialEq, Eq)]
pub enum Primitive {
    Num,
    Str,
    Bool,
    Int,
}

/// A property: a name and the expression of its value.
#[derive(Debug)]
pub struct Prop {
    pub key: String,
    pub val: TypedExpr,
}

/// A segment of a URI: literal text, or a property whose value fills it.
#[derive(Debug)]
pub enum UriSegment {
    Literal(String),
    Template(Prop),
}

/// An expression of a declaration.
#[derive(Debug)]
pub enum Expr {
    /// A reference to a declared identifier.
    Var(String),
    Prim(Primitive),
    /// A relation: its URI, its methods and its range.
    Rel(Box<TypedExpr>, Vec<Method>, Box<TypedExpr>),
    Uri(Vec<UriSegment>),
    /// A block of properties.
    Block(Vec<Prop>),
    Sum(Vec<TypedExpr>),
    Join(Vec<TypedExpr>),
}

/// An expression with the type tag it was given, if any.
#[derive(Debug)]
pub struct TypedExpr {
    pub tag: Option<Tag>,
    pub expr: Expr,
}

/// An associative binary operation by which an expression takes in another.
pub trait Semigroup: Sized {
    /// Combines `with` into `self`; by default `with` replaces `self`.
    fn combine(&mut self, with: Self)
        default_ensures
            *final(self) == with,
    {
        *self = with;
    }
}

/// Combining resolved expressions: the expression taken in replaces this one,
/// tag and all.
impl Semigroup for TypedExpr {}

/// An expression as a value.
pub enum ExprV {
    Var(Seq<char>),
    Prim(Primitive),
    Rel(Box<TypedV>, Seq<Method>, Box<TypedV>),
    Uri(Seq<SegmentV>),
    Block(Seq<PropV>),
    Sum(Seq<TypedV>),
    Join(Seq<TypedV>),
}

/// A typed expression as a value.
pub struct TypedV {
    pub tag: Option<TagV>,
    pub expr: ExprV,
}

/// A property as a value.
pub struct PropV {
    pub key: Seq<char>,
    pub val: TypedV,
}

/// A URI segment as a value.
pub enum SegmentV {
    Literal(Seq<char>),
    Template(PropV),
}

pub open spec fn typed_v(e: TypedExpr) -> TypedV
    decreases e,
{
    TypedV {
        tag: match e.tag {
            Some(t) => Some(t@),
            None => None,
        },
        expr: expr_v(e.expr),
    }
}

pub open spec fn expr_v(e: Expr) -> ExprV
    decreases e,
{
    match e {
        Expr::Var(v) => ExprV::Var(v@),
        Expr::Prim(p) => ExprV::Prim(p),
        Expr::Rel(u, m, r) => ExprV::Rel(Box::new(typed_v(*u)), m@, Box::new(typed_v(*r))),
        Expr::Uri(s) => ExprV::Uri(segments_v(s@)),
        Expr::Block(p) => ExprV::Block(props_v(p@)),
        Expr::Sum(s) => ExprV::Sum(typed_vs(s@)),
        Expr::Join(s) => ExprV::Join(typed_vs(s@)),
    }
}

pub open spec fn prop_v(p: Prop) -> PropV
    decreases p,
{
    PropV { key: p.key@, val: typed_v(p.val) }
}

pub open spec fn segment_v(s: UriSegment) -> SegmentV
    decreases s,
{
    match s {
        UriSegment::Literal(t) => SegmentV::Literal(t@),
        UriSegment::Template(p) => SegmentV::Template(prop_v(p)),
    }
}

pub open spec fn typed_vs(s: Seq<TypedExpr>) -> Seq<TypedV>
    decreases s,
{
    if s.len() == 0 {
        Seq::empty()
    } else {
        typed_vs(s.drop_last()).push(typed_v(s.last()))
    }
}

pub open spec fn props_v(s: Seq<Prop>) -> Seq<PropV>
    decreases s,
{
    if s.len() == 0 {
        Seq::empty()
    } else {
        props_v(s.drop_last()).push(prop_v(s.last()))
    }
}

pub open spec fn segments_v(s: Seq<UriSegment>) -> Seq<SegmentV>
    decreases s,
{
    if s.len() == 0 {
        Seq::empty()
    } else {
        segments_v(s.drop_last()).push(segment_v(s.last()))
    }
}

proof fn lemma_typed_vs(s: Seq<TypedExpr>)
    ensures
        typed_vs(s).len() == s.len(),
        forall|i: int| 0 <= i < s.len() ==> #[trigger] typed_vs(s)[i] == typed_v(s[i]),
    decreases s.len(),
{
    if s.len() > 0 {
        lemma_typed_vs(s.drop_last());
    }
}

proof fn lemma_props_v(s: Seq<Prop>)
    ensures
        props_v(s).len() == s.len(),
        forall|i: int| 0 <= i < s.len() ==> #[trigger] props_v(s)[i] == prop_v(s[i]),
    decreases s.len(),
{
    if s.len() > 0 {
        lemma_props_v(s.drop_last());
    }
}

proof fn lemma_segments_v(s: Seq<UriSegment>)
    ensures
        segments_v(s).len() == s.len(),
        forall|i: int| 0 <= i < s.len() ==> #[trigger] segments_v(s)[i] == segment_v(s[i]),
    decreases s.len(),
{
    if s.len() > 0 {
        lemma_segments_v(s.drop_last());
    }
}

/// Why the resolution of an expression fails.
pub enum Failure {
    /// A reference leads back to an identifier that is being resolved.
    Cycle,
    /// A reference to an identifier that is not declared.
    Unknown,
}

/// The declarations, as values.
pub open spec fn env_v(env: Map<Seq<char>, TypedExpr>) -> Map<Seq<char>, TypedV> {
    env.map_values(|t: TypedExpr| typed_v(t))
}

/// The identifiers of a path, as values.
pub open spec fn names(from: Seq<String>) -> Seq<Seq<char>> {
    from.map_values(|s: String| s@)
}

/// The number of declared identifiers that are not on the path.
pub open spec fn pending(env: Map<Seq<char>, TypedV>, from: Seq<Seq<char>>) -> nat {
    env.dom().difference(from.to_set()).len()
}

/// Putting a declared identifier on the path leaves fewer identifiers to resolve.
pub proof fn lemma_pending_push(env: Map<Seq<char>, TypedV>, from: Seq<Seq<char>>, v: Seq<char>)
    requires
        env.dom().finite(),
        env.contains_key(v),
        !from.contains(v),
    ensures
        pending(env, from.push(v)) < pending(env, from),
{
    let a = env.dom().difference(from.to_set());
    let b = env.dom().difference(from.push(v).to_set());
    assert forall|k: Seq<char>| from.push(v).contains(k) <==> (from.contains(k) || k == v) by {
        if from.push(v).contains(k) {
            let i = choose|i: int| 0 <= i < from.push(v).len() && from.push(v)[i] == k;
            if i < from.len() {
                assert(from[i] == k);
            }
        }
        if from.contains(k) {
            let i = choose|i: int| 0 <= i < from.len() && from[i] == k;
            assert(from.push(v)[i] == k);
        }
        if k == v {
            assert(from.push(v)[from.len() as int] == k);
        }
    }
    assert(b =~= a.remove(v));
    assert(a.contains(v));
}

/// The resolution of an expression: each reference is replaced, recursively,
/// by the resolution of its declaration, along the path `from` of the
/// identifiers being resolved. A reference to an identifier on the path is a
/// cycle; one to an undeclared identifier is unknown. Of several parts, the
/// first that fails decides.
pub open spec fn resolve_v(env: Map<Seq<char>, TypedV>, from: Seq<Seq<char>>, e: TypedV) -> Result<
    TypedV,
    Failure,
>
    decreases pending(env, from), e,
    when env.dom().finite()
{
    match e.expr {
        ExprV::Var(v) => if from.contains(v) {
            Err(Failure::Cycle)
        } else if !env.contains_key(v) {
            Err(Failure::Unknown)
        } else {
            proof {
                lemma_pending_push(env, from, v);
            }
            resolve_v(env, from.push(v), env[v])
        },
        ExprV::Prim(_) => Ok(e),
        ExprV::Rel(u, m, r) => match resolve_v(env, from, *u) {
            Err(f) => Err(f),
            Ok(u2) => match resolve_v(env, from, *r) {
                Err(f) => Err(f),
                Ok(r2) => Ok(TypedV { tag: e.tag, expr: ExprV::Rel(Box::new(u2), m, Box::new(r2)) }),
            },
        },
        ExprV::Uri(s) => match resolve_segments_v(env, from, s) {
            Err(f) => Err(f),
            Ok(s2) => Ok(TypedV { tag: e.tag, expr: ExprV::Uri(s2) }),
        },
        ExprV::Block(p) => match resolve_props_v(env, from, p) {
            Err(f) => Err(f),
            Ok(p2) => Ok(TypedV { tag: e.tag, expr: ExprV::Block(p2) }),
        },
        ExprV::Sum(s) => match resolve_list_v(env, from, s) {
            Err(f) => Err(f),
            Ok(s2) => Ok(TypedV { tag: e.tag, expr: ExprV::Sum(s2) }),
        },
        ExprV::Join(s) => match resolve_list_v(env, from, s) {
            Err(f) => Err(f),
            Ok(s2) => Ok(TypedV { tag: e.tag, expr: ExprV::Join(s2) }),
        },
    }
}

/// The resolutions of expressions, in order; the first failure decides.
pub open spec fn resolve_list_v(env: Map<Seq<char>, TypedV>, from: Seq<Seq<char>>, s: Seq<TypedV>) -> Result<
    Seq<TypedV>,
    Failure,
>
    decreases pending(env, from), s,
    when env.dom().finite()
{
    if s.len() == 0 {
        Ok(Seq::empty())
    } else {
        match resolve_v(env, from, s[0]) {
            Err(f) => Err(f),
            Ok(x) => match resolve_list_v(env, from, s.drop_first()) {
                Err(f) => Err(f),
                Ok(rest) => Ok(seq![x] + rest),
            },
        }
    }
}

/// The resolutions of properties, in order; the first failure decides.
pub open spec fn resolve_props_v(env: Map<Seq<char>, TypedV>, from: Seq<Seq<char>>, s: Seq<PropV>) -> Result<
    Seq<PropV>,
    Failure,
>
    decreases pending(env, from), s,
    when env.dom().finite()
{
    if s.len() == 0 {
        Ok(Seq::empty())
    } else {
        match resolve_v(env, from, s[0].val) {
            Err(f) => Err(f),
            Ok(x) => match resolve_props_v(env, from, s.drop_first()) {
                Err(f) => Err(f),
                Ok(rest) => Ok(seq![PropV { key: s[0].key, val: x }] + rest),
            },
        }
    }
}

/// The resolutions of URI segments, in order: literal segments stay, the
/// properties of templates are resolved; the first failure decides.
pub open spec fn resolve_segments_v(
    env: Map<Seq<char>, TypedV>,
    from: Seq<Seq<char>>,
    s: Seq<SegmentV>,
) -> Result<Seq<SegmentV>, Failure>
    decreases pending(env, from), s,
    when env.dom().finite()
{
    if s.len() == 0 {
        Ok(Seq::empty())
    } else {
        let first = match s[0] {
            SegmentV::Literal(t) => Ok(SegmentV::Literal(t)),
            SegmentV::Template(p) => match resolve_v(env, from, p.val) {
                Err(f) => Err(f),
                Ok(x) => Ok(SegmentV::Template(PropV { key: p.key, val: x })),
            },
        };
        match first {
            Err(f) => Err(f),
            Ok(x) => match resolve_segments_v(env, from, s.drop_first()) {
                Err(f) => Err(f),
                Ok(rest) => Ok(seq![x] + rest),
            },
        }
    }
}

/// The expression holds no reference.
pub open spec fn var_free(e: TypedV) -> bool
    decreases e, 0int,
{
    match e.expr {
        ExprV::Var(_) => false,
        ExprV::Prim(_) => true,
        ExprV::Rel(u, _, r) => var_free(*u) && var_free(*r),
        ExprV::Uri(s) => segments_var_free(s),
        ExprV::Block(p) => props_var_free(p),
        ExprV::Sum(s) => list_var_free(s),
        ExprV::Join(s) => list_var_free(s),
    }
}

pub open spec fn list_var_free(s: Seq<TypedV>) -> bool
    decreases s, s.len(),
{
    s.len() == 0 || (var_free(s[0]) && list_var_free(s.drop_first()))
}

pub open spec fn props_var_free(s: Seq<PropV>) -> bool
    decreases s, s.len(),
{
    s.len() == 0 || (var_free(s[0].val) && props_var_free(s.drop_first()))
}

pub open spec fn segments_var_free(s: Seq<SegmentV>) -> bool
    decreases s, s.len(),
{
    s.len() == 0 || ((match s[0] {
        SegmentV::Literal(_) => true,
        SegmentV::Template(p) => var_free(p.val),
    }) && segments_var_free(s.drop_first()))
}

/// A resolved expression holds no reference: every reference was replaced by
/// the resolution of its declaration.
pub proof fn lemma_resolved_var_free(env: Map<Seq<char>, TypedV>, from: Seq<Seq<char>>, e: TypedV)
    requires
        env.dom().finite(),
        resolve_v(env, from, e) is Ok,
    ensures
        var_free(resolve_v(env, from, e)->Ok_0),
    decreases pending(env, from), e, 0int,
{
    match e.expr {
        ExprV::Var(v) => {
            lemma_pending_push(env, from, v);
            lemma_resolved_var_free(env, from.push(v), env[v]);
        },
        ExprV::Prim(_) => {},
        ExprV::Rel(u, m, r) => {
            lemma_resolved_var_free(env, from, *u);
            lemma_resolved_var_free(env, from, *r);
        },
        ExprV::Uri(s) => {
            lemma_resolved_segments_var_free(env, from, s);
        },
        ExprV::Block(p) => {
            lemma_resolved_props_var_free(env, from, p);
        },
        ExprV::Sum(s) => {
            lemma_resolved_list_var_free(env, from, s);
        },
        ExprV::Join(s) => {
            lemma_resolved_list_var_free(env, from, s);
        },
    }
}

proof fn lemma_resolved_list_var_free(env: Map<Seq<char>, TypedV>, from: Seq<Seq<char>>, s: Seq<TypedV>)
    requires
        env.dom().finite(),
        resolve_list_v(env, from, s) is Ok,
    ensures
        list_var_free(resolve_list_v(env, from, s)->Ok_0),
    decreases pending(env, from), s, 0int,
{
    if s.len() > 0 {
        lemma_resolved_var_free(env, from, s[0]);
        lemma_resolved_list_var_free(env, from, s.drop_first());
        let x = resolve_v(env, from, s[0])->Ok_0;
        let rest = resolve_list_v(env, from, s.drop_first())->Ok_0;
        assert((seq![x] + rest)[0] == x);
        assert((seq![x] + rest).drop_first() =~= rest);
    }
}

proof fn lemma_resolved_props_var_free(env: Map<Seq<char>, TypedV>, from: Seq<Seq<char>>, s: Seq<PropV>)
    requires
        env.dom().finite(),
        resolve_props_v(env, from, s) is Ok,
    ensures
        props_var_free(resolve_props_v(env, from, s)->Ok_0),
    decreases pending(env, from), s, 0int,
{
    if s.len() > 0 {
        lemma_resolved_var_free(env, from, s[0].val);
        lemma_resolved_props_var_free(env, from, s.drop_first());
        let x = PropV { key: s[0].key, val: resolve_v(env, from, s[0].val)->Ok_0 };
        let rest = resolve_props_v(env, from, s.drop_first())->Ok_0;
        assert((seq![x] + rest)[0] == x);
        assert((seq![x] + rest).drop_first() =~= rest);
    }
}

proof fn lemma_resolved_segments_var_free(
    env: Map<Seq<char>, TypedV>,
    from: Seq<Seq<char>>,
    s: Seq<SegmentV>,
)
    requires
        env.dom().finite(),
        resolve_segments_v(env, from, s) is Ok,
    ensures
        segments_var_free(resolve_segments_v(env, from, s)->Ok_0),
    decreases pending(env, from), s, 0int,
{
    if s.len() > 0 {
        match s[0] {
            SegmentV::Literal(_) => {},
            SegmentV::Template(p) => {
                lemma_resolved_var_free(env, from, p.val);
            },
        }
        lemma_resolved_segments_var_free(env, from, s.drop_first());
        let rest = resolve_segments_v(env, from, s.drop_first())->Ok_0;
        let first = match s[0] {
            SegmentV::Literal(t) => SegmentV::Literal(t),
            SegmentV::Template(p) => SegmentV::Template(
                PropV { key: p.key, val: resolve_v(env, from, p.val)->Ok_0 },
            ),
        };
        assert((seq![first] + rest)[0] == first);
        assert((seq![first] + rest).drop_first() =~= rest);
    }
}

/// Resolving a sequence of expressions gives as many expressions, each the
/// resolution of the expression at its place.
proof fn lemma_list_parts(env: Map<Seq<char>, TypedV>, from: Seq<Seq<char>>, s: Seq<TypedV>)
    requires
        env.dom().finite(),
        resolve_list_v(env, from, s) is Ok,
    ensures
        resolve_list_v(env, from, s)->Ok_0.len() == s.len(),
        forall|i: int|
            0 <= i < s.len() ==> #[trigger] resolve_v(env, from, s[i]) == Ok::<TypedV, Failure>(
                resolve_list_v(env, from, s)->Ok_0[i],
            ),
    decreases s.len(),
{
    if s.len() > 0 {
        let tail = s.drop_first();
        lemma_list_parts(env, from, tail);
        let all = resolve_list_v(env, from, s)->Ok_0;
        let later = resolve_list_v(env, from, tail)->Ok_0;
        assert forall|i: int| 0 <= i < s.len() implies #[trigger] resolve_v(env, from, s[i]) == Ok::<
            TypedV,
            Failure,
        >(all[i]) by {
            if i > 0 {
                assert(s[i] == tail[i - 1]);
                assert(all[i] == later[i - 1]);
            }
        }
    }
}

/// Resolving properties keeps their number and keys; each value is the
/// resolution of the value at its place.
proof fn lemma_props_parts(env: Map<Seq<char>, TypedV>, from: Seq<Seq<char>>, s: Seq<PropV>)
    requires
        env.dom().finite(),
        resolve_props_v(env, from, s) is Ok,
    ensures
        resolve_props_v(env, from, s)->Ok_0.len() == s.len(),
        forall|i: int|
            0 <= i < s.len() ==> (#[trigger] resolve_props_v(env, from, s)->Ok_0[i]).key == s[i].key
                && resolve_v(env, from, s[i].val) == Ok::<TypedV, Failure>(
                resolve_props_v(env, from, s)->Ok_0[i].val,
            ),
    decreases s.len(),
{
    if s.len() > 0 {
        let tail = s.drop_first();
        lemma_props_parts(env, from, tail);
        let all = resolve_props_v(env, from, s)->Ok_0;
        let later = resolve_props_v(env, from, tail)->Ok_0;
        assert forall|i: int| 0 <= i < s.len() implies (#[trigger] all[i]).key == s[i].key
            && resolve_v(env, from, s[i].val) == Ok::<TypedV, Failure>(all[i].val) by {
            if i > 0 {
                assert(s[i] == tail[i - 1]);
                assert(all[i] == later[i - 1]);
            }
        }
    }
}

/// Resolving URI segments keeps their number; a literal segment stays as it
/// is, and a template keeps its key while its value is resolved.
proof fn lemma_segments_parts(env: Map<Seq<char>, TypedV>, from: Seq<Seq<char>>, s: Seq<SegmentV>)
    requires
        env.dom().finite(),
        resolve_segments_v(env, from, s) is Ok,
    ensures
        resolve_segments_v(env, from, s)->Ok_0.len() == s.len(),
        forall|i: int|
            0 <= i < s.len() ==> segment_resolved(
                env,
                from,
                s[i],
                #[trigger] resolve_segments_v(env, from, s)->Ok_0[i],
            ),
    decreases s.len(),
{
    if s.len() > 0 {
        let tail = s.drop_first();
        lemma_segments_parts(env, from, tail);
        let all = resolve_segments_v(env, from, s)->Ok_0;
        let later = resolve_segments_v(env, from, tail)->Ok_0;
        assert forall|i: int| 0 <= i < s.len() implies segment_resolved(env, from, s[i], #[trigger] all[i]) by {
            if i > 0 {
                assert(s[i] == tail[i - 1]);
                assert(all[i] == later[i - 1]);
            }
        }
    }
}

/// `after` is what a URI segment `before` becomes: a literal is kept, a
/// template keeps its key and has its value resolved.
pub open spec fn segment_resolved(
    env: Map<Seq<char>, TypedV>,
    from: Seq<Seq<char>>,
    before: SegmentV,
    after: SegmentV,
) -> bool {
    if before is Literal {
        after == before
    } else {
        after is Template && after->Template_0.key == before->Template_0.key && resolve_v(
            env,
            from,
            before->Template_0.val,
        ) == Ok::<TypedV, Failure>(after->Template_0.val)
    }
}

/// Resolution keeps the shape of every expression that is not a reference:
/// its tag stays, a primitive is unchanged, a relation stays a relation with
/// the same methods, a URI a URI, a block a block with the same keys, a sum a
/// sum and a join a join, with as many parts, each part resolved in place. A
/// reference resolves as its declaration does, with the identifier put on
/// the path.
pub proof fn lemma_resolve_shape(env: Map<Seq<char>, TypedV>, from: Seq<Seq<char>>, e: TypedV)
    requires
        env.dom().finite(),
        resolve_v(env, from, e) is Ok,
    ensures
        ({
            let out = resolve_v(env, from, e)->Ok_0;
            &&& e.expr is Var ==> {
                let v = e.expr->Var_0;
                &&& !from.contains(v)
                &&& env.contains_key(v)
                &&& resolve_v(env, from.push(v), env[v]) == Ok::<TypedV, Failure>(out)
            }
            &&& !(e.expr is Var) ==> out.tag == e.tag
            &&& e.expr is Prim ==> out == e
            &&& e.expr is Rel ==> {
                &&& out.expr is Rel
                &&& out.expr->Rel_1 == e.expr->Rel_1
                &&& resolve_v(env, from, *e.expr->Rel_0) == Ok::<TypedV, Failure>(*out.expr->Rel_0)
                &&& resolve_v(env, from, *e.expr->Rel_2) == Ok::<TypedV, Failure>(*out.expr->Rel_2)
            }
            &&& e.expr is Uri ==> {
                &&& out.expr is Uri
                &&& out.expr->Uri_0.len() == e.expr->Uri_0.len()
                &&& forall|i: int|
                    0 <= i < e.expr->Uri_0.len() ==> segment_resolved(
                        env,
                        from,
                        e.expr->Uri_0[i],
                        #[trigger] out.expr->Uri_0[i],
                    )
            }
            &&& e.expr is Block ==> {
                &&& out.expr is Block
                &&& out.expr->Block_0.len() == e.expr->Block_0.len()
                &&& forall|i: int|
                    0 <= i < e.expr->Block_0.len() ==> (#[trigger] out.expr->Block_0[i]).key
                        == e.expr->Block_0[i].key && resolve_v(env, from, e.expr->Block_0[i].val)
                        == Ok::<TypedV, Failure>(out.expr->Block_0[i].val)
            }
            &&& e.expr is Sum ==> {
                &&& out.expr is Sum
                &&& out.expr->Sum_0.len() == e.expr->Sum_0.len()
                &&& forall|i: int|
                    0 <= i < e.expr->Sum_0.len() ==> resolve_v(env, from, e.expr->Sum_0[i]) == Ok::<
                        TypedV,
                        Failure,
                    >(#[trigger] out.expr->Sum_0[i])
            }
            &&& e.expr is Join ==> {
                &&& out.expr is Join
                &&& out.expr->Join_0.len() == e.expr->Join_0.len()
                &&& forall|i: int|
                    0 <= i < e.expr->Join_0.len() ==> resolve_v(env, from, e.expr->Join_0[i]) == Ok::<
                        TypedV,
                        Failure,
                    >(#[trigger] out.expr->Join_0[i])
            }
        }),
{
    match e.expr {
        ExprV::Uri(parts) => {
            lemma_segments_parts(env, from, parts);
        },
        ExprV::Block(parts) => {
            lemma_props_parts(env, from, parts);
        },
        ExprV::Sum(parts) => {
            lemma_list_parts(env, from, parts);
        },
        ExprV::Join(parts) => {
            lemma_list_parts(env, from, parts);
        },
        _ => {},
    }
}

/// A reference to an identifier on the path is a cycle; one to an identifier
/// that is neither on the path nor declared is unknown.
pub proof fn lemma_resolve_reference_failures(
    env: Map<Seq<char>, TypedV>,
    from: Seq<Seq<char>>,
    tag: Option<TagV>,
    v: Seq<char>,
)
    requires
        env.dom().finite(),
    ensures
        from.contains(v) ==> resolve_v(env, from, TypedV { tag, expr: ExprV::Var(v) }) == Err::<
            TypedV,
            Failure,
        >(Failure::Cycle),
        !from.contains(v) && !env.dom().contains(v) ==> resolve_v(
            env,
            from,
            TypedV { tag, expr: ExprV::Var(v) },
        ) == Err::<TypedV, Failure>(Failure::Unknown),
{
}

/// A declaration that refers to itself is a cycle.
pub proof fn lemma_self_reference_cycle(env: Map<Seq<char>, TypedV>, tag: Option<TagV>, v: Seq<char>)
    requires
        env.dom().finite(),
        env.dom().contains(v),
        env[v].expr == ExprV::Var(v),
    ensures
        resolve_v(env, Seq::empty(), TypedV { tag, expr: ExprV::Var(v) }) == Err::<TypedV, Failure>(
            Failure::Cycle,
        ),
{
    let start = Seq::<Seq<char>>::empty();
    assert(!start.contains(v));
    assert(start.push(v)[0] == v);
    assert(start.push(v).contains(v));
    assert(resolve_v(env, start.push(v), env[v]) == Err::<TypedV, Failure>(Failure::Cycle));
}

/// An expression that holds no reference resolves to itself, on any path.
pub proof fn lemma_var_free_resolves_to_itself(env: Map<Seq<char>, TypedV>, from: Seq<Seq<char>>, e: TypedV)
    requires
        env.dom().finite(),
        var_free(e),
    ensures
        resolve_v(env, from, e) == Ok::<TypedV, Failure>(e),
    decreases e, 0int,
{
    match e.expr {
        ExprV::Rel(u, _, r) => {
            lemma_var_free_resolves_to_itself(env, from, *u);
            lemma_var_free_resolves_to_itself(env, from, *r);
        },
        ExprV::Uri(parts) => {
            lemma_var_free_segments_fixed(env, from, parts);
        },
        ExprV::Block(parts) => {
            lemma_var_free_props_fixed(env, from, parts);
        },
        ExprV::Sum(parts) => {
            lemma_var_free_list_fixed(env, from, parts);
        },
        ExprV::Join(parts) => {
            lemma_var_free_list_fixed(env, from, parts);
        },
        _ => {},
    }
}

proof fn lemma_var_free_list_fixed(env: Map<Seq<char>, TypedV>, from: Seq<Seq<char>>, s: Seq<TypedV>)
    requires
        env.dom().finite(),
        list_var_free(s),
    ensures
        resolve_list_v(env, from, s) == Ok::<Seq<TypedV>, Failure>(s),
    decreases s, s.len(),
{
    if s.len() > 0 {
        lemma_var_free_resolves_to_itself(env, from, s[0]);
        lemma_var_free_list_fixed(env, from, s.drop_first());
        assert(seq![s[0]] + s.drop_first() =~= s);
    } else {
        assert(s =~= Seq::empty());
    }
}

proof fn lemma_var_free_props_fixed(env: Map<Seq<char>, TypedV>, from: Seq<Seq<char>>, s: Seq<PropV>)
    requires
        env.dom().finite(),
        props_var_free(s),
    ensures
        resolve_props_v(env, from, s) == Ok::<Seq<PropV>, Failure>(s),
    decreases s, s.len(),
{
    if s.len() > 0 {
        lemma_var_free_resolves_to_itself(env, from, s[0].val);
        lemma_var_free_props_fixed(env, from, s.drop_first());
        assert(seq![PropV { key: s[0].key, val: s[0].val }] + s.drop_first() =~= s);
    } else {
        assert(s =~= Seq::empty());
    }
}

proof fn lemma_var_free_segments_fixed(env: Map<Seq<char>, TypedV>, from: Seq<Seq<char>>, s: Seq<SegmentV>)
    requires
        env.dom().finite(),
        segments_var_free(s),
    ensures
        resolve_segments_v(env, from, s) == Ok::<Seq<SegmentV>, Failure>(s),
    decreases s, s.len(),
{
    if s.len() > 0 {
        if let SegmentV::Template(p) = s[0] {
            lemma_var_free_resolves_to_itself(env, from, p.val);
            assert(SegmentV::Template(PropV { key: p.key, val: p.val }) == s[0]);
        }
        lemma_var_free_segments_fixed(env, from, s.drop_first());
        assert(seq![s[0]] + s.drop_first() =~= s);
    } else {
        assert(s =~= Seq::empty());
    }
}

/// Resolving a resolved expression gives it back.
pub proof fn lemma_resolve_idempotent(env: Map<Seq<char>, TypedV>, from: Seq<Seq<char>>, e: TypedV)
    requires
        env.dom().finite(),
        resolve_v(env, from, e) is Ok,
    ensures
        resolve_v(env, from, resolve_v(env, from, e)->Ok_0) == resolve_v(env, from, e),
{
    lemma_resolved_var_free(env, from, e);
    lemma_var_free_resolves_to_itself(env, from, resolve_v(env, from, e)->Ok_0);
}

/// The error that a failure is reported with.
pub open spec fn reports(f: Failure, e: Error) -> bool {
    match f {
        Failure::Cycle => e.kind is CycleDetected && e.msg@ == "cycle detected"@,
        Failure::Unknown => e.kind is NotInScope && e.msg@ == "unknown identifier"@,
    }
}

/// `r` is what the resolution `spec` gives, an expression or its error.
pub open spec fn resolved(spec: Result<TypedV, Failure>, r: Result<TypedExpr, Error>) -> bool {
    match spec {
        Ok(v) => r matches Ok(x) && typed_v(x) == v,
        Err(f) => r matches Err(e) && reports(f, e),
    }
}

/// Puts resolved parts before the resolution of the rest.
pub open spec fn prepend<A>(p: Seq<A>, r: Result<Seq<A>, Failure>) -> Result<Seq<A>, Failure> {
    match r {
        Ok(x) => Ok(p + x),
        Err(f) => Err(f),
    }
}

fn fail(f: Ghost<Failure>, cycle: bool) -> (r: Error)
    requires
        cycle <==> f@ is Cycle,
    ensures
        reports(f@, r),
{
    proof {
        reveal_strlit("cycle detected");
        reveal_strlit("unknown identifier");
    }
    if cycle {
        Error::new(Kind::CycleDetected, "cycle detected")
    } else {
        Error::new(Kind::NotInScope, "unknown identifier")
    }
}

fn dup_tag(t: &Option<Tag>) -> (r: Option<Tag>)
    ensures
        match (*t, r) {
            (Some(a), Some(b)) => a@ == b@,
            (None, None) => true,
            _ => false,
        },
{
    match t {
        Some(x) => Some(x.duplicate()),
        None => None,
    }
}

/// Tells whether an identifier is on the path.
fn on_path(from: &Vec<String>, v: &String) -> (r: bool)
    ensures
        r == names(from@).contains(v@),
{
    let mut i: usize = 0;
    while i < from.len()
        invariant
            i <= from.len(),
            forall|j: int| 0 <= j < i ==> #[trigger] from@[j]@ != v@,
        decreases from.len() - i,
    {
        if from[i] == *v {
            proof {
                assert(names(from@)[i as int] == v@);
            }
            return true;
        }
        i = i + 1;
    }
    proof {
        if names(from@).contains(v@) {
            let j = choose|j: int| 0 <= j < names(from@).len() && names(from@)[j] == v@;
            assert(from@[j]@ != v@);
        }
    }
    false
}

/// The path with one more identifier at its end.
fn extend_path(from: &Vec<String>, v: &String) -> (r: Vec<String>)
    ensures
        names(r@) == names(from@).push(v@),
{
    let mut r: Vec<String> = Vec::new();
    let mut i: usize = 0;
    while i < from.len()
        invariant
            i <= from.len(),
            r@.len() == i,
            forall|j: int| 0 <= j < i ==> #[trigger] r@[j]@ == from@[j]@,
        decreases from.len() - i,
    {
        r.push(from[i].clone());
        i = i + 1;
    }
    r.push(v.clone());
    assert(names(r@) =~= names(from@).push(v@));
    r
}

fn copy_methods(m: &Vec<Method>) -> (r: Vec<Method>)
    ensures
        r@ == m@,
{
    let mut r: Vec<Method> = Vec::new();
    let mut i: usize = 0;
    while i < m.len()
        invariant
            i <= m.len(),
            r@ == m@.take(i as int),
        decreases m.len() - i,
    {
        r.push(m[i]);
        i = i + 1;
        assert(r@ =~= m@.take(i as int));
    }
    assert(m@.take(m.len() as int) =~= m@);
    r
}

/// Resolves an expression along the path `from` of the identifiers being
/// resolved: each reference is replaced by the resolution of its
/// declaration in `env`. A reference to an identifier on the path is a
/// cycle, reported as `CycleDetected` with "cycle detected"; one to an
/// undeclared identifier is reported as `NotInScope` with "unknown
/// identifier". Of several parts, the first that fails decides.
pub fn resolve_expr(env: &Scope<TypedExpr>, from: &Vec<String>, e: &TypedExpr) -> (r: Result<TypedExpr, Error>)
    requires
        env.wf(),
    ensures
        resolved(resolve_v(env_v(env@), names(from@), typed_v(*e)), r),
    decreases pending(env_v(env@), names(from@)), *e,
{
    proof {
        env.lemma_finite();
        assert(env_v(env@).dom() =~= env@.dom());
    }
    let ghost ev = env_v(env@);
    let ghost fv = names(from@);
    let tag = dup_tag(&e.tag);
    match &e.expr {
        Expr::Var(v) => {
            if on_path(from, v) {
                return Err(fail(Ghost(Failure::Cycle), true));
            }
            match env.get(v) {
                None => Err(fail(Ghost(Failure::Unknown), false)),
                Some(d) => {
                    let path = extend_path(from, v);
                    proof {
                        lemma_pending_push(ev, fv, v@);
                    }
                    resolve_expr(env, &path, d)
                },
            }
        },
        Expr::Prim(p) => Ok(TypedExpr { tag, expr: Expr::Prim(*p) }),
        Expr::Rel(u, m, rng) => {
            match resolve_expr(env, from, &**u) {
                Err(x) => Err(x),
                Ok(u2) => match resolve_expr(env, from, &**rng) {
                    Err(x) => Err(x),
                    Ok(r2) => Ok(
                        TypedExpr {
                            tag,
                            expr: Expr::Rel(Box::new(u2), copy_methods(m), Box::new(r2)),
                        },
                    ),
                },
            }
        },
        Expr::Uri(segs) => match resolve_segments(env, from, segs) {
            Err(x) => Err(x),
            Ok(s2) => Ok(TypedExpr { tag, expr: Expr::Uri(s2) }),
        },
        Expr::Block(props) => match resolve_props(env, from, props) {
            Err(x) => Err(x),
            Ok(p2) => Ok(TypedExpr { tag, expr: Expr::Block(p2) }),
        },
        Expr::Sum(s) => match resolve_all(env, from, s) {
            Err(x) => Err(x),
            Ok(s2) => Ok(TypedExpr { tag, expr: Expr::Sum(s2) }),
        },
        Expr::Join(s) => match resolve_all(env, from, s) {
            Err(x) => Err(x),
            Ok(s2) => Ok(TypedExpr { tag, expr: Expr::Join(s2) }),
        },
    }
}

/// Resolves expressions in order; the first that fails decides.
fn resolve_all(env: &Scope<TypedExpr>, from: &Vec<String>, s: &Vec<TypedExpr>) -> (r: Result<
    Vec<TypedExpr>,
    Error,
>)
    requires
        env.wf(),
    ensures
        match resolve_list_v(env_v(env@), names(from@), typed_vs(s@)) {
            Ok(v) => r matches Ok(x) && typed_vs(x@) == v,
            Err(f) => r matches Err(e) && reports(f, e),
        },
    decreases pending(env_v(env@), names(from@)), *s,
{
    proof {
        env.lemma_finite();
        assert(env_v(env@).dom() =~= env@.dom());
        lemma_typed_vs(s@);
    }
    let ghost ev = env_v(env@);
    let ghost fv = names(from@);
    let ghost sv = typed_vs(s@);
    let mut out: Vec<TypedExpr> = Vec::new();
    let mut i: usize = 0;
    proof {
        assert(sv.skip(0) =~= sv);
        assert(typed_vs(out@) =~= Seq::<TypedV>::empty());
        assert(prepend(typed_vs(out@), resolve_list_v(ev, fv, sv)) == resolve_list_v(ev, fv, sv)) by {
            match resolve_list_v(ev, fv, sv) {
                Ok(x) => assert(Seq::<TypedV>::empty() + x =~= x),
                Err(_) => {},
            }
        }
    }
    while i < s.len()
        invariant
            env.wf(),
            ev == env_v(env@),
            fv == names(from@),
            ev.dom().finite(),
            i <= s.len(),
            sv == typed_vs(s@),
            sv.len() == s@.len(),
            forall|j: int| 0 <= j < s@.len() ==> #[trigger] sv[j] == typed_v(s@[j]),
            resolve_list_v(ev, fv, sv) == prepend(typed_vs(out@), resolve_list_v(ev, fv, sv.skip(i as int))),
        decreases s.len() - i,
    {
        let ghost before = out@;
        proof {
            assert(sv.skip(i as int)[0] == sv[i as int]);
            assert(sv.skip(i as int).drop_first() =~= sv.skip(i + 1));
        }
        match resolve_expr(env, from, &s[i]) {
            Err(x) => {
                return Err(x);
            },
            Ok(y) => {
                out.push(y);
                proof {
                    assert(out@.drop_last() =~= before);
                    let rest = resolve_list_v(ev, fv, sv.skip(i + 1));
                    match rest {
                        Ok(t) => {
                            assert(typed_vs(before) + (seq![typed_v(y)] + t) =~= typed_vs(out@) + t);
                        },
                        Err(_) => {},
                    }
                }
            },
        }
        i = i + 1;
    }
    proof {
        assert(sv.skip(i as int).len() == 0);
        assert(typed_vs(out@) + Seq::<TypedV>::empty() =~= typed_vs(out@));
    }
    Ok(out)
}

/// Resolves the values of properties in order; the first that fails decides.
fn resolve_props(env: &Scope<TypedExpr>, from: &Vec<String>, s: &Vec<Prop>) -> (r: Result<
    Vec<Prop>,
    Error,
>)
    requires
        env.wf(),
    ensures
        match resolve_props_v(env_v(env@), names(from@), props_v(s@)) {
            Ok(v) => r matches Ok(x) && props_v(x@) == v,
            Err(f) => r matches Err(e) && reports(f, e),
        },
    decreases pending(env_v(env@), names(from@)), *s,
{
    proof {
        env.lemma_finite();
        assert(env_v(env@).dom() =~= env@.dom());
        lemma_props_v(s@);
    }
    let ghost ev = env_v(env@);
    let ghost fv = names(from@);
    let ghost sv = props_v(s@);
    let mut out: Vec<Prop> = Vec::new();
    let mut i: usize = 0;
    proof {
        assert(sv.skip(0) =~= sv);
        assert(props_v(out@) =~= Seq::<PropV>::empty());
        assert(prepend(props_v(out@), resolve_props_v(ev, fv, sv)) == resolve_props_v(ev, fv, sv)) by {
            match resolve_props_v(ev, fv, sv) {
                Ok(x) => assert(Seq::<PropV>::empty() + x =~= x),
                Err(_) => {},
            }
        }
    }
    while i < s.len()
        invariant
            env.wf(),
            ev == env_v(env@),
            fv == names(from@),
            ev.dom().finite(),
            i <= s.len(),
            sv == props_v(s@),
            sv.len() == s@.len(),
            forall|j: int| 0 <= j < s@.len() ==> #[trigger] sv[j] == prop_v(s@[j]),
            resolve_props_v(ev, fv, sv) == prepend(props_v(out@), resolve_props_v(ev, fv, sv.skip(i as int))),
        decreases s.len() - i,
    {
        let ghost before = out@;
        proof {
            assert(sv.skip(i as int)[0] == sv[i as int]);
            assert(sv.skip(i as int).drop_first() =~= sv.skip(i + 1));
        }
        match resolve_expr(env, from, &s[i].val) {
            Err(x) => {
                return Err(x);
            },
            Ok(y) => {
                let p = Prop { key: s[i].key.clone(), val: y };
                out.push(p);
                proof {
                    assert(out@.drop_last() =~= before);
                    let rest = resolve_props_v(ev, fv, sv.skip(i + 1));
                    match rest {
                        Ok(t) => {
                            assert(props_v(before) + (seq![prop_v(p)] + t) =~= props_v(out@) + t);
                        },
                        Err(_) => {},
                    }
                }
            },
        }
        i = i + 1;
    }
    proof {
        assert(sv.skip(i as int).len() == 0);
        assert(props_v(out@) + Seq::<PropV>::empty() =~= props_v(out@));
    }
    Ok(out)
}

/// Resolves the templates of URI segments in order; the first that fails
/// decides.
fn resolve_segments(env: &Scope<TypedExpr>, from: &Vec<String>, s: &Vec<UriSegment>) -> (r: Result<
    Vec<UriSegment>,
    Error,
>)
    requires
        env.wf(),
    ensures
        match resolve_segments_v(env_v(env@), names(from@), segments_v(s@)) {
            Ok(v) => r matches Ok(x) && segments_v(x@) == v,
            Err(f) => r matches Err(e) && reports(f, e),
        },
    decreases pending(env_v(env@), names(from@)), *s,
{
    proof {
        env.lemma_finite();
        assert(env_v(env@).dom() =~= env@.dom());
        lemma_segments_v(s@);
    }
    let ghost ev = env_v(env@);
    let ghost fv = names(from@);
    let ghost sv = segments_v(s@);
    let mut out: Vec<UriSegment> = Vec::new();
    let mut i: usize = 0;
    proof {
        assert(sv.skip(0) =~= sv);
        assert(segments_v(out@) =~= Seq::<SegmentV>::empty());
        assert(prepend(segments_v(out@), resolve_segments_v(ev, fv, sv)) == resolve_segments_v(ev, fv, sv)) by {
            match resolve_segments_v(ev, fv, sv) {
                Ok(x) => assert(Seq::<SegmentV>::empty() + x =~= x),
                Err(_) => {},
            }
        }
    }
    while i < s.len()
        invariant
            env.wf(),
            ev == env_v(env@),
            fv == names(from@),
            ev.dom().finite(),
            i <= s.len(),
            sv == segments_v(s@),
            sv.len() == s@.len(),
            forall|j: int| 0 <= j < s@.len() ==> #[trigger] sv[j] == segment_v(s@[j]),
            resolve_segments_v(ev, fv, sv) == prepend(segments_v(out@), resolve_segments_v(ev, fv, sv.skip(i as int))),
        decreases s.len() - i,
    {
        let ghost before = out@;
        proof {
            assert(sv.skip(i as int)[0] == sv[i as int]);
            assert(sv.skip(i as int).drop_first() =~= sv.skip(i + 1));
        }
        let seg = match &s[i] {
            UriSegment::Literal(t) => UriSegment::Literal(t.clone()),
            UriSegment::Template(p) => match resolve_expr(env, from, &p.val) {
                Err(x) => {
                    return Err(x);
                },
                Ok(y) => UriSegment::Template(Prop { key: p.key.clone(), val: y }),
            },
        };
        out.push(seg);
        proof {
            assert(out@.drop_last() =~= before);
            let rest = resolve_segments_v(ev, fv, sv.skip(i + 1));
            match rest {
                Ok(t) => {
                    assert(segments_v(before) + (seq![segment_v(seg)] + t) =~= segments_v(out@) + t);
                },
                Err(_) => {},
            }
        }
        i = i + 1;
    }
    proof {
        assert(sv.skip(i as int).len() == 0);
        assert(segments_v(out@) + Seq::<SegmentV>::empty() =~= segments_v(out@));
    }
    Ok(out)
}

/// Resolves an expression, starting with an empty path.
pub fn resolve(env: &Scope<TypedExpr>, e: &TypedExpr) -> (r: Result<TypedExpr, Error>)
    requires
        env.wf(),
    ensures
        resolved(resolve_v(env_v(env@), Seq::empty(), typed_v(*e)), r),
{
    let from: Vec<String> = Vec::new();
    proof {
        assert(names(from@) =~= Seq::<Seq<char>>::empty());
    }
    resolve_expr(env, &from, e)
}

} // verus!
