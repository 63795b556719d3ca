use crate::errors::{Error, Kind};
use crate::tag::{lemma_views, views, Tag, TagV};
use vstd::prelude::*;

verus! {

/// A variadic operator of the language.
#[derive(Clone, Copy, Debug, PartialEq, Eq)]
pub enum Operator {
    Join,
    Any,
    Sum,
    Range,
}

/// The kind of a content meta-property.
#[derive(Clone, Copy, Debug, PartialEq, Eq)]
pub enum ContentMeta {
    Media,
    Headers,
    Status,
}

/// A construct of a program as the type checker sees it: what it is and the
/// type tags of the sub-expressions that its rule reads.
#[derive(Debug)]
pub enum Construct {
    /// A variadic operation and the tags of its operands.
    Operation(Operator, Vec<Tag>),
    /// A content: its meta-properties with the tags of their values, and the
    /// tag of its body, if any.
    Content(Vec<(ContentMeta, Tag)>, Option<Tag>),
    /// A transfer: the tag of its domain, if any, and the tag of its range.
    Transfer(Option<Tag>, Tag),
    /// A relation: the tag of its URI and the tags of its transfers.
    Relation(Tag, Vec<Tag>),
    /// A URI template: for each segment, `None` for an element and the tag
    /// of the variable otherwise.
    Uri(Vec<Option<Tag>>),
    /// An array and the tag of its item.
    Array(Tag),
    /// A property and the tag of its value.
    Property(Tag),
    /// An object and the tags of its properties.
    Object(Vec<Tag>),
    /// A declaration: whether it declares a reference, and the tag of its value.
    Declaration(bool, Tag),
    /// A resource and the tag of its relation.
    Resource(Tag),
}

/// The mathematical value of a construct.
pub enum ConstructV {
    Operation(Operator, Seq<TagV>),
    Content(Seq<(ContentMeta, TagV)>, Option<TagV>),
    Transfer(Option<TagV>, TagV),
    Relation(TagV, Seq<TagV>),
    Uri(Seq<Option<TagV>>),
    Array(TagV),
    Property(TagV),
    Object(Seq<TagV>),
    Declaration(bool, TagV),
    Resource(TagV),
}

pub open spec fn opt_view(t: Option<Tag>) -> Option<TagV> {
    match t {
        Some(t) => Some(t@),
        None => None,
    }
}

pub open spec fn metas_view(s: Seq<(ContentMeta, Tag)>) -> Seq<(ContentMeta, TagV)> {
    s.map_values(|m: (ContentMeta, Tag)| (m.0, m.1@))
}

pub open spec fn segments_view(s: Seq<Option<Tag>>) -> Seq<Option<TagV>> {
    s.map_values(|t: Option<Tag>| opt_view(t))
}

impl Construct {
    pub open spec fn view(&self) -> ConstructV {
        match self {
            Construct::Operation(op, ts) => ConstructV::Operation(*op, views(ts@)),
            Construct::Content(ms, b) => ConstructV::Content(metas_view(ms@), opt_view(*b)),
            Construct::Transfer(d, r) => ConstructV::Transfer(opt_view(*d), r@),
            Construct::Relation(u, xs) => ConstructV::Relation(u@, views(xs@)),
            Construct::Uri(ss) => ConstructV::Uri(segments_view(ss@)),
            Construct::Array(t) => ConstructV::Array(t@),
            Construct::Property(t) => ConstructV::Property(t@),
            Construct::Object(ts) => ConstructV::Object(views(ts@)),
            Construct::Declaration(r, t) => ConstructV::Declaration(*r, t@),
            Construct::Resource(t) => ConstructV::Resource(t@),
        }
    }
}

/// The result of a check: `Ok` when the message is `None`, otherwise a type
/// error with the message and no span.
pub open spec fn outcome(r: Result<(), Error>, m: Option<Seq<char>>) -> bool {
    match m {
        None => r is Ok,
        Some(msg) => r matches Err(e) && e.kind is InvalidTypes && e.msg@ == msg
            && e.details@.len() == 0 && e.span is None,
    }
}

/// The result of the check of a construct: as `outcome`, with the construct
/// rendered as the one detail of an error.
pub open spec fn construct_outcome(r: Result<(), Error>, m: Option<Seq<char>>) -> bool {
    match m {
        None => r is Ok,
        Some(msg) => r matches Err(e) && e.kind is InvalidTypes && e.msg@ == msg
            && e.details@.len() == 1 && e.span is None,
    }
}

/// The type error of a check, with its message.
fn type_error(msg: &str) -> (r: Result<(), Error>)
    ensures
        outcome(r, Some(msg@)),
{
    Err(Error::new(Kind::InvalidTypes, msg))
}

/// The property that the operator asks of each operand.
pub open spec fn operand_ok(op: Operator, t: TagV) -> bool {
    match op {
        Operator::Join => t is Object,
        Operator::Any | Operator::Sum => t.is_schema(),
        Operator::Range => t.is_schema_like(),
    }
}

/// All tags of the sequence satisfy the property of the operator.
pub open spec fn operands_ok(op: Operator, ts: Seq<TagV>) -> bool {
    forall|i: int| 0 <= i < ts.len() ==> #[trigger] operand_ok(op, ts[i])
}

pub open spec fn operation_check(op: Operator, ts: Seq<TagV>) -> Option<Seq<char>> {
    if operands_ok(op, ts) {
        None
    } else {
        Some(
            match op {
                Operator::Join => "ill-formed join"@,
                Operator::Any | Operator::Sum => "ill-formed alternative"@,
                Operator::Range => "ill-formed ranges"@,
            },
        )
    }
}

/// A join takes objects; an alternative or a sum takes schemas; a range
/// takes schemas or contents.
pub fn check_operation(op: Operator, operands: &Vec<Tag>) -> (r: Result<(), Error>)
    ensures
        outcome(r, operation_check(op, views(operands@))),
{
    proof {
        lemma_views(operands@);
    }
    let mut i: usize = 0;
    while i < operands.len()
        invariant
            i <= operands.len(),
            views(operands@).len() == operands.len(),
            forall|j: int| 0 <= j < operands.len() ==> #[trigger] views(operands@)[j] == operands@[j]@,
            operands_ok(op, views(operands@).take(i as int)),
        decreases operands.len() - i,
    {
        let t = &operands[i];
        let ok = match op {
            Operator::Join => matches!(t, Tag::Object),
            Operator::Any | Operator::Sum => t.is_schema(),
            Operator::Range => t.is_schema_like(),
        };
        if !ok {
            assert(!operand_ok(op, views(operands@)[i as int]));
            return match op {
                Operator::Join => type_error("ill-formed join"),
                Operator::Any | Operator::Sum => type_error("ill-formed alternative"),
                Operator::Range => type_error("ill-formed ranges"),
            };
        }
        assert(operands_ok(op, views(operands@).take(i + 1)));
        i = i + 1;
    }
    assert(views(operands@).take(operands.len() as int) =~= views(operands@));
    Ok(())
}

/// A media is a text, headers are a schema, a status is a status or a number.
pub open spec fn meta_ok(m: ContentMeta, t: TagV) -> bool {
    match m {
        ContentMeta::Media => t is Text,
        ContentMeta::Headers => t.is_schema(),
        ContentMeta::Status => t.is_status_like(),
    }
}

pub open spec fn meta_msg(m: ContentMeta) -> Seq<char> {
    match m {
        ContentMeta::Media => "ill-formed media"@,
        ContentMeta::Headers => "ill-formed headers"@,
        ContentMeta::Status => "ill-formed status"@,
    }
}

/// The message of the first ill-formed meta-property, if any.
pub open spec fn metas_check(ms: Seq<(ContentMeta, TagV)>) -> Option<Seq<char>>
    decreases ms.len(),
{
    if ms.len() == 0 {
        None
    } else if !meta_ok(ms[0].0, ms[0].1) {
        Some(meta_msg(ms[0].0))
    } else {
        metas_check(ms.drop_first())
    }
}

pub open spec fn content_check(ms: Seq<(ContentMeta, TagV)>, body: Option<TagV>) -> Option<
    Seq<char>,
> {
    if metas_check(ms) is Some {
        metas_check(ms)
    } else if body matches Some(b) && !b.is_schema() {
        Some("ill-formed body"@)
    } else {
        None
    }
}

proof fn lemma_metas_check_skip(ms: Seq<(ContentMeta, TagV)>, i: int)
    requires
        0 <= i <= ms.len(),
        forall|j: int| 0 <= j < i ==> meta_ok(#[trigger] ms[j].0, ms[j].1),
    ensures
        metas_check(ms) == metas_check(ms.subrange(i, ms.len() as int)),
    decreases i,
{
    if i > 0 {
        lemma_metas_check_skip(ms.drop_first(), i - 1);
        assert(ms.drop_first().subrange(i - 1, ms.drop_first().len() as int) =~= ms.subrange(
            i,
            ms.len() as int,
        ));
    } else {
        assert(ms.subrange(0, ms.len() as int) =~= ms);
    }
}

/// Checks the meta-properties of a content in order, then its body.
pub fn check_content(meta: &Vec<(ContentMeta, Tag)>, body: Option<&Tag>) -> (r: Result<(), Error>)
    ensures
        outcome(
            r,
            content_check(
                metas_view(meta@),
                match body {
                    Some(b) => Some(b@),
                    None => None,
                },
            ),
        ),
{
    let ghost ms = metas_view(meta@);
    let mut i: usize = 0;
    while i < meta.len()
        invariant
            i <= meta.len(),
            ms == metas_view(meta@),
            forall|j: int| 0 <= j < i ==> meta_ok(#[trigger] ms[j].0, ms[j].1),
        decreases meta.len() - i,
    {
        let (m, t) = (meta[i].0, &meta[i].1);
        let ok = match m {
            ContentMeta::Media => matches!(t, Tag::Text),
            ContentMeta::Headers => t.is_schema(),
            ContentMeta::Status => t.is_status_like(),
        };
        if !ok {
            proof {
                lemma_metas_check_skip(ms, i as int);
                assert(ms.subrange(i as int, ms.len() as int)[0] == ms[i as int]);
            }
            return match m {
                ContentMeta::Media => type_error("ill-formed media"),
                ContentMeta::Headers => type_error("ill-formed headers"),
                ContentMeta::Status => type_error("ill-formed status"),
            };
        }
        i = i + 1;
    }
    proof {
        lemma_metas_check_skip(ms, ms.len() as int);
    }
    if let Some(b) = body {
        if !b.is_schema() {
            return type_error("ill-formed body");
        }
    }
    Ok(())
}

pub open spec fn transfer_check(domain: Option<TagV>, range: TagV) -> Option<Seq<char>> {
    if domain matches Some(d) && !d.is_schema_like() {
        Some("ill-formed domain"@)
    } else if !range.is_schema_like() {
        Some("ill-formed range"@)
    } else {
        None
    }
}

/// The domain, if any, and the range of a transfer are schemas or contents.
pub fn check_transfer(domain: Option<&Tag>, range: &Tag) -> (r: Result<(), Error>)
    ensures
        outcome(
            r,
            transfer_check(
                match domain {
                    Some(d) => Some(d@),
                    None => None,
                },
                range@,
            ),
        ),
{
    if let Some(d) = domain {
        if !d.is_schema_like() {
            return type_error("ill-formed domain");
        }
    }
    if !range.is_schema_like() {
        return type_error("ill-formed range");
    }
    Ok(())
}

pub open spec fn is_transfer(t: TagV) -> bool {
    t is Transfer
}

pub open spec fn relation_check(uri: TagV, xfers: Seq<TagV>) -> Option<Seq<char>> {
    if !(uri is Uri) {
        Some("ill-formed uri"@)
    } else if !(forall|i: int| 0 <= i < xfers.len() ==> #[trigger] is_transfer(xfers[i])) {
        Some("ill-formed transfers"@)
    } else {
        None
    }
}

/// The URI of a relation is a URI and its transfers are transfers.
pub fn check_relation(uri: &Tag, transfers: &Vec<Tag>) -> (r: Result<(), Error>)
    ensures
        outcome(r, relation_check(uri@, views(transfers@))),
{
    if !matches!(uri, Tag::Uri) {
        return type_error("ill-formed uri");
    }
    proof {
        lemma_views(transfers@);
    }
    let mut i: usize = 0;
    while i < transfers.len()
        invariant
            i <= transfers.len(),
            uri@ is Uri,
            views(transfers@).len() == transfers.len(),
            forall|j: int| 0 <= j < transfers.len() ==> #[trigger] views(transfers@)[j] == transfers@[j]@,
            forall|j: int| 0 <= j < i ==> #[trigger] is_transfer(views(transfers@)[j]),
        decreases transfers.len() - i,
    {
        if !matches!(&transfers[i], Tag::Transfer) {
            assert(!is_transfer(views(transfers@)[i as int]));
            return type_error("ill-formed transfers");
        }
        i = i + 1;
    }
    Ok(())
}

/// A segment is an element, or a variable that is a property of a primitive.
pub open spec fn segment_ok(s: Option<TagV>) -> bool {
    match s {
        None => true,
        Some(TagV::Property(t)) => *t is Primitive,
        Some(_) => false,
    }
}

pub open spec fn uri_check(segs: Seq<Option<TagV>>) -> Option<Seq<char>> {
    if forall|i: int| 0 <= i < segs.len() ==> #[trigger] segment_ok(segs[i]) {
        None
    } else {
        Some("ill-formed uri"@)
    }
}

fn segment_is_ok(s: &Option<Tag>) -> (r: bool)
    ensures
        r == segment_ok(opt_view(*s)),
{
    match s {
        None => true,
        Some(t) => match t {
            Tag::Property(inner) => {
                let b: &Tag = inner;
                assert(opt_view(*s) == Some(TagV::Property(Box::new(b@))));
                match b {
                    Tag::Primitive => true,
                    _ => false,
                }
            },
            _ => false,
        },
    }
}

/// Each variable segment of a URI template is a property of a primitive.
pub fn check_uri(segments: &Vec<Option<Tag>>) -> (r: Result<(), Error>)
    ensures
        outcome(r, uri_check(segments_view(segments@))),
{
    let ghost sv = segments_view(segments@);
    let mut i: usize = 0;
    while i < segments.len()
        invariant
            i <= segments.len(),
            sv == segments_view(segments@),
            forall|j: int| 0 <= j < i ==> #[trigger] segment_ok(sv[j]),
        decreases segments.len() - i,
    {
        assert(sv[i as int] == opt_view(segments@[i as int]));
        let ok = segment_is_ok(&segments[i]);
        if !ok {
            assert(!segment_ok(sv[i as int]));
            return type_error("ill-formed uri");
        }
        i = i + 1;
    }
    Ok(())
}

pub open spec fn array_check(item: TagV) -> Option<Seq<char>> {
    if item.is_schema() {
        None
    } else {
        Some("ill-formed array"@)
    }
}

/// The item of an array is a schema.
pub fn check_array(item: &Tag) -> (r: Result<(), Error>)
    ensures
        outcome(r, array_check(item@)),
{
    if !item.is_schema() {
        return type_error("ill-formed array");
    }
    Ok(())
}

pub open spec fn property_check(rhs: TagV) -> Option<Seq<char>> {
    if rhs.is_schema() {
        None
    } else {
        Some("ill-formed property"@)
    }
}

/// The value of a property is a schema.
pub fn check_property(rhs: &Tag) -> (r: Result<(), Error>)
    ensures
        outcome(r, property_check(rhs@)),
{
    if !rhs.is_schema() {
        return type_error("ill-formed property");
    }
    Ok(())
}

pub open spec fn is_property(t: TagV) -> bool {
    t is Property
}

pub open spec fn object_check(props: Seq<TagV>) -> Option<Seq<char>> {
    if forall|i: int| 0 <= i < props.len() ==> #[trigger] is_property(props[i]) {
        None
    } else {
        Some("ill-formed object"@)
    }
}

/// The members of an object are properties.
pub fn check_object(props: &Vec<Tag>) -> (r: Result<(), Error>)
    ensures
        outcome(r, object_check(views(props@))),
{
    proof {
        lemma_views(props@);
    }
    let mut i: usize = 0;
    while i < props.len()
        invariant
            i <= props.len(),
            views(props@).len() == props.len(),
            forall|j: int| 0 <= j < props.len() ==> #[trigger] views(props@)[j] == props@[j]@,
            forall|j: int| 0 <= j < i ==> #[trigger] is_property(views(props@)[j]),
        decreases props.len() - i,
    {
        if !matches!(&props[i], Tag::Property(_)) {
            assert(!is_property(views(props@)[i as int]));
            return type_error("ill-formed object");
        }
        i = i + 1;
    }
    Ok(())
}

pub open spec fn declaration_check(is_reference: bool, rhs: TagV) -> Option<Seq<char>> {
    if is_reference && !rhs.is_schema() {
        Some("ill-formed reference"@)
    } else {
        None
    }
}

/// The value of a reference declaration is a schema.
pub fn check_declaration(is_reference: bool, rhs: &Tag) -> (r: Result<(), Error>)
    ensures
        outcome(r, declaration_check(is_reference, rhs@)),
{
    if is_reference && !rhs.is_schema() {
        return type_error("ill-formed reference");
    }
    Ok(())
}

pub open spec fn resource_check(relation: TagV) -> Option<Seq<char>> {
    if relation.is_relation_like() {
        None
    } else {
        Some("ill-formed resource"@)
    }
}

/// The relation of a resource is a relation or a URI.
pub fn check_resource(relation: &Tag) -> (r: Result<(), Error>)
    ensures
        outcome(r, resource_check(relation@)),
{
    if !relation.is_relation_like() {
        return type_error("ill-formed resource");
    }
    Ok(())
}

/// The rule of a construct.
pub open spec fn construct_check(c: ConstructV) -> Option<Seq<char>> {
    match c {
        ConstructV::Operation(op, ts) => operation_check(op, ts),
        ConstructV::Content(ms, b) => content_check(ms, b),
        ConstructV::Transfer(d, r) => transfer_check(d, r),
        ConstructV::Relation(u, xs) => relation_check(u, xs),
        ConstructV::Uri(ss) => uri_check(ss),
        ConstructV::Array(t) => array_check(t),
        ConstructV::Property(t) => property_check(t),
        ConstructV::Object(ts) => object_check(ts),
        ConstructV::Declaration(r, t) => declaration_check(r, t),
        ConstructV::Resource(t) => resource_check(t),
    }
}

/// Checks one construct by its rule; an error carries the construct.
pub fn check_construct(c: &Construct) -> (r: Result<(), Error>)
    ensures
        construct_outcome(r, construct_check(c@)),
{
    let r = match c {
        Construct::Operation(op, ts) => check_operation(*op, ts),
        Construct::Content(ms, b) => check_content(
            ms,
            match b {
                Some(t) => Some(t),
                None => None,
            },
        ),
        Construct::Transfer(d, r) => check_transfer(
            match d {
                Some(t) => Some(t),
                None => None,
            },
            r,
        ),
        Construct::Relation(u, xs) => check_relation(u, xs),
        Construct::Uri(ss) => check_uri(ss),
        Construct::Array(t) => check_array(t),
        Construct::Property(t) => check_property(t),
        Construct::Object(ts) => check_object(ts),
        Construct::Declaration(r, t) => check_declaration(*r, t),
        Construct::Resource(t) => check_resource(t),
    };
    match r {
        Ok(()) => Ok(()),
        Err(e) => Err(e.with(c)),
    }
}

/// The message of the first construct that breaks its rule, if any.
pub open spec fn program_check(cs: Seq<ConstructV>) -> Option<Seq<char>>
    decreases cs.len(),
{
    if cs.len() == 0 {
        None
    } else if construct_check(cs[0]) is Some {
        construct_check(cs[0])
    } else {
        program_check(cs.drop_first())
    }
}

proof fn lemma_program_check_skip(cs: Seq<ConstructV>, i: int)
    requires
        0 <= i <= cs.len(),
        forall|j: int| 0 <= j < i ==> #[trigger] construct_check(cs[j]) is None,
    ensures
        program_check(cs) == program_check(cs.subrange(i, cs.len() as int)),
    decreases i,
{
    if i > 0 {
        lemma_program_check_skip(cs.drop_first(), i - 1);
        assert(cs.drop_first().subrange(i - 1, cs.drop_first().len() as int) =~= cs.subrange(
            i,
            cs.len() as int,
        ));
    } else {
        assert(cs.subrange(0, cs.len() as int) =~= cs);
    }
}

/// Returns an error if there is at least one type mismatch: the constructs
/// of a module, in the order of the syntax tree, are checked by their rules
/// and the first that breaks its rule gives the error.
pub fn type_check(constructs: &Vec<Construct>) -> (r: Result<(), Error>)
    ensures
        construct_outcome(r, program_check(constructs@.map_values(|c: Construct| c@))),
{
    let ghost cs = constructs@.map_values(|c: Construct| c@);
    let mut i: usize = 0;
    while i < constructs.len()
        invariant
            i <= constructs.len(),
            cs == constructs@.map_values(|c: Construct| c@),
            forall|j: int| 0 <= j < i ==> #[trigger] construct_check(cs[j]) is None,
        decreases constructs.len() - i,
    {
        let r = check_construct(&constructs[i]);
        if r.is_err() {
            proof {
                lemma_program_check_skip(cs, i as int);
                assert(cs.subrange(i as int, cs.len() as int)[0] == cs[i as int]);
            }
            return r;
        }
        i = i + 1;
    }
    proof {
        lemma_program_check_skip(cs, cs.len() as int);
    }
    Ok(())
}

/// The typing rules of single constructs: an array item, a property value
/// and the value of a reference declaration are schemas (primitives,
/// relations, objects, arrays, URIs or alternatives); the relation of a
/// resource is a relation or a URI; the domain and the range of a transfer
/// are schemas or contents; a relation has a URI and transfers. Anything else
/// is a type error with the rule's message.
pub proof fn lemma_construct_rules(t: TagV, d: Option<TagV>, b: bool, xs: Seq<TagV>)
    ensures
        array_check(t) is None <==> (t is Primitive || t is Relation || t is Object || t is Array || t is Uri || t is Any),
        array_check(t) is Some ==> array_check(t)->0 == "ill-formed array"@,
        property_check(t) is None <==> (t is Primitive || t is Relation || t is Object || t is Array || t is Uri || t is Any),
        property_check(t) is Some ==> property_check(t)->0 == "ill-formed property"@,
        declaration_check(b, t) is None <==> (!b || (t is Primitive || t is Relation || t is Object || t is Array || t is Uri || t is Any)),
        resource_check(t) is None <==> (t is Relation || t is Uri),
        transfer_check(d, t) is None <==> ((d matches Some(x) ==> (x is Content || x is Primitive || x is Relation || x is Object || x is Array || x is Uri || x is Any)) && (t is Content || t is Primitive || t is Relation || t is Object || t is Array || t is Uri || t is Any)),
        relation_check(t, xs) is None <==> (t is Uri && forall|i: int|
            0 <= i < xs.len() ==> #[trigger] xs[i] is Transfer),
        object_check(xs) is None <==> forall|i: int| 0 <= i < xs.len() ==> #[trigger] xs[i] is Property,
{
    if relation_check(t, xs) is None {
        assert forall|i: int| 0 <= i < xs.len() implies #[trigger] xs[i] is Transfer by {
            assert(is_transfer(xs[i]));
        }
    } else if t is Uri {
        let i = choose|i: int| 0 <= i < xs.len() && !is_transfer(#[trigger] xs[i]);
        assert(!(xs[i] is Transfer));
    }
    if object_check(xs) is None {
        assert forall|i: int| 0 <= i < xs.len() implies #[trigger] xs[i] is Property by {
            assert(is_property(xs[i]));
        }
    } else {
        let i = choose|i: int| 0 <= i < xs.len() && !is_property(#[trigger] xs[i]);
        assert(!(xs[i] is Property));
    }
}

/// The typing rule of variadic operations: a join takes objects, an
/// alternative or a sum takes schemas (primitives, relations, objects,
/// arrays, URIs or alternatives), a range takes schemas or contents.
pub proof fn lemma_operation_rule(op: Operator, ts: Seq<TagV>)
    ensures
        operation_check(op, ts) is None <==> forall|i: int|
            0 <= i < ts.len() ==> match op {
                Operator::Join => #[trigger] ts[i] is Object,
                Operator::Any | Operator::Sum => (ts[i] is Primitive || ts[i] is Relation || ts[i] is Object || ts[i] is Array || ts[i] is Uri || ts[i] is Any),
                Operator::Range => (ts[i] is Content || ts[i] is Primitive || ts[i] is Relation || ts[i] is Object || ts[i] is Array || ts[i] is Uri || ts[i] is Any),
            },
        operation_check(op, ts) is Some ==> operation_check(op, ts)->0 == match op {
            Operator::Join => "ill-formed join"@,
            Operator::Any | Operator::Sum => "ill-formed alternative"@,
            Operator::Range => "ill-formed ranges"@,
        },
{
    if operation_check(op, ts) is None {
        assert forall|i: int| 0 <= i < ts.len() implies match op {
            Operator::Join => #[trigger] ts[i] is Object,
            Operator::Any | Operator::Sum => (ts[i] is Primitive || ts[i] is Relation || ts[i] is Object || ts[i] is Array || ts[i] is Uri || ts[i] is Any),
            Operator::Range => (ts[i] is Content || ts[i] is Primitive || ts[i] is Relation || ts[i] is Object || ts[i] is Array || ts[i] is Uri || ts[i] is Any),
        } by {
            assert(operand_ok(op, ts[i]));
        }
    } else {
        let i = choose|i: int| 0 <= i < ts.len() && !operand_ok(op, #[trigger] ts[i]);
        assert(!match op {
            Operator::Join => ts[i] is Object,
            Operator::Any | Operator::Sum => (ts[i] is Primitive || ts[i] is Relation || ts[i] is Object || ts[i] is Array || ts[i] is Uri || ts[i] is Any),
            Operator::Range => (ts[i] is Content || ts[i] is Primitive || ts[i] is Relation || ts[i] is Object || ts[i] is Array || ts[i] is Uri || ts[i] is Any),
        });
    }
}

/// The typing rule of a content: a media type is a text, headers are a
/// schema, a status is a status or a number, and the body, if any, is a
/// schema.
pub proof fn lemma_content_rule(ms: Seq<(ContentMeta, TagV)>, body: Option<TagV>)
    ensures
        content_check(ms, body) is None <==> (forall|i: int|
            0 <= i < ms.len() ==> match #[trigger] ms[i].0 {
                ContentMeta::Media => ms[i].1 is Text,
                ContentMeta::Headers => (ms[i].1 is Primitive || ms[i].1 is Relation || ms[i].1 is Object || ms[i].1 is Array || ms[i].1 is Uri || ms[i].1 is Any),
                ContentMeta::Status => (ms[i].1 is Status || ms[i].1 is Number),
            }) && (body matches Some(x) ==> (x is Primitive || x is Relation || x is Object || x is Array || x is Uri || x is Any)),
    decreases ms.len(),
{
    lemma_metas_rule(ms);
}

proof fn lemma_metas_rule(ms: Seq<(ContentMeta, TagV)>)
    ensures
        metas_check(ms) is None <==> forall|i: int|
            0 <= i < ms.len() ==> match #[trigger] ms[i].0 {
                ContentMeta::Media => ms[i].1 is Text,
                ContentMeta::Headers => (ms[i].1 is Primitive || ms[i].1 is Relation || ms[i].1 is Object || ms[i].1 is Array || ms[i].1 is Uri || ms[i].1 is Any),
                ContentMeta::Status => (ms[i].1 is Status || ms[i].1 is Number),
            },
    decreases ms.len(),
{
    if ms.len() > 0 {
        lemma_metas_rule(ms.drop_first());
        if metas_check(ms) is None {
            assert forall|i: int| 0 <= i < ms.len() implies match #[trigger] ms[i].0 {
                ContentMeta::Media => ms[i].1 is Text,
                ContentMeta::Headers => (ms[i].1 is Primitive || ms[i].1 is Relation || ms[i].1 is Object || ms[i].1 is Array || ms[i].1 is Uri || ms[i].1 is Any),
                ContentMeta::Status => (ms[i].1 is Status || ms[i].1 is Number),
            } by {
                if i > 0 {
                    assert(ms.drop_first()[i - 1] == ms[i]);
                }
            }
        } else if meta_ok(ms[0].0, ms[0].1) {
            let j = choose|j: int| 0 <= j < ms.drop_first().len() && !match #[trigger] ms.drop_first()[j].0 {
                ContentMeta::Media => ms.drop_first()[j].1 is Text,
                ContentMeta::Headers => (ms.drop_first()[j].1 is Primitive || ms.drop_first()[j].1 is Relation || ms.drop_first()[j].1 is Object || ms.drop_first()[j].1 is Array || ms.drop_first()[j].1 is Uri || ms.drop_first()[j].1 is Any),
                ContentMeta::Status => (ms.drop_first()[j].1 is Status || ms.drop_first()[j].1 is Number),
            };
            assert(ms.drop_first()[j] == ms[j + 1]);
        }
    }
}

/// The typing rule of URIs: each variable segment is a property whose
/// value is a primitive.
pub proof fn lemma_uri_rule(segs: Seq<Option<TagV>>)
    ensures
        uri_check(segs) is None <==> forall|i: int|
            0 <= i < segs.len() ==> (#[trigger] segs[i] is None || (segs[i]->0 is Property
                && *segs[i]->0->Property_0 is Primitive)),
{
    if uri_check(segs) is None {
        assert forall|i: int| 0 <= i < segs.len() implies (#[trigger] segs[i] is None || (segs[i]->0 is Property
                && *segs[i]->0->Property_0 is Primitive)) by {
            assert(segment_ok(segs[i]));
        }
    } else {
        let i = choose|i: int| 0 <= i < segs.len() && !segment_ok(#[trigger] segs[i]);
        assert(!(segs[i] is None || (segs[i]->0 is Property && *segs[i]->0->Property_0 is Primitive)));
    }
}

} // verus!
