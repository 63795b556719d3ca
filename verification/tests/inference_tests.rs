use oal_compiler::disjoin::Substitution;
use oal_compiler::errors::Kind;
use oal_compiler::infer::{check_complete, literal_tag, substitute, LiteralKind};
use oal_compiler::locator::{Locator, Span};
use oal_compiler::tag::{tag_eq, FuncTag, Tag, TagSeq};
use oal_compiler::union::{reduce, reduce_within, UnionFind};
use oal_compiler::unify::InferenceSet;

fn vars(n: usize) -> Vec<Tag> {
    let mut seq = TagSeq::new(Locator::new("file:///module.oal"));
    (0..n).map(|_| Tag::Var(seq.next())).collect()
}

fn var(vs: &[Tag], i: usize) -> Tag {
    vs[i].duplicate()
}

#[test]
fn unify_simple() {
    let v = vars(3);
    let mut c = InferenceSet::new();

    c.push(var(&v, 0), Tag::Primitive, None);
    c.push(var(&v, 2), var(&v, 1), None);
    c.push(var(&v, 1), var(&v, 0), None);

    let u = c.unify().ok().expect("unification failed");

    let t = u.substitute(&v[2]);

    assert_eq!(t, Tag::Primitive);
}

#[test]
fn unify_functions() {
    let v = vars(3);
    let mut c = InferenceSet::new();
    let f = Tag::Func(FuncTag {
        bindings: vec![var(&v, 0)],
        range: Box::new(var(&v, 1)),
    });
    let g = Tag::Func(FuncTag {
        bindings: vec![Tag::Number],
        range: Box::new(Tag::Property(Box::new(var(&v, 0)))),
    });
    c.push(var(&v, 2), f, None);
    c.push(var(&v, 2), g, None);
    assert_eq!(c.len(), 2);
    let u = c.unify().ok().expect("unification failed");
    assert_eq!(u.substitute(&v[1]), Tag::Property(Box::new(Tag::Number)));
}

#[test]
fn unify_mismatch_reports_span() {
    let loc = Locator::new("file:///module.oal");
    let mut c = InferenceSet::new();
    c.push(Tag::Number, Tag::Number, None);
    c.push(Tag::Text, Tag::Object, Some(Span::new(loc, 3, 7)));
    let err = c.unify().err().expect("expected an error");
    assert!(matches!(err.kind, Kind::InvalidTypes));
    assert_eq!(err.msg, "type mismatch");
    let span = err.span().expect("expected a span");
    assert_eq!((span.start, span.end), (3, 7));
}

#[test]
fn unify_recursive_fails() {
    let v = vars(1);
    let mut c = InferenceSet::new();
    let f = Tag::Func(FuncTag {
        bindings: vec![var(&v, 0)],
        range: Box::new(Tag::Number),
    });
    c.push(var(&v, 0), f, None);
    let err = c.unify().err().expect("expected an error");
    assert_eq!(err.msg, "recursive type");
}

#[test]
fn unify_arity_fails() {
    let mut c = InferenceSet::new();
    let f = Tag::Func(FuncTag {
        bindings: vec![Tag::Number],
        range: Box::new(Tag::Number),
    });
    let g = Tag::Func(FuncTag {
        bindings: vec![],
        range: Box::new(Tag::Number),
    });
    c.push(f, g, None);
    let err = c.unify().err().expect("expected an error");
    assert_eq!(err.msg, "function arity mismatch");
}

#[test]
fn disjoin() {
    let mut sets = UnionFind::new();

    let v = vars(4);

    sets.union(var(&v, 0), Tag::Property(Box::new(var(&v, 2))));
    sets.union(var(&v, 1), var(&v, 3));
    sets.union(var(&v, 3), var(&v, 1));
    sets.union(var(&v, 1), var(&v, 0));
    sets.union(var(&v, 2), Tag::Number);

    let tag = reduce(&sets, &v[3]);

    assert_eq!(tag, Tag::Property(Box::new(Tag::Number)));
}

#[test]
fn union_find_representative() {
    let v = vars(2);
    let mut sets = UnionFind::new();
    assert!(sets.find(&v[0]).is_none());
    sets.union(var(&v, 0), var(&v, 1));
    let (rep, reduced) = sets.find(&v[0]).expect("expected a class");
    assert!(tag_eq(rep, &v[1]));
    assert!(reduced);
    let (rep, reduced) = sets.find(&v[1]).expect("expected a class");
    assert!(tag_eq(rep, &v[1]));
    assert!(!reduced);
}

#[test]
fn substitution_is_applied_and_idempotent() {
    let v = vars(2);
    let mut seq = TagSeq::new(Locator::new("file:///other.oal"));
    let id0 = seq.next();
    let id1 = seq.next();
    let mut s = Substitution::new();
    s.extend(id0.duplicate(), Tag::Property(Box::new(Tag::Var(id1.duplicate()))));
    s.extend(id1.duplicate(), Tag::Primitive);
    let t = s.substitute(&Tag::Var(id0.duplicate()));
    assert_eq!(t, Tag::Property(Box::new(Tag::Primitive)));
    assert_eq!(s.substitute(&t), t);
    // An unbound variable is left as is.
    assert_eq!(s.substitute(&v[0]), v[0]);
    assert!(s.lookup(&id1).is_some());
}

#[test]
fn substitute_and_check_tags() {
    let mut seq = TagSeq::new(Locator::new("file:///m.oal"));
    let a = seq.next();
    let b = seq.next();
    let mut s = Substitution::new();
    s.extend(a.duplicate(), Tag::Text);
    let mut tags = vec![Some(Tag::Var(a.duplicate())), None, Some(Tag::Number)];
    substitute(&s, &mut tags);
    assert_eq!(tags, vec![Some(Tag::Text), None, Some(Tag::Number)]);
    assert!(check_complete(&tags).is_ok());

    let unsolved = vec![Some(Tag::Text), Some(Tag::Var(b))];
    let err = check_complete(&unsolved).err().expect("expected an error");
    assert!(matches!(err.kind, Kind::InvalidTypes));
    assert_eq!(err.msg, "unsolved tag variable");
}

#[test]
fn literal_tags() {
    assert_eq!(literal_tag(LiteralKind::HttpStatus), Tag::Status);
    assert_eq!(literal_tag(LiteralKind::Number), Tag::Number);
    assert_eq!(literal_tag(LiteralKind::Symbol), Tag::Text);
}

#[test]
fn tag_sequence_counts() {
    let mut seq = TagSeq::new(Locator::new("file:///m.oal"));
    assert_eq!(seq.len(), 0);
    let a = seq.next();
    let b = seq.next();
    assert_eq!(seq.len(), 2);
    assert_eq!(a.number(), 0);
    assert_eq!(b.number(), 1);
    assert!(!a.same(&b));
    assert!(Tag::Var(a).is_variable());
    assert!(Tag::Uri.is_schema() && Tag::Content.is_schema_like() && !Tag::Content.is_schema());
    assert!(Tag::Number.is_status_like() && Tag::Uri.is_relation_like());
}

#[test]
fn reduce_twice_changes_nothing() {
    let v = vars(3);
    let mut sets = UnionFind::new();
    sets.union(var(&v, 0), var(&v, 1));
    sets.union(var(&v, 1), Tag::Property(Box::new(var(&v, 2))));
    let t = Tag::Func(FuncTag { bindings: vec![var(&v, 0)], range: Box::new(var(&v, 2)) });
    let once = reduce(&sets, &t);
    let twice = reduce(&sets, &once);
    assert_eq!(once, twice);
    assert_eq!(reduce(&sets, &var(&v, 2)), var(&v, 2));
}

#[test]
fn substitute_within_stops_on_cycles() {
    let v = vars(2);
    let mut s = Substitution::new();
    s.extend(id(&v[0]), Tag::Property(Box::new(var(&v, 1))));
    s.extend(id(&v[1]), Tag::Number);
    assert_eq!(s.substitute_within(&v[0], 1), None);
    assert_eq!(
        s.substitute_within(&v[0], 2),
        Some(Tag::Property(Box::new(Tag::Number)))
    );
    let mut c = Substitution::new();
    c.extend(id(&v[0]), Tag::Property(Box::new(var(&v, 0))));
    assert_eq!(c.substitute_within(&v[0], 100), None);
}

#[test]
fn reduce_within_stops_on_cycles() {
    let v = vars(2);
    let mut sets = UnionFind::new();
    sets.union(var(&v, 0), var(&v, 1));
    let r = reduce_within(&sets, &var(&v, 0), 5).expect("reduction should end");
    assert_eq!(r, reduce(&sets, &var(&v, 0)));
    assert_eq!(reduce_within(&sets, &Tag::Number, 0), Some(Tag::Number));
}

fn id(t: &Tag) -> oal_compiler::tag::TagId {
    match t {
        Tag::Var(i) => i.duplicate(),
        _ => panic!("expected a variable"),
    }
}

#[test]
fn unify_within_agrees_with_unify() {
    let v = vars(3);
    let mut c = InferenceSet::new();
    c.push(var(&v, 0), Tag::Primitive, None);
    c.push(var(&v, 2), var(&v, 1), None);
    c.push(var(&v, 1), var(&v, 0), None);
    assert!(c.unify_within(0, 10).is_none());
    let u = c.unify_within(10, 10).expect("bounds should suffice").ok().expect("unification failed");
    assert_eq!(u.substitute(&v[2]), Tag::Primitive);

    let mut bad = InferenceSet::new();
    bad.push(Tag::Object, Tag::Array, None);
    let err = bad.unify_within(5, 5).expect("bounds should suffice").err().expect("expected an error");
    assert!(matches!(err.kind, Kind::InvalidTypes));
    assert_eq!(err.msg, "type mismatch");
}

#[test]
fn substitute_tags_within_bounds() {
    let v = vars(2);
    let mut s = Substitution::new();
    s.extend(id(&v[0]), Tag::Number);
    let mut tags = vec![Some(var(&v, 0)), None, Some(var(&v, 1))];
    assert!(oal_compiler::infer::substitute_within(&s, &mut tags, 3));
    assert_eq!(tags, vec![Some(Tag::Number), None, Some(var(&v, 1))]);
    let mut cyclic = Substitution::new();
    cyclic.extend(id(&v[1]), Tag::Property(Box::new(var(&v, 1))));
    let mut more = vec![Some(var(&v, 1))];
    assert!(!oal_compiler::infer::substitute_within(&cyclic, &mut more, 20));
    assert_eq!(more, vec![Some(var(&v, 1))]);
}
