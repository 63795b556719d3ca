use oal_compiler::errors::Kind;
use oal_compiler::infer::LiteralKind;
use oal_compiler::locator::{Locator, Span};
use oal_compiler::infer::{check_complete, substitute};
use oal_compiler::rules::{
    constrain, constrain_module, tag, tag_type, ConstrainNode, ModuleNode, SyntaxKind,
    SyntaxNode, TagNode, Typed,
};
use oal_compiler::tag::{FuncTag, Tag, TagSeq};
use oal_compiler::typecheck::Operator;
use oal_compiler::unify::InferenceSet;

fn new_seq() -> TagSeq {
    TagSeq::new(Locator::new("file:///main.oal"))
}

fn number(t: &Tag) -> usize {
    match t {
        Tag::Var(id) => id.number(),
        _ => panic!("expected a tag variable"),
    }
}

fn typed(t: &Tag) -> Typed {
    Typed { tag: t.duplicate(), span: None }
}

#[test]
fn tag_var_decl() {
    // let id1 = num;
    let mut seq = new_seq();
    let t = tag_type(&mut seq, &TagNode::Primitive, None).ok().expect("tagging failed");
    assert_eq!(t, Tag::Primitive);
}

#[test]
fn tag_array_decl() {
    // let id1 = [num];
    let mut seq = new_seq();
    let inner = tag_type(&mut seq, &TagNode::Primitive, None).ok().expect("tagging failed");
    assert_eq!(inner, Tag::Primitive);
    let t = tag_type(&mut seq, &TagNode::Array, None).ok().expect("tagging failed");
    assert_eq!(t, Tag::Array);
}

#[test]
fn tag_lambda_decl() {
    // let f x y z = num;
    let mut seq = new_seq();
    let mut tags = Vec::new();
    for _ in 0..3 {
        let b = tag_type(&mut seq, &TagNode::Binding, None).ok().expect("tagging failed");
        tags.push(number(&b));
    }
    let body = tag_type(&mut seq, &TagNode::Primitive, None).ok().expect("tagging failed");
    assert_eq!(body, Tag::Primitive);
    let lambda = tag_type(&mut seq, &TagNode::Lambda, None).ok().expect("tagging failed");
    assert_eq!(number(&lambda), 3);
    assert_eq!(tags, vec![0, 1, 2]);
}

#[test]
fn tag_not_in_scope() {
    // let a = f {};
    let mut seq = new_seq();
    let obj = tag_type(&mut seq, &TagNode::Object, None).ok().expect("tagging failed");
    assert_eq!(obj, Tag::Object);
    let r = tag_type(&mut seq, &TagNode::Application(None), None);
    match r {
        Err(e) => assert!(matches!(e.kind, Kind::NotInScope)),
        Ok(_) => panic!("expected error"),
    }
}

#[test]
fn tag_application_of_lambda_and_of_value() {
    let mut seq = new_seq();
    let body = Tag::Property(Box::new(Tag::Number));
    let t = tag_type(&mut seq, &TagNode::Application(Some(Some(body.duplicate()))), None)
        .ok()
        .expect("tagging failed");
    assert_eq!(t, body);
    let span = Span::new(Locator::new("file:///main.oal"), 4, 9);
    let e = tag_type(&mut seq, &TagNode::Application(Some(None)), Some(span))
        .err()
        .expect("expected an error");
    assert!(matches!(e.kind, Kind::NotAFunction));
    let at = e.span().expect("expected a span");
    assert_eq!(at.start, 4);
    assert_eq!(at.end, 9);
    assert_eq!(seq.len(), 0);
}

#[test]
fn tag_type_literals_variables_and_properties() {
    let mut seq = new_seq();
    let lit = tag_type(&mut seq, &TagNode::Literal(LiteralKind::HttpStatus), None).ok().unwrap();
    assert_eq!(lit, Tag::Status);
    let p = tag_type(&mut seq, &TagNode::Property(Tag::Text), None).ok().unwrap();
    assert_eq!(p, Tag::Property(Box::new(Tag::Text)));
    let v = tag_type(&mut seq, &TagNode::Variable(Some(Tag::Uri)), None).ok().unwrap();
    assert_eq!(v, Tag::Uri);
    let sum = tag_type(&mut seq, &TagNode::Operation(Operator::Sum), None).ok().unwrap();
    assert_eq!(number(&sum), 0);
    let join = tag_type(&mut seq, &TagNode::Operation(Operator::Join), None).ok().unwrap();
    assert_eq!(join, Tag::Object);
    let e = tag_type(&mut seq, &TagNode::Variable(None), None).err().unwrap();
    assert!(matches!(e.kind, Kind::NotInScope));
    assert_eq!(seq.len(), 1);
}

#[test]
fn constraint_var() {
    // let id1 = {} & {};
    // let id2 = id1 | {};
    let mut seq = new_seq();
    let mut cnt = InferenceSet::new();

    let o1 = tag_type(&mut seq, &TagNode::Object, None).ok().unwrap();
    constrain(&mut cnt, &ConstrainNode::Object(vec![]), &o1, &None).ok().unwrap();
    let o2 = tag_type(&mut seq, &TagNode::Object, None).ok().unwrap();
    constrain(&mut cnt, &ConstrainNode::Object(vec![]), &o2, &None).ok().unwrap();
    let j = tag_type(&mut seq, &TagNode::Operation(Operator::Join), None).ok().unwrap();
    let join = ConstrainNode::Operation(Operator::Join, vec![typed(&o1), typed(&o2)]);
    constrain(&mut cnt, &join, &j, &None).ok().unwrap();

    let v = tag_type(&mut seq, &TagNode::Variable(Some(j.duplicate())), None).ok().unwrap();
    constrain(&mut cnt, &ConstrainNode::Variable, &v, &None).ok().unwrap();
    let o3 = tag_type(&mut seq, &TagNode::Object, None).ok().unwrap();
    constrain(&mut cnt, &ConstrainNode::Object(vec![]), &o3, &None).ok().unwrap();
    let s = tag_type(&mut seq, &TagNode::Operation(Operator::Sum), None).ok().unwrap();
    let sum = ConstrainNode::Operation(Operator::Sum, vec![typed(&v), typed(&o3)]);
    constrain(&mut cnt, &sum, &s, &None).ok().unwrap();

    assert_eq!(cnt.len(), 8);
}

#[test]
fn constraint_lambda() {
    // let f x y z = num;
    let mut seq = new_seq();
    let mut cnt = InferenceSet::new();
    let mut bindings = Vec::new();
    for _ in 0..3 {
        let b = tag_type(&mut seq, &TagNode::Binding, None).ok().unwrap();
        constrain(&mut cnt, &ConstrainNode::Binding, &b, &None).ok().unwrap();
        bindings.push(b);
    }
    let body = tag_type(&mut seq, &TagNode::Primitive, None).ok().unwrap();
    constrain(&mut cnt, &ConstrainNode::Primitive, &body, &None).ok().unwrap();
    let l = tag_type(&mut seq, &TagNode::Lambda, None).ok().unwrap();
    constrain(&mut cnt, &ConstrainNode::Lambda(bindings, body), &l, &None).ok().unwrap();

    assert_eq!(cnt.len(), 2);
}

#[test]
fn constrain_then_unify_gives_the_lambda_type() {
    let mut seq = new_seq();
    let mut cnt = InferenceSet::new();
    let x = tag_type(&mut seq, &TagNode::Binding, None).ok().unwrap();
    let l = tag_type(&mut seq, &TagNode::Lambda, None).ok().unwrap();
    constrain(&mut cnt, &ConstrainNode::Lambda(vec![x.duplicate()], Tag::Number), &l, &None)
        .ok()
        .unwrap();
    let a = tag_type(&mut seq, &TagNode::Application(Some(Some(Tag::Number))), None).ok().unwrap();
    let app = ConstrainNode::Application(Some(typed(&l)), vec![Tag::Text]);
    constrain(&mut cnt, &app, &a, &None).ok().unwrap();
    assert_eq!(cnt.len(), 2);
    let set = cnt.unify().ok().expect("unification failed");
    assert_eq!(set.substitute(&x), Tag::Text);
    assert_eq!(
        set.substitute(&l),
        Tag::Func(FuncTag { bindings: vec![Tag::Text], range: Box::new(Tag::Number) })
    );
}

#[test]
fn constrain_composites() {
    let mut cnt = InferenceSet::new();
    let t = Tag::Relation;
    let rel = ConstrainNode::Relation(typed(&Tag::Uri), vec![typed(&Tag::Transfer), typed(&Tag::Transfer)]);
    constrain(&mut cnt, &rel, &t, &None).ok().unwrap();
    assert_eq!(cnt.len(), 4);
    let uri = ConstrainNode::Uri(vec![(typed(&Tag::Text), Tag::Text)], Some(typed(&Tag::Object)));
    constrain(&mut cnt, &uri, &Tag::Uri, &None).ok().unwrap();
    assert_eq!(cnt.len(), 7);
    let content = ConstrainNode::Content(Some(typed(&Tag::Object)), None);
    constrain(&mut cnt, &content, &Tag::Content, &None).ok().unwrap();
    assert_eq!(cnt.len(), 9);
    constrain(&mut cnt, &ConstrainNode::Transfer(None), &Tag::Transfer, &None).ok().unwrap();
    constrain(&mut cnt, &ConstrainNode::Operation(Operator::Any, vec![]), &Tag::Any, &None)
        .ok()
        .unwrap();
    assert_eq!(cnt.len(), 11);
    // the relation's URI is no URI: unification fails
    let mut bad = InferenceSet::new();
    let rel = ConstrainNode::Relation(typed(&Tag::Number), vec![]);
    constrain(&mut bad, &rel, &Tag::Relation, &None).ok().unwrap();
    assert!(bad.unify().is_err());
}

#[test]
fn constrain_unbound_application() {
    let mut cnt = InferenceSet::new();
    cnt.push(Tag::Number, Tag::Number, None);
    let span = Some(Span::new(Locator::new("file:///main.oal"), 1, 2));
    let e = constrain(&mut cnt, &ConstrainNode::Application(None, vec![]), &Tag::Object, &span)
        .err()
        .expect("expected an error");
    assert!(matches!(e.kind, Kind::NotInScope));
    assert_eq!(cnt.len(), 1);
}

#[test]
fn infer_tests_infer_tag() {
    // let f x = x;
    // let b = f num;
    let nodes = vec![
        SyntaxKind::Other,       // program
        SyntaxKind::Declaration, // let f x = x
        SyntaxKind::Other,       // f
        SyntaxKind::Binding,     // x
        SyntaxKind::Terminal,    // x
        SyntaxKind::Variable,    // x
        SyntaxKind::Declaration, // let b = f num
        SyntaxKind::Other,       // b
        SyntaxKind::Application, // f num
        SyntaxKind::Variable,    // f
        SyntaxKind::Terminal,    // num
        SyntaxKind::Primitive,   // num
    ];
    let mut seq = new_seq();
    let tags = tag(&mut seq, &nodes);
    assert_eq!(tags.len(), nodes.len());
    assert!(tags[0].is_none());
    let decl1 = tags[1].as_ref().unwrap();
    let binding = tags[3].as_ref().unwrap();
    let term = tags[4].as_ref().unwrap();
    let variable = tags[5].as_ref().unwrap();
    let decl2 = tags[6].as_ref().unwrap();
    let app = tags[8].as_ref().unwrap();
    let arg = tags[10].as_ref().unwrap();
    assert_eq!(tags[11], Some(Tag::Primitive));
    let mut vars: Vec<usize> = [decl1, binding, term, variable, decl2, app, arg]
        .iter()
        .map(|t| number(t))
        .collect();
    vars.sort();
    vars.dedup();
    assert_eq!(vars.len(), 7, "expected unique tag variables");
    assert_eq!(seq.len(), 8);
}

#[test]
fn tag_gives_properties_a_fresh_value() {
    let nodes = vec![
        SyntaxKind::Property,
        SyntaxKind::Literal(LiteralKind::Number),
        SyntaxKind::VariadicOp(Operator::Range),
        SyntaxKind::VariadicOp(Operator::Sum),
    ];
    let mut seq = new_seq();
    let tags = tag(&mut seq, &nodes);
    match &tags[0] {
        Some(Tag::Property(v)) => assert_eq!(number(v), 0),
        _ => panic!("expected a property"),
    }
    assert_eq!(tags[1], Some(Tag::Number));
    assert_eq!(tags[2], Some(Tag::Content));
    assert_eq!(number(tags[3].as_ref().unwrap()), 1);
    assert_eq!(seq.len(), 2);
}

#[test]
fn tests_infer_tag() {
    // let f x = x;
    // let b = f num;
    let nodes = vec![
        SyntaxKind::Other,
        SyntaxKind::Declaration,
        SyntaxKind::Other,
        SyntaxKind::Binding,
        SyntaxKind::Terminal,
        SyntaxKind::Variable,
        SyntaxKind::Declaration,
        SyntaxKind::Other,
        SyntaxKind::Application,
        SyntaxKind::Variable,
        SyntaxKind::Terminal,
        SyntaxKind::Primitive,
    ];
    let mut seq = new_seq();
    let tags = tag(&mut seq, &nodes);
    let picked = [1, 3, 4, 5, 6, 8, 10];
    let mut vars: Vec<usize> = picked.iter().map(|&i| number(tags[i].as_ref().unwrap())).collect();
    assert_eq!(tags[11], Some(Tag::Primitive));
    vars.sort();
    vars.dedup();
    assert_eq!(vars.len(), 7, "expected unique tag variables");
}

fn node(node: SyntaxNode, tags: &[Option<Tag>], i: usize) -> ModuleNode {
    let span = Some(Span::new(Locator::new("file:///main.oal"), i, i + 1));
    ModuleNode { node, tag: tags[i].as_ref().unwrap().duplicate(), span }
}

fn t(tags: &[Option<Tag>], i: usize) -> Tag {
    tags[i].as_ref().unwrap().duplicate()
}

fn part(tags: &[Option<Tag>], i: usize) -> Typed {
    Typed { tag: t(tags, i), span: None }
}

#[test]
fn infer_unify() {
    // let f x = 'n x;
    // let g y = f [y];
    // let a = g num;
    // let b = a;
    let kinds = vec![
        SyntaxKind::Other,         // 0 program
        SyntaxKind::Declaration,   // 1 let f x = 'n x
        SyntaxKind::Other,         // 2 f
        SyntaxKind::Binding,       // 3 x
        SyntaxKind::Terminal,      // 4 'n x
        SyntaxKind::Property,      // 5 'n x
        SyntaxKind::Terminal,      // 6 x
        SyntaxKind::Variable,      // 7 x
        SyntaxKind::Declaration,   // 8 let g y = f [y]
        SyntaxKind::Other,         // 9 g
        SyntaxKind::Binding,       // 10 y
        SyntaxKind::Application,   // 11 f [y]
        SyntaxKind::Terminal,      // 12 [y]
        SyntaxKind::Array,         // 13 [y]
        SyntaxKind::Terminal,      // 14 y
        SyntaxKind::Variable,      // 15 y
        SyntaxKind::Declaration,   // 16 let a = g num
        SyntaxKind::Other,         // 17 a
        SyntaxKind::Application,   // 18 g num
        SyntaxKind::Terminal,      // 19 num
        SyntaxKind::Primitive,     // 20 num
        SyntaxKind::Declaration,   // 21 let b = a
        SyntaxKind::Other,         // 22 b
        SyntaxKind::Terminal,      // 23 a
        SyntaxKind::Variable,      // 24 a
    ];
    let mut seq = new_seq();
    let mut tags = tag(&mut seq, &kinds);
    let fill = |i: usize, tags: &Vec<Option<Tag>>| -> Vec<Option<Tag>> {
        let mut v: Vec<Option<Tag>> = tags.iter().map(|x| x.as_ref().map(|y| y.duplicate())).collect();
        v[i] = Some(Tag::Any);
        v
    };
    let own = fill(0, &tags);
    let own = fill(2, &own);
    let own = fill(9, &own);
    let own = fill(17, &own);
    let own = fill(22, &own);
    let tg = &own[..];
    let nodes = vec![
        node(SyntaxNode::Other, tg, 0),
        node(SyntaxNode::Declaration(vec![t(tg, 3)], t(tg, 4)), tg, 1),
        node(SyntaxNode::Other, tg, 2),
        node(SyntaxNode::Other, tg, 3),
        node(SyntaxNode::Terminal(t(tg, 5)), tg, 4),
        node(SyntaxNode::Property(t(tg, 6)), tg, 5),
        node(SyntaxNode::Terminal(t(tg, 7)), tg, 6),
        node(SyntaxNode::Variable(Some(t(tg, 3))), tg, 7),
        node(SyntaxNode::Declaration(vec![t(tg, 10)], t(tg, 11)), tg, 8),
        node(SyntaxNode::Other, tg, 9),
        node(SyntaxNode::Other, tg, 10),
        node(SyntaxNode::Application(Some(t(tg, 1)), vec![t(tg, 12)]), tg, 11),
        node(SyntaxNode::Terminal(t(tg, 13)), tg, 12),
        node(SyntaxNode::Array, tg, 13),
        node(SyntaxNode::Terminal(t(tg, 15)), tg, 14),
        node(SyntaxNode::Variable(Some(t(tg, 10))), tg, 15),
        node(SyntaxNode::Declaration(vec![], t(tg, 18)), tg, 16),
        node(SyntaxNode::Other, tg, 17),
        node(SyntaxNode::Application(Some(t(tg, 8)), vec![t(tg, 19)]), tg, 18),
        node(SyntaxNode::Terminal(t(tg, 20)), tg, 19),
        node(SyntaxNode::Primitive, tg, 20),
        node(SyntaxNode::Declaration(vec![], t(tg, 23)), tg, 21),
        node(SyntaxNode::Other, tg, 22),
        node(SyntaxNode::Terminal(t(tg, 24)), tg, 23),
        node(SyntaxNode::Variable(Some(t(tg, 16))), tg, 24),
    ];

    let eqs = constrain_module(&nodes).ok().expect("constraining failed");
    assert_eq!(eqs.len(), 18);

    let set = eqs.unify().ok().expect("unification failed");
    substitute(&set, &mut tags);
    assert!(check_complete(&tags).is_ok());
    assert_eq!(tags[21], Some(Tag::Property(Box::new(Tag::Array))));
}

#[test]
fn constrain_module_reports_the_first_undefined_name() {
    let mut seq = new_seq();
    let a = Tag::Var(seq.next());
    let b = Tag::Var(seq.next());
    let nodes = vec![
        ModuleNode { node: SyntaxNode::Primitive, tag: a.duplicate(), span: None },
        ModuleNode { node: SyntaxNode::Variable(None), tag: b.duplicate(), span: None },
        ModuleNode { node: SyntaxNode::Application(None, vec![]), tag: a.duplicate(), span: None },
    ];
    let e = constrain_module(&nodes).err().expect("expected an error");
    assert!(matches!(e.kind, Kind::NotInScope));
    assert_eq!(e.msg, "variable is not defined");
    assert!(e.span().is_none());
}

#[test]
fn constrain_module_equation_order_and_spans() {
    let mut seq = new_seq();
    let s = Tag::Var(seq.next());
    let o1 = Typed { tag: Tag::Text, span: None };
    let o2 = Typed { tag: Tag::Object, span: Some(Span::new(Locator::new("file:///m.oal"), 2, 4)) };
    let nodes = vec![ModuleNode {
        node: SyntaxNode::VariadicOp(Operator::Sum, vec![o1, o2]),
        tag: s.duplicate(),
        span: Some(Span::new(Locator::new("file:///m.oal"), 0, 9)),
    }];
    let eqs = constrain_module(&nodes).ok().expect("constraining failed");
    assert_eq!(eqs.len(), 2);
    // the sum takes the type of its operands: they do not unify
    assert!(eqs.unify().is_err());
    let err = eqs.unify().err().unwrap();
    let at = err.span().expect("expected the span of the failing equation");
    assert_eq!((at.start, at.end), (2, 4));
}

#[test]
fn constrain_reports_unbound_application_at_its_span() {
    let mut cnt = InferenceSet::new();
    let span = Some(Span::new(Locator::new("file:///main.oal"), 5, 8));
    let e = constrain(&mut cnt, &ConstrainNode::Application(None, vec![]), &Tag::Object, &span)
        .err()
        .expect("expected an error");
    let at = e.span().expect("expected a span");
    assert_eq!((at.start, at.end), (5, 8));
}

#[test]
fn infer_set() {
    // let f x = x;
    // let g y = f y;
    // let a = g num;
    // let b = a;
    let kinds = vec![
        SyntaxKind::Other,       // 0 program
        SyntaxKind::Declaration, // 1 let f x = x
        SyntaxKind::Other,       // 2 f
        SyntaxKind::Binding,     // 3 x
        SyntaxKind::Terminal,    // 4 x
        SyntaxKind::Variable,    // 5 x
        SyntaxKind::Declaration, // 6 let g y = f y
        SyntaxKind::Other,       // 7 g
        SyntaxKind::Binding,     // 8 y
        SyntaxKind::Application, // 9 f y
        SyntaxKind::Terminal,    // 10 y
        SyntaxKind::Variable,    // 11 y
        SyntaxKind::Declaration, // 12 let a = g num
        SyntaxKind::Other,       // 13 a
        SyntaxKind::Application, // 14 g num
        SyntaxKind::Terminal,    // 15 num
        SyntaxKind::Primitive,   // 16 num
        SyntaxKind::Declaration, // 17 let b = a
        SyntaxKind::Other,       // 18 b
        SyntaxKind::Terminal,    // 19 a
        SyntaxKind::Variable,    // 20 a
    ];
    let mut seq = new_seq();
    let mut tags = tag(&mut seq, &kinds);
    let tg: Vec<Option<Tag>> = tags
        .iter()
        .map(|x| Some(x.as_ref().map(|y| y.duplicate()).unwrap_or(Tag::Any)))
        .collect();
    let tg = &tg[..];
    let nodes = vec![
        node(SyntaxNode::Other, tg, 0),
        node(SyntaxNode::Declaration(vec![t(tg, 3)], t(tg, 4)), tg, 1),
        node(SyntaxNode::Other, tg, 2),
        node(SyntaxNode::Other, tg, 3),
        node(SyntaxNode::Terminal(t(tg, 5)), tg, 4),
        node(SyntaxNode::Variable(Some(t(tg, 3))), tg, 5),
        node(SyntaxNode::Declaration(vec![t(tg, 8)], t(tg, 9)), tg, 6),
        node(SyntaxNode::Other, tg, 7),
        node(SyntaxNode::Other, tg, 8),
        node(SyntaxNode::Application(Some(t(tg, 1)), vec![t(tg, 10)]), tg, 9),
        node(SyntaxNode::Terminal(t(tg, 11)), tg, 10),
        node(SyntaxNode::Variable(Some(t(tg, 8))), tg, 11),
        node(SyntaxNode::Declaration(vec![], t(tg, 14)), tg, 12),
        node(SyntaxNode::Other, tg, 13),
        node(SyntaxNode::Application(Some(t(tg, 6)), vec![t(tg, 15)]), tg, 14),
        node(SyntaxNode::Terminal(t(tg, 16)), tg, 15),
        node(SyntaxNode::Primitive, tg, 16),
        node(SyntaxNode::Declaration(vec![], t(tg, 19)), tg, 17),
        node(SyntaxNode::Other, tg, 18),
        node(SyntaxNode::Terminal(t(tg, 20)), tg, 19),
        node(SyntaxNode::Variable(Some(t(tg, 12))), tg, 20),
    ];
    let eqs = constrain_module(&nodes).ok().expect("constraining failed");
    let set = eqs.unify().ok().expect("unification failed");
    substitute(&set, &mut tags);
    assert!(check_complete(&tags).is_ok());
    assert_eq!(tags[17], Some(Tag::Primitive));
}
