use oal_compiler::errors::Kind;
use oal_compiler::resolver::{
    resolve, resolve_expr, Expr, Method, Primitive, Prop, Semigroup, TypedExpr, UriSegment,
};
use oal_compiler::scope::Scope;
use oal_compiler::tag::Tag;

fn var(name: &str) -> TypedExpr {
    TypedExpr { tag: None, expr: Expr::Var(name.to_string()) }
}

fn prim(p: Primitive) -> TypedExpr {
    TypedExpr { tag: Some(Tag::Primitive), expr: Expr::Prim(p) }
}

fn is_prim(e: &TypedExpr, p: Primitive) -> bool {
    matches!(&e.expr, Expr::Prim(q) if *q == p)
}

#[test]
fn resolve_replaces_references_by_their_declarations() {
    let mut env = Scope::new();
    env.insert("a".to_string(), prim(Primitive::Num));
    env.insert("b".to_string(), var("a"));
    let r = resolve(&env, &var("b")).ok().expect("resolution failed");
    assert!(is_prim(&r, Primitive::Num));
    assert_eq!(r.tag, Some(Tag::Primitive));
}

#[test]
fn resolve_reports_cycles() {
    let mut env = Scope::new();
    env.insert("a".to_string(), var("b"));
    env.insert("b".to_string(), var("a"));
    let e = resolve(&env, &var("a")).err().expect("expected an error");
    assert!(matches!(e.kind, Kind::CycleDetected));
    assert_eq!(e.msg, "cycle detected");
}

#[test]
fn resolve_reports_self_reference_on_the_path() {
    let env: Scope<TypedExpr> = Scope::new();
    let from = vec!["x".to_string()];
    let e = resolve_expr(&env, &from, &var("x")).err().expect("expected an error");
    assert!(matches!(e.kind, Kind::CycleDetected));
}

#[test]
fn resolve_reports_unknown_identifiers() {
    let env: Scope<TypedExpr> = Scope::new();
    let e = resolve(&env, &var("missing")).err().expect("expected an error");
    assert!(matches!(e.kind, Kind::NotInScope));
    assert_eq!(e.msg, "unknown identifier");
}

#[test]
fn resolve_composites_first_failure_decides() {
    let mut env = Scope::new();
    env.insert("n".to_string(), prim(Primitive::Str));
    env.insert("c".to_string(), var("c"));
    let sum = TypedExpr {
        tag: None,
        expr: Expr::Sum(vec![var("n"), var("unknown"), var("c")]),
    };
    let e = resolve(&env, &sum).err().expect("expected an error");
    assert!(matches!(e.kind, Kind::NotInScope));

    let join = TypedExpr { tag: None, expr: Expr::Join(vec![var("n"), prim(Primitive::Bool)]) };
    let r = resolve(&env, &join).ok().expect("resolution failed");
    match &r.expr {
        Expr::Join(parts) => {
            assert_eq!(parts.len(), 2);
            assert!(is_prim(&parts[0], Primitive::Str));
            assert!(is_prim(&parts[1], Primitive::Bool));
        }
        _ => panic!("expected a join"),
    }
}

#[test]
fn resolve_relations_uris_and_blocks() {
    let mut env = Scope::new();
    env.insert("id".to_string(), prim(Primitive::Int));
    let uri = TypedExpr {
        tag: None,
        expr: Expr::Uri(vec![
            UriSegment::Literal("users".to_string()),
            UriSegment::Template(Prop { key: "id".to_string(), val: var("id") }),
        ]),
    };
    let block = TypedExpr {
        tag: None,
        expr: Expr::Block(vec![Prop { key: "name".to_string(), val: var("id") }]),
    };
    let rel = TypedExpr {
        tag: Some(Tag::Relation),
        expr: Expr::Rel(Box::new(uri), vec![Method::Get, Method::Put], Box::new(block)),
    };
    let r = resolve(&env, &rel).ok().expect("resolution failed");
    assert_eq!(r.tag, Some(Tag::Relation));
    match &r.expr {
        Expr::Rel(u, m, b) => {
            assert_eq!(m, &vec![Method::Get, Method::Put]);
            match &u.expr {
                Expr::Uri(segs) => {
                    assert!(matches!(&segs[0], UriSegment::Literal(t) if t == "users"));
                    match &segs[1] {
                        UriSegment::Template(p) => {
                            assert_eq!(p.key, "id");
                            assert!(is_prim(&p.val, Primitive::Int));
                        }
                        _ => panic!("expected a template"),
                    }
                }
                _ => panic!("expected a URI"),
            }
            match &b.expr {
                Expr::Block(props) => assert!(is_prim(&props[0].val, Primitive::Int)),
                _ => panic!("expected a block"),
            }
        }
        _ => panic!("expected a relation"),
    }

    let bad = TypedExpr {
        tag: None,
        expr: Expr::Rel(Box::new(var("nowhere")), vec![], Box::new(var("id"))),
    };
    assert!(matches!(resolve(&env, &bad).err().unwrap().kind, Kind::NotInScope));
}

#[test]
fn combine_takes_the_other_expression() {
    let mut a = prim(Primitive::Num);
    a.combine(var("x"));
    assert!(matches!(&a.expr, Expr::Var(v) if v == "x"));
    assert_eq!(a.tag, None);
}
