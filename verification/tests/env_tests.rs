use oal_compiler::env::{Entry, Env as EntryEnv};
use oal_compiler::scope::Env;

#[test]
fn environment_scopes() {
    let mut e: Env<&str> = Env::new();
    let id = "a".to_owned();
    let bool_expr = "bool";
    let num_expr = "num";

    assert!(!e.is_declared(&id));

    e.declare(id.clone(), bool_expr);

    assert_eq!(e.head().len(), 1);
    assert!(e.is_declared(&id));
    assert_eq!(*e.lookup(&id).expect("lookup failed"), bool_expr);

    e.within(|e| {
        assert!(e.head().is_empty());
        assert!(!e.is_declared(&id));
        assert_eq!(*e.lookup(&id).expect("lookup failed"), bool_expr);

        e.declare(id.clone(), num_expr);

        assert_eq!(e.head().len(), 1);
        assert!(e.is_declared(&id));
        assert_eq!(*e.lookup(&id).expect("lookup failed"), num_expr);
    });

    assert!(e.is_declared(&id));
    assert_eq!(*e.lookup(&id).expect("lookup failed"), bool_expr);
}

#[test]
fn within_returns_the_result() {
    let mut e: Env<u32> = Env::new();
    e.declare("x".to_owned(), 1);
    let r = e.within(|e| {
        e.declare("y".to_owned(), 2);
        *e.lookup(&"x".to_owned()).unwrap() + *e.lookup(&"y".to_owned()).unwrap()
    });
    assert_eq!(r, 3);
    assert!(e.lookup(&"y".to_owned()).is_none());
}

#[test]
fn redeclaring_replaces() {
    let mut e: Env<u32> = Env::new();
    e.declare("x".to_owned(), 1);
    e.declare("x".to_owned(), 2);
    assert_eq!(e.head().len(), 1);
    assert_eq!(e.lookup(&"x".to_owned()), Some(&2));
}

#[test]
fn entry_environment_shadows_and_restores() {
    let mut env: EntryEnv<u32> = EntryEnv::new();
    let plain = Entry::from_ident("a".to_owned());
    let qualified = Entry::new("a".to_owned(), Some("m".to_owned()));
    assert_eq!(env.declare(Entry::from_ident("a".to_owned()), 1), None);
    assert_eq!(env.declare(Entry::new("a".to_owned(), Some("m".to_owned())), 2), None);
    assert_eq!(env.lookup(&plain), Some(&1));
    assert_eq!(env.lookup(&qualified), Some(&2));
    env.open();
    assert_eq!(env.lookup(&plain), Some(&1));
    assert_eq!(env.declare(Entry::from_ident("a".to_owned()), 3), None);
    assert_eq!(env.lookup(&plain), Some(&3));
    env.close();
    assert_eq!(env.lookup(&plain), Some(&1));
    assert_eq!(env.declare(Entry::from_ident("a".to_owned()), 4), Some(1));
    assert_eq!(env.lookup(&plain), Some(&4));
    assert!(env.lookup(&Entry::from_ident("b".to_owned())).is_none());
}
