use oal_compiler::annotation::{compose_annotations, value_eq, Annotation, YamlNumber, YamlValue};

fn text(s: &str) -> YamlValue {
    YamlValue::String(s.to_owned())
}

fn num(n: u64) -> YamlValue {
    YamlValue::Number(YamlNumber::PosInt(n))
}

fn map(entries: Vec<(&str, YamlValue)>) -> YamlValue {
    YamlValue::Mapping(entries.into_iter().map(|(k, v)| (text(k), v)).collect())
}

fn ann(entries: Vec<(&str, YamlValue)>) -> Annotation {
    Annotation {
        props: entries.into_iter().map(|(k, v)| (text(k), v)).collect(),
    }
}

#[test]
fn test_deep_extend() {
    let mut m1 = Annotation::parse(r#"a: { x: 0 }, b: 1, c: [1]"#).ok().unwrap();
    let m2 = Annotation::parse(r#"a: { y: 0 }, b: 2, c: [2]"#).ok().unwrap();
    let exp = Annotation::parse(r#"a: { x: 0, y: 0 }, b: 2, c: [1,2]"#).ok().unwrap();

    m1.extend(m2);

    assert_eq!(m1, exp);
}

#[test]
fn deep_extend_by_hand() {
    let mut m1 = ann(vec![
        ("a", map(vec![("x", num(0))])),
        ("b", num(1)),
        ("c", YamlValue::Sequence(vec![num(1)])),
    ]);
    let m2 = ann(vec![
        ("a", map(vec![("y", num(0))])),
        ("b", num(2)),
        ("c", YamlValue::Sequence(vec![num(2)])),
    ]);
    let exp = ann(vec![
        ("a", map(vec![("x", num(0)), ("y", num(0))])),
        ("b", num(2)),
        ("c", YamlValue::Sequence(vec![num(1), num(2)])),
    ]);
    m1.extend(m2);
    assert_eq!(m1, exp);
}

#[test]
fn parse_annotation_text() {
    let a = Annotation::parse(r#"description: "some text", required: true, minimum: -2, tag: !x y"#)
        .ok()
        .expect("expected an annotation");
    assert_eq!(a.get_str("description"), Some("some text"));
    assert_eq!(a.get_bool("required"), Some(true));
    assert_eq!(a.get_int("minimum"), Some(-2));
    assert_eq!(a.get_str("tag"), Some("y"));
    let err = Annotation::parse("a: [").err().expect("expected an error");
    assert!(matches!(err.kind, oal_compiler::errors::Kind::Yaml(_)));
}

#[test]
fn extend_appends_unknown_keys() {
    let mut a = ann(vec![("title", text("first"))]);
    a.extend(ann(vec![("description", text("second"))]));
    assert_eq!(
        a,
        ann(vec![("title", text("first")), ("description", text("second"))])
    );
}

#[test]
fn getters_read_typed_values() {
    let a = ann(vec![
        ("description", text("some description")),
        ("required", YamlValue::Bool(true)),
        ("minimum", YamlValue::Number(YamlNumber::NegInt(-3))),
        ("big", num(u64::MAX)),
        ("enum", YamlValue::Sequence(vec![text("a"), num(1), text("b")])),
        (
            "examples",
            map(vec![("one", text("1")), ("two", num(2)), ("three", text("3"))]),
        ),
    ]);
    assert_eq!(a.get_str("description"), Some("some description"));
    assert_eq!(a.get_string("description"), Some("some description".to_owned()));
    assert_eq!(a.get_str("required"), None);
    assert_eq!(a.get_bool("required"), Some(true));
    assert_eq!(a.get_bool("description"), None);
    assert_eq!(a.get_int("minimum"), Some(-3));
    assert_eq!(a.get_int("big"), None);
    assert_eq!(a.get_int("missing"), None);
    assert_eq!(
        a.get_enum("enum"),
        Some(vec!["a".to_owned(), "b".to_owned()])
    );
    assert_eq!(a.get_enum("description"), None);
    assert_eq!(
        a.get_props("examples"),
        Some(vec![
            ("one".to_owned(), "1".to_owned()),
            ("three".to_owned(), "3".to_owned())
        ])
    );
    assert_eq!(a.get_props("enum"), None);
}

#[test]
fn getters_see_through_tags() {
    let a = ann(vec![(
        "title",
        YamlValue::Tagged("t".to_owned(), Box::new(text("tagged"))),
    )]);
    assert_eq!(a.get_str("title"), Some("tagged"));
}

#[test]
fn props_later_entry_wins() {
    let examples = YamlValue::Mapping(vec![
        (text("k"), text("first")),
        (
            YamlValue::Tagged("t".to_owned(), Box::new(text("k"))),
            text("second"),
        ),
    ]);
    let a = ann(vec![("examples", examples)]);
    assert_eq!(
        a.get_props("examples"),
        Some(vec![("k".to_owned(), "second".to_owned())])
    );
}

#[test]
fn compose_in_order() {
    assert_eq!(compose_annotations(vec![]), None);
    let composed = compose_annotations(vec![
        ann(vec![("title", text("a")), ("tags", YamlValue::Sequence(vec![text("x")]))]),
        ann(vec![("title", text("b"))]),
        ann(vec![("tags", YamlValue::Sequence(vec![text("y")]))]),
    ])
    .expect("expected an annotation");
    assert_eq!(
        composed,
        ann(vec![
            ("title", text("b")),
            ("tags", YamlValue::Sequence(vec![text("x"), text("y")]))
        ])
    );
}

#[test]
fn default_annotation_is_empty() {
    let a = Annotation::default();
    assert!(a.props.is_empty());
    assert_eq!(a.get_str("anything"), None);
}

#[test]
fn value_eq_follows_yaml_equality() {
    let float = |f: f64| YamlValue::Number(YamlNumber::Float(f.to_bits()));
    assert!(value_eq(&float(0.0), &float(-0.0)));
    assert!(value_eq(&float(f64::NAN), &float(-f64::NAN)));
    assert!(!value_eq(&float(1.0), &float(f64::NAN)));
    assert!(!value_eq(&float(1.5), &float(2.5)));
    let a = Annotation::parse("m: { x: 1, y: 2 }").ok().unwrap();
    let b = Annotation::parse("m: { y: 2, x: 1 }").ok().unwrap();
    let c = Annotation::parse("m: { y: 2, x: 3 }").ok().unwrap();
    let m = |ann: &Annotation| ann.props[0].1.duplicate();
    assert!(value_eq(&m(&a), &m(&b)));
    assert!(!value_eq(&m(&a), &m(&c)));
    let s = |t: &str| YamlValue::String(t.to_string());
    let tagged = |t: &str| YamlValue::Tagged(t.to_string(), Box::new(s("v")));
    assert!(value_eq(&tagged(""), &tagged("!")));
    assert!(!value_eq(&tagged("a"), &tagged("b")));
}

#[test]
fn extend_finds_keys_in_any_order() {
    let key = |first: (&str, u64), second: (&str, u64)| {
        YamlValue::Mapping(vec![(text(first.0), num(first.1)), (text(second.0), num(second.1))])
    };
    let mut a = Annotation { props: vec![(key(("x", 1), ("y", 2)), YamlValue::Sequence(vec![num(1)]))] };
    let b = Annotation { props: vec![(key(("y", 2), ("x", 1)), YamlValue::Sequence(vec![num(2)]))] };
    a.extend(b);
    assert_eq!(a.props.len(), 1);
    assert_eq!(a.props[0].1, YamlValue::Sequence(vec![num(1), num(2)]));
}
