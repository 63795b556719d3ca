use oal_compiler::annotation::Annotation;
use oal_compiler::eval::{eval_primitive, PrimInteger, PrimitiveKind, PrimitiveSchema};

fn ann(text: &str) -> Annotation {
    Annotation::parse(text).ok().expect("annotation should parse")
}

#[test]
fn eval_primitive_integer_constraints() {
    let a = ann("minimum: -3, maximum: 10, multipleOf: 2, example: 4");
    let s = eval_primitive(PrimitiveKind::Int, &a);
    assert_eq!(
        s,
        PrimitiveSchema::Integer(PrimInteger {
            minimum: Some(-3),
            maximum: Some(10),
            multiple_of: Some(2),
            example: Some(4),
        })
    );
}

#[test]
fn eval_primitive_string_constraints() {
    let a = ann("pattern: '^a+$', enum: [x, y, 3], format: email, minLength: 1, maxLength: 9");
    match eval_primitive(PrimitiveKind::Str, &a) {
        PrimitiveSchema::String(p) => {
            assert_eq!(p.pattern.as_deref(), Some("^a+$"));
            assert_eq!(p.enumeration, vec!["x".to_string(), "y".to_string()]);
            assert_eq!(p.format.as_deref(), Some("email"));
            assert_eq!(p.example, None);
            assert_eq!(p.min_length, Some(1));
            assert_eq!(p.max_length, Some(9));
        }
        _ => panic!("expected a string schema"),
    }
}

#[test]
fn eval_primitive_ignores_values_of_other_types() {
    let a = ann("minimum: low, enum: none, minLength: -1");
    match eval_primitive(PrimitiveKind::Int, &a) {
        PrimitiveSchema::Integer(p) => assert_eq!(p.minimum, None),
        _ => panic!("expected an integer schema"),
    }
    match eval_primitive(PrimitiveKind::Str, &a) {
        PrimitiveSchema::String(p) => {
            assert!(p.enumeration.is_empty());
            assert_eq!(p.min_length, None);
        }
        _ => panic!("expected a string schema"),
    }
}

#[test]
fn eval_primitive_other_kinds() {
    let a = ann("example: 'http://example.com'");
    assert_eq!(eval_primitive(PrimitiveKind::Bool, &a), PrimitiveSchema::Boolean);
    assert_eq!(eval_primitive(PrimitiveKind::Num, &a), PrimitiveSchema::Number);
    assert_eq!(
        eval_primitive(PrimitiveKind::Uri, &a),
        PrimitiveSchema::Uri(Some("http://example.com".to_string()))
    );
}
