use oal_compiler::errors::Kind;
use oal_compiler::tag::Tag;
use oal_compiler::typecheck::{
    check_array, check_content, check_declaration, check_object, check_operation,
    check_property, check_relation, check_resource, check_transfer, check_uri, type_check,
    Construct, ContentMeta, Operator,
};

fn message(r: Result<(), oal_compiler::errors::Error>) -> String {
    let e = r.err().expect("expected an error");
    assert!(matches!(e.kind, Kind::InvalidTypes));
    e.msg
}

fn prop(t: Tag) -> Tag {
    Tag::Property(Box::new(t))
}

#[test]
fn typecheck_ok() {
    // let a = { 'b [bool], 'c / } ~ num ~ uri;
    assert!(check_operation(Operator::Any, &vec![Tag::Object, Tag::Primitive, Tag::Primitive]).is_ok());
    // let a = / ( get -> str );
    assert!(check_transfer(None, &Tag::Primitive).is_ok());
    // let a = / ( get -> <{}> );
    assert!(check_transfer(None, &Tag::Content).is_ok());
    // let a = /a/{ 'id num }/b?{ 'c str };
    assert!(check_uri(&vec![None, Some(prop(Tag::Primitive)), None]).is_ok());
    // let a = patch, put { 'n num } : {} -> {};
    assert!(check_transfer(Some(&Tag::Object), &Tag::Object).is_ok());
    // let a = 'q str; let b = /path/{a};
    assert!(check_property(&Tag::Primitive).is_ok());
    // let a = <status=200, media="text/plain", headers={ 'h str }, str>;
    assert!(check_content(
        &vec![
            (ContentMeta::Status, Tag::Status),
            (ContentMeta::Media, Tag::Text),
            (ContentMeta::Headers, Tag::Object)
        ],
        Some(&Tag::Primitive)
    )
    .is_ok());
    // let @a = {};
    assert!(check_declaration(true, &Tag::Object).is_ok());
    // res /;
    assert!(check_resource(&Tag::Uri).is_ok());
    // res / ( delete -> <> );
    assert!(check_relation(&Tag::Uri, &vec![Tag::Transfer]).is_ok());
    assert!(check_resource(&Tag::Relation).is_ok());
    assert!(check_array(&Tag::Primitive).is_ok());
    assert!(check_object(&vec![prop(Tag::Primitive), prop(Tag::Array)]).is_ok());
}

#[test]
fn typecheck_error() {
    // let a = <> ~ {};
    assert_eq!(
        message(check_operation(Operator::Any, &vec![Tag::Content, Tag::Object])),
        "ill-formed alternative"
    );
    // let a = / ( num );
    assert_eq!(
        message(check_relation(&Tag::Uri, &vec![Tag::Primitive])),
        "ill-formed transfers"
    );
    // let a = / ( get -> ( get -> str ) );
    assert_eq!(message(check_transfer(None, &Tag::Transfer)), "ill-formed range");
    // let a = /wrong/{ 'n [num] };
    assert_eq!(message(check_uri(&vec![None, Some(prop(Tag::Array))])), "ill-formed uri");
    // let a = <status=num, {}>;
    assert!(check_content(&vec![(ContentMeta::Status, Tag::Number)], Some(&Tag::Object)).is_ok());
    // let a = <media=str, {}>;
    assert_eq!(
        message(check_content(&vec![(ContentMeta::Media, Tag::Primitive)], Some(&Tag::Object))),
        "ill-formed media"
    );
    // let a = <headers=str, {}>;
    assert_eq!(
        message(check_content(&vec![(ContentMeta::Headers, Tag::Text)], Some(&Tag::Object))),
        "ill-formed headers"
    );
    // let @a = 404;
    assert_eq!(message(check_declaration(true, &Tag::Status)), "ill-formed reference");
    // let a = uri ( get -> str );
    assert_eq!(
        message(check_relation(&Tag::Primitive, &vec![Tag::Transfer])),
        "ill-formed uri"
    );
    // res num;
    assert_eq!(message(check_resource(&Tag::Primitive)), "ill-formed resource");
}

#[test]
fn operation_rules() {
    assert!(check_operation(Operator::Join, &vec![Tag::Object, Tag::Object]).is_ok());
    assert_eq!(
        message(check_operation(Operator::Join, &vec![Tag::Object, Tag::Primitive])),
        "ill-formed join"
    );
    assert!(check_operation(Operator::Sum, &vec![Tag::Uri, Tag::Any]).is_ok());
    assert!(check_operation(Operator::Range, &vec![Tag::Content, Tag::Object]).is_ok());
    assert_eq!(
        message(check_operation(Operator::Range, &vec![Tag::Text])),
        "ill-formed ranges"
    );
    assert!(check_operation(Operator::Join, &vec![]).is_ok());
}

#[test]
fn content_checks_meta_before_body() {
    assert_eq!(
        message(check_content(
            &vec![(ContentMeta::Status, Tag::Text)],
            Some(&Tag::Text)
        )),
        "ill-formed status"
    );
    assert_eq!(message(check_content(&vec![], Some(&Tag::Text))), "ill-formed body");
    assert!(check_content(&vec![], None).is_ok());
}

#[test]
fn other_rules() {
    assert_eq!(message(check_transfer(Some(&Tag::Text), &Tag::Object)), "ill-formed domain");
    assert_eq!(message(check_array(&Tag::Content)), "ill-formed array");
    assert_eq!(message(check_property(&Tag::Text)), "ill-formed property");
    assert_eq!(message(check_object(&vec![prop(Tag::Primitive), Tag::Object])), "ill-formed object");
    assert!(check_declaration(false, &Tag::Status).is_ok());
}

#[test]
fn type_check_reports_first_error() {
    let program = vec![
        Construct::Array(Tag::Primitive),
        Construct::Resource(Tag::Text),
        Construct::Property(Tag::Text),
    ];
    assert_eq!(message(type_check(&program)), "ill-formed resource");
    let err = type_check(&program).err().expect("expected an error");
    assert_eq!(err.details.len(), 1);
    assert!(err.details[0].contains("Resource"));
    let good = vec![
        Construct::Operation(Operator::Join, vec![Tag::Object]),
        Construct::Uri(vec![None]),
        Construct::Declaration(false, Tag::Number),
    ];
    assert!(type_check(&good).is_ok());
    assert!(type_check(&vec![]).is_ok());
}
