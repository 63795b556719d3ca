use oal_compiler::codegen::{
    http_status_code, method_label, uri_segment_label, xfer_id, HttpStatus, HttpStatusRange,
    Method, StatusCode, UriSegment,
};

#[test]
fn method_labels() {
    assert_eq!(method_label(Method::Get), "get");
    assert_eq!(method_label(Method::Put), "put");
    assert_eq!(method_label(Method::Post), "post");
    assert_eq!(method_label(Method::Patch), "patch");
    assert_eq!(method_label(Method::Delete), "delete");
    assert_eq!(method_label(Method::Options), "options");
    assert_eq!(method_label(Method::Head), "head");
}

#[test]
fn segment_labels() {
    assert_eq!(uri_segment_label(&UriSegment::Literal(String::new())), "root");
    assert_eq!(uri_segment_label(&UriSegment::Literal("Users".to_owned())), "users");
    assert_eq!(uri_segment_label(&UriSegment::Variable("ID".to_owned())), "id");
}

#[test]
fn transfer_identifiers() {
    let path = vec![
        UriSegment::Literal("Users".to_owned()),
        UriSegment::Variable("Id".to_owned()),
    ];
    assert_eq!(xfer_id(&None, Method::Get, &path), Some("get-users-id".to_owned()));
    assert_eq!(
        xfer_id(&Some("custom".to_owned()), Method::Get, &path),
        Some("custom".to_owned())
    );
    assert_eq!(
        xfer_id(&None, Method::Delete, &vec![UriSegment::Literal(String::new())]),
        Some("delete-root".to_owned())
    );
    assert_eq!(xfer_id(&None, Method::Head, &vec![]), Some("head".to_owned()));
}

#[test]
fn status_codes() {
    assert_eq!(http_status_code(HttpStatus::Code(404)), StatusCode::Code(404));
    assert_eq!(http_status_code(HttpStatus::Range(HttpStatusRange::Info)), StatusCode::Range(1));
    assert_eq!(http_status_code(HttpStatus::Range(HttpStatusRange::Success)), StatusCode::Range(2));
    assert_eq!(http_status_code(HttpStatus::Range(HttpStatusRange::Redirect)), StatusCode::Range(3));
    assert_eq!(
        http_status_code(HttpStatus::Range(HttpStatusRange::ClientError)),
        StatusCode::Range(4)
    );
    assert_eq!(
        http_status_code(HttpStatus::Range(HttpStatusRange::ServerError)),
        StatusCode::Range(5)
    );
}
