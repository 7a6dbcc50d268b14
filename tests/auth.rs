use eventfold_db::auth::{bearer_token, AuthRejection};

#[test]
fn bearer_token_is_extracted() {
    assert_eq!(bearer_token(Some("Bearer abc.def.ghi")), Ok("abc.def.ghi"));
}

#[test]
fn bearer_prefix_alone_gives_empty_token() {
    assert_eq!(bearer_token(Some("Bearer ")), Ok(""));
}

#[test]
fn missing_header_is_rejected_as_missing() {
    let err = bearer_token(None).unwrap_err();
    assert_eq!(err, AuthRejection::MissingHeader);
    assert!(err.message().contains("missing"));
}

#[test]
fn raw_token_without_prefix_is_bad_format() {
    let err = bearer_token(Some("abc.def.ghi")).unwrap_err();
    assert_eq!(err, AuthRejection::BadFormat);
    assert!(err.message().contains("format"));
}

#[test]
fn prefix_is_case_sensitive() {
    assert_eq!(bearer_token(Some("bearer abc")), Err(AuthRejection::BadFormat));
    assert_eq!(bearer_token(Some("Bearer")), Err(AuthRejection::BadFormat));
    assert_eq!(bearer_token(Some("")), Err(AuthRejection::BadFormat));
}

#[test]
fn rejection_messages_are_exact() {
    assert_eq!(AuthRejection::MissingHeader.message(), "missing authorization header");
    assert_eq!(AuthRejection::BadFormat.message(), "invalid authorization header format");
}
