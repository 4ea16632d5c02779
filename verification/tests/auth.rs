use mynotes::auth::{authenticate, authenticate_decoded};

fn users() -> Vec<(String, String)> {
    vec![
        ("user".to_string(), "pass:word".to_string()),
        ("other".to_string(), "secret".to_string()),
    ]
}

#[test]
fn basic_credentials_are_checked() {
    // "user:pass:word": the password is what follows the first colon
    assert_eq!(
        authenticate(Some("Basic dXNlcjpwYXNzOndvcmQ="), &users()),
        Some("user".to_string())
    );
    // "other:secret"
    assert_eq!(
        authenticate(Some("Basic b3RoZXI6c2VjcmV0"), &users()),
        Some("other".to_string())
    );
    // "other:wrong"
    assert_eq!(authenticate(Some("Basic b3RoZXI6d3Jvbmc="), &users()), None);
    // "nobody:secret"
    assert_eq!(authenticate(Some("Basic bm9ib2R5OnNlY3JldA=="), &users()), None);
}

#[test]
fn malformed_headers_are_refused() {
    assert_eq!(authenticate(None, &users()), None);
    // not basic
    assert_eq!(authenticate(Some("Bearer b3RoZXI6c2VjcmV0"), &users()), None);
    // not base64
    assert_eq!(authenticate(Some("Basic %%%"), &users()), None);
    // "usersecret": no colon
    assert_eq!(authenticate(Some("Basic dXNlcnNlY3JldA=="), &users()), None);
    // bytes 0xff 0xfe: not UTF-8
    assert_eq!(authenticate(Some("Basic //4="), &users()), None);
    // the raw text is not decoded twice
    assert_eq!(authenticate(Some("Basic other:secret"), &users()), None);
}

#[test]
fn decoded_credentials_are_checked() {
    assert_eq!(
        authenticate_decoded(Some(b"other:secret".to_vec()), &users()),
        Some("other".to_string())
    );
    assert_eq!(
        authenticate_decoded(Some(b"user:pass:word".to_vec()), &users()),
        Some("user".to_string())
    );
    assert_eq!(authenticate_decoded(Some(b"other:wrong".to_vec()), &users()), None);
    assert_eq!(authenticate_decoded(Some(b"othersecret".to_vec()), &users()), None);
    assert_eq!(authenticate_decoded(Some(vec![0xff, 0xfe]), &users()), None);
    assert_eq!(authenticate_decoded(None, &users()), None);
}
