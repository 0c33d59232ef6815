use domino::form::{split_on, token_values};

#[test]
fn token_response_values() {
    let body = b"oauth_token=x&oauth_token_secret=y&oauth_callback_confirmed=true".to_vec();
    let v = token_values(&body).unwrap();
    assert_eq!(v, vec![b"x".to_vec(), b"y".to_vec(), b"true".to_vec()]);
}

#[test]
fn piece_without_equals_is_malformed() {
    assert!(token_values(&b"oauth_token".to_vec()).is_none());
    assert!(token_values(&b"a=1&b".to_vec()).is_none());
    assert!(token_values(&b"".to_vec()).is_none());
}

#[test]
fn value_is_the_field_between_the_first_and_second_equals() {
    let v = token_values(&b"a=b=c".to_vec()).unwrap();
    assert_eq!(v, vec![b"b".to_vec()]);
    let v2 = token_values(&b"a=".to_vec()).unwrap();
    assert_eq!(v2, vec![b"".to_vec()]);
}

#[test]
fn split_behaves_like_str_split() {
    assert_eq!(
        split_on(&b"a&b&&c".to_vec(), b'&'),
        vec![b"a".to_vec(), b"b".to_vec(), b"".to_vec(), b"c".to_vec()]
    );
    assert_eq!(split_on(&b"".to_vec(), b'&'), vec![b"".to_vec()]);
    assert_eq!(split_on(&b"&".to_vec(), b'&'), vec![b"".to_vec(), b"".to_vec()]);
}
