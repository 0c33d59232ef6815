use domino::numeral::i64_to_dec;
use domino::signer::{
    build_request_header, build_signature_base_string, create_oauth_signature,
    get_request_header, sign, ParamList,
};

fn fixture_params() -> ParamList {
    let mut params = ParamList::new();
    params.insert("oauth_consumer_key", "ck");
    params.insert("oauth_nonce", "abc123");
    params.insert("oauth_signature_method", "HMAC-SHA1");
    params.insert("oauth_timestamp", "137131200");
    params.insert("oauth_version", "1.0");
    params.insert("oauth_callback", "https://cb.example/");
    params
}

#[test]
fn base_string_matches_fixture() {
    let (key, base) = build_signature_base_string(
        "POST",
        "https://example.com/request",
        "cs",
        "",
        &fixture_params(),
    );
    assert_eq!(key, b"cs&".to_vec());
    let expected = "POST&https%3A%2F%2Fexample.com%2Frequest&oauth_callback%3Dhttps%253A%252F%252Fcb.example%252F%26oauth_consumer_key%3Dck%26oauth_nonce%3Dabc123%26oauth_signature_method%3DHMAC-SHA1%26oauth_timestamp%3D137131200%26oauth_version%3D1.0";
    assert_eq!(base, expected.as_bytes().to_vec());
}

#[test]
fn known_answer_signature() {
    let sig = create_oauth_signature(
        "POST",
        "https://example.com/request",
        "cs",
        "",
        &fixture_params(),
    );
    assert_eq!(sig, "ZY0Oegi1wR97+iJ6j4G3/wIRGI8=");
}

#[test]
fn signing_key_encodes_both_secrets() {
    let (key, _) = build_signature_base_string(
        "POST",
        "https://example.com/request",
        "c s",
        "t/s",
        &fixture_params(),
    );
    assert_eq!(key, b"c%20s&t%2Fs".to_vec());
}

#[test]
fn signature_is_deterministic() {
    let a = create_oauth_signature(
        "POST",
        "https://example.com/request",
        "cs",
        "",
        &fixture_params(),
    );
    let b = create_oauth_signature(
        "POST",
        "https://example.com/request",
        "cs",
        "",
        &fixture_params(),
    );
    assert_eq!(a, b);
    let (k1, d1) = build_signature_base_string("POST", "https://e/", "cs", "ts", &fixture_params());
    let (k2, d2) = build_signature_base_string("POST", "https://e/", "cs", "ts", &fixture_params());
    assert_eq!(k1, k2);
    assert_eq!(d1, d2);
    assert_eq!(sign(&k1, &d1), sign(&k2, &d2));
}

#[test]
fn header_matches_fixture() {
    let header = build_request_header(
        "https://example.com/request",
        "ck",
        "cs",
        "https://cb.example/",
        137131200,
    );
    let expected = "OAuth oauth_nonce=\"nonce137131200\", oauth_callback=\"https%3A%2F%2Fcb.example%2F\", oauth_signature_method=\"HMAC-SHA1\", oauth_timestamp=\"137131200\", oauth_consumer_key=\"ck\", oauth_signature=\"I00XS6yJy5k5fGvhBX4oEd0WX0g%3D\", oauth_version=\"1.0\"";
    assert_eq!(header, expected);
}

#[test]
fn distinct_timestamps_give_distinct_headers() {
    let h1 = build_request_header("https://e/", "ck", "cs", "https://cb/", 100);
    let h2 = build_request_header("https://e/", "ck", "cs", "https://cb/", 101);
    assert_ne!(h1, h2);
    assert!(h1.contains("oauth_nonce=\"nonce100\""));
    assert!(h2.contains("oauth_nonce=\"nonce101\""));
    assert!(h1.contains("oauth_timestamp=\"100\""));
    assert!(h2.contains("oauth_timestamp=\"101\""));
}

#[test]
fn header_from_the_clock_is_well_formed() {
    let h = get_request_header("https://e/", "ck", "cs", "https://cb/");
    assert!(h.starts_with("OAuth oauth_nonce=\"nonce"));
    assert!(h.ends_with("oauth_version=\"1.0\""));
}

#[test]
fn decimal_rendering() {
    assert_eq!(i64_to_dec(0), b"0".to_vec());
    assert_eq!(i64_to_dec(137131200), b"137131200".to_vec());
    assert_eq!(i64_to_dec(-5), b"-5".to_vec());
    assert_eq!(i64_to_dec(10), b"10".to_vec());
    assert_eq!(i64_to_dec(i64::MIN), b"-9223372036854775808".to_vec());
    assert_eq!(i64_to_dec(i64::MAX), b"9223372036854775807".to_vec());
}

#[test]
fn insertion_order_does_not_change_the_signature() {
    let mut reversed = ParamList::new();
    reversed.insert("oauth_callback", "https://cb.example/");
    reversed.insert("oauth_version", "1.0");
    reversed.insert("oauth_timestamp", "137131200");
    reversed.insert("oauth_signature_method", "HMAC-SHA1");
    reversed.insert("oauth_nonce", "abc123");
    reversed.insert("oauth_consumer_key", "ck");
    let a = create_oauth_signature("POST", "https://example.com/request", "cs", "", &reversed);
    let b = create_oauth_signature(
        "POST",
        "https://example.com/request",
        "cs",
        "",
        &fixture_params(),
    );
    assert_eq!(a, b);
}

#[test]
fn signature_changes_with_the_secret() {
    let a = create_oauth_signature("POST", "https://e/", "cs1", "", &fixture_params());
    let b = create_oauth_signature("POST", "https://e/", "cs2", "", &fixture_params());
    assert_ne!(a, b);
}

#[test]
fn rfc2202_hmac_vector_through_sign() {
    // HMAC-SHA1 with key "Jefe" over "what do ya want for nothing?"
    // has digest effcdf6ae5eb2fa2d27416d5f184df9c259a7c79.
    let sig = sign(
        &b"Jefe".to_vec(),
        &b"what do ya want for nothing?".to_vec(),
    );
    assert_eq!(sig, "7/zfauXrL6LSdBbV8YTfnCWafHk=");
}
