use redlib::export::{
    decode_encoded_prefs, decode_reaches_past_table, encoded_restore, prefs_from_decoded,
    restore_location, RestoreError,
};

fn form_body(value: &str) -> Vec<u8> {
    url::form_urlencoded::Serializer::new(String::new())
        .append_pair("other", "x")
        .append_pair("encoded_prefs", value)
        .finish()
        .into_bytes()
}

#[test]
fn encoded_restore_decodes_the_base2048_field() {
    let encoded = base2048::encode(b"compressed preferences");
    assert_eq!(encoded_restore(&form_body(&encoded)), Ok(b"compressed preferences".to_vec()));
}

#[test]
fn encoded_restore_uses_the_first_field() {
    let first = base2048::encode(b"one");
    let second = base2048::encode(b"two");
    let body = url::form_urlencoded::Serializer::new(String::new())
        .append_pair("encoded_prefs", &first)
        .append_pair("encoded_prefs", &second)
        .finish();
    assert_eq!(encoded_restore(body.as_bytes()), Ok(b"one".to_vec()));
}

#[test]
fn encoded_restore_refuses_bodies_over_one_mebibyte() {
    let body = vec![b'a'; 1024 * 1024 + 1];
    assert_eq!(encoded_restore(&body), Err(RestoreError::BodyTooLarge));
    let body = vec![b'a'; 1024 * 1024];
    assert_eq!(encoded_restore(&body), Err(RestoreError::MissingEncodedPrefs));
}

#[test]
fn encoded_restore_reports_a_missing_field() {
    assert_eq!(encoded_restore(b"theme=dark"), Err(RestoreError::MissingEncodedPrefs));
}

#[test]
fn encoded_restore_reports_invalid_base2048() {
    assert_eq!(encoded_restore(&form_body("\u{0}")), Err(RestoreError::DecodeFailed));
}

#[test]
fn encoded_restore_reports_characters_past_the_table() {
    assert_eq!(encoded_restore(&form_body("\u{1F600}")), Err(RestoreError::UnsupportedCharacter));
    assert!(decode_reaches_past_table("\u{1F600}"));
    assert!(!decode_reaches_past_table("abc"));
}

#[test]
fn a_non_digit_before_a_character_past_the_table_is_a_decode_failure() {
    // `X` is not a base2048 digit, so decoding stops there with `None`.
    assert!(!decode_reaches_past_table("X\u{1F600}"));
    assert_eq!(encoded_restore(&form_body("X\u{1F600}")), Err(RestoreError::DecodeFailed));
}

#[test]
fn valid_digits_then_a_character_past_the_table_is_unsupported() {
    // Eleven bytes encode to eight digits with no tail character.
    let encoded = base2048::encode(b"hello world");
    assert_eq!(encoded.chars().count(), 8);
    let value = format!("{encoded}\u{1F600}");
    assert!(decode_reaches_past_table(&value));
    assert_eq!(encoded_restore(&form_body(&value)), Err(RestoreError::UnsupportedCharacter));
}

#[test]
fn decoding_an_empty_field_gives_no_bytes() {
    assert_eq!(decode_encoded_prefs(""), Ok(Vec::new()));
}

#[test]
fn decoded_results_map_to_outcomes() {
    assert_eq!(prefs_from_decoded(Some(vec![1, 2])), Ok(vec![1, 2]));
    assert_eq!(prefs_from_decoded(None), Err(RestoreError::DecodeFailed));
}

#[test]
fn error_messages_match_the_responses() {
    assert_eq!(RestoreError::BodyTooLarge.message(), "Request body too large");
    assert_eq!(
        RestoreError::MissingEncodedPrefs.message(),
        "encoded_prefs parameter not found in request body"
    );
    assert_eq!(RestoreError::DecodeFailed.message(), "Failed to decode base2048 encoded preferences");
}

#[test]
fn restore_location_appends_the_query() {
    assert_eq!(restore_location("theme=dark&wide=on"), "/settings/restore/?theme=dark&wide=on");
}
