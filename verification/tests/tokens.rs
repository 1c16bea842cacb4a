use base64::prelude::BASE64_STANDARD;
use base64::Engine;
use dockvault::token::{decode_username, get_username_from_auth, name_in_decoded, DecodeFailure};

#[test]
fn a_token_gives_the_name_before_the_colon() {
    assert_eq!(decode_username("YWxpY2U6cGFzcw=="), Ok("alice".to_string()));
    assert_eq!(decode_username("Ym9iOnNlY3JldA=="), Ok("bob".to_string()));
    assert_eq!(get_username_from_auth("YWxpY2U6cGFzcw=="), Some("alice".to_string()));
}

#[test]
fn only_the_first_colon_counts() {
    // a:b:c
    assert_eq!(decode_username("YTpiOmM="), Ok("a".to_string()));
}

#[test]
fn an_empty_name_is_a_name() {
    // :nopass
    assert_eq!(decode_username("Om5vcGFzcw=="), Ok(String::new()));
}

#[test]
fn a_name_may_hold_any_text() {
    // zoé:pw
    assert_eq!(decode_username("em/DqTpwdw=="), Ok("zoé".to_string()));
}

#[test]
fn a_token_that_is_not_base64_fails() {
    assert_eq!(decode_username("not base64!"), Err(DecodeFailure::NotBase64));
    assert_eq!(decode_username("alice:pass"), Err(DecodeFailure::NotBase64));
    // Padding is required.
    assert_eq!(decode_username("YWxpY2U6cGFzcw"), Err(DecodeFailure::NotBase64));
    assert_eq!(get_username_from_auth("not base64!"), None);
}

#[test]
fn bytes_that_are_not_text_fail() {
    // 0xff ':' 'x'
    assert_eq!(decode_username("/zp4"), Err(DecodeFailure::NotText));
    assert_eq!(get_username_from_auth("/zp4"), None);
}

#[test]
fn text_without_colon_fails() {
    // alice
    assert_eq!(decode_username("YWxpY2U="), Err(DecodeFailure::NoSeparator));
    assert_eq!(decode_username(""), Err(DecodeFailure::NoSeparator));
    assert_eq!(get_username_from_auth("YWxpY2U="), None);
}

#[test]
fn name_in_decoded_reads_bytes() {
    assert_eq!(name_in_decoded(b"alice:pass"), Ok("alice".to_string()));
    assert_eq!(name_in_decoded("zoé:pw".as_bytes()), Ok("zoé".to_string()));
    assert_eq!(name_in_decoded(b"alice"), Err(DecodeFailure::NoSeparator));
    assert_eq!(name_in_decoded(b""), Err(DecodeFailure::NoSeparator));
    assert_eq!(name_in_decoded(&[0xff, b':', b'x']), Err(DecodeFailure::NotText));
    // A truncated two-byte character.
    assert_eq!(name_in_decoded(&[b'a', b':', 0xc3]), Err(DecodeFailure::NotText));
}

#[test]
fn decoding_undoes_encoding() {
    for (name, password) in [("alice", "pass"), ("bob", ""), ("", "x"), ("zoé", "pä:ss"), ("a b", "c")] {
        let token = BASE64_STANDARD.encode(format!("{}:{}", name, password));
        assert_eq!(decode_username(&token), Ok(name.to_string()));
    }
}
