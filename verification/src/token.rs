//! From the token of a record to the name of the user that it stands for.
//!
//! A token is the base64 form of `username:password`. Only the name is taken
//! from it; the password is looked at by nothing and kept nowhere.

use crate::text::{before_first, head_before};
use base64::prelude::BASE64_STANDARD;
use base64::Engine;
use vstd::prelude::*;
use vstd::string::*;
use vstd::utf8::*;

verus! {

/// What `base64::Engine::decode` gives for a token on the engine
/// `base64::prelude::BASE64_STANDARD`: the bytes that the token is the base64
/// form of, or nothing where the engine takes it for the form of none. The
/// engine is not described here; its result is only given this name.
pub uninterp spec fn standard_decoding(token: Seq<char>) -> Option<Seq<u8>>;

/// Makes `base64::DecodeError` known as a type. Nothing is read from a value
/// of it.
#[verifier::external_type_specification]
#[verifier::external_body]
pub struct ExDecodeError(base64::DecodeError);

/// Makes `core::str::Utf8Error` known as a type. Nothing is read from a
/// value of it.
#[verifier::external_type_specification]
#[verifier::external_body]
pub struct ExUtf8Error(core::str::Utf8Error);

/// Calls `base64::Engine::decode` on `base64::prelude::BASE64_STANDARD`.
///
/// Believed, not proved: what the call returns depends on the characters of
/// the token alone. It is what `standard_decoding` names: the bytes on
/// success, nothing on an error. No more is claimed of it.
#[verifier::external_body]
fn decode_standard(token: &str) -> (r: Result<Vec<u8>, base64::DecodeError>)
    ensures
        match r {
            Ok(bytes) => standard_decoding(token@) == Some(bytes@),
            Err(_) => standard_decoding(token@) is None,
        },
{
    BASE64_STANDARD.decode(token)
}

/// Calls `core::str::from_utf8`.
///
/// Believed, not proved: the call fails only on bytes that are not valid
/// UTF-8, and the text it returns on success is made of the very bytes it
/// was given.
#[verifier::external_body]
fn utf8_text(bytes: &[u8]) -> (r: Result<&str, core::str::Utf8Error>)
    ensures
        match r {
            Ok(text) => encode_utf8(text@) == bytes@,
            Err(_) => !valid_utf8(bytes@),
        },
{
    core::str::from_utf8(bytes)
}

/// Why a token gives no user name.
#[derive(Debug, Clone, Copy, PartialEq, Eq)]
pub enum DecodeFailure {
    /// The token is not the base64 form of anything.
    NotBase64,
    /// The bytes that the token encodes are not UTF-8 text.
    NotText,
    /// The text that the token encodes holds no `:`.
    NoSeparator,
}

/// The user name in the bytes that a token encodes: the text before the first
/// `:`, where the bytes are text and hold one.
pub open spec fn decoded_name(bytes: Seq<u8>) -> Result<Seq<char>, DecodeFailure> {
    if !valid_utf8(bytes) {
        Err(DecodeFailure::NotText)
    } else {
        match before_first(decode_utf8(bytes), ':') {
            Some(name) => Ok(name),
            None => Err(DecodeFailure::NoSeparator),
        }
    }
}

/// The user name that a token stands for, or why it stands for none.
pub open spec fn token_name(token: Seq<char>) -> Result<Seq<char>, DecodeFailure> {
    match standard_decoding(token) {
        Some(bytes) => decoded_name(bytes),
        None => Err(DecodeFailure::NotBase64),
    }
}

/// The user name that a token stands for, if it stands for one.
pub open spec fn token_username(token: Seq<char>) -> Option<Seq<char>> {
    match token_name(token) {
        Ok(name) => Some(name),
        Err(_) => None,
    }
}

/// The user name in the bytes that a token encodes.
pub fn name_in_decoded(bytes: &[u8]) -> (r: Result<String, DecodeFailure>)
    ensures
        match r {
            Ok(name) => decoded_name(bytes@) == Ok::<Seq<char>, DecodeFailure>(name@),
            Err(e) => decoded_name(bytes@) == Err::<Seq<char>, DecodeFailure>(e),
        },
{
    match utf8_text(bytes) {
        Ok(text) => {
            proof {
                encode_utf8_valid_utf8(text@);
                encode_utf8_decode_utf8(text@);
            }
            match head_before(text, ':') {
                Some(name) => Ok(name),
                None => Err(DecodeFailure::NoSeparator),
            }
        },
        Err(_) => Err(DecodeFailure::NotText),
    }
}

/// The user name that `token` stands for, or why it stands for none.
pub fn decode_username(token: &str) -> (r: Result<String, DecodeFailure>)
    ensures
        match r {
            Ok(name) => token_name(token@) == Ok::<Seq<char>, DecodeFailure>(name@),
            Err(e) => token_name(token@) == Err::<Seq<char>, DecodeFailure>(e),
        },
{
    match decode_standard(token) {
        Ok(bytes) => name_in_decoded(bytes.as_slice()),
        Err(_) => Err(DecodeFailure::NotBase64),
    }
}

/// The user name that `auth_b64` stands for. A token that stands for none
/// gives `None`; that is no error.
pub fn get_username_from_auth(auth_b64: &str) -> (r: Option<String>)
    ensures
        match r {
            Some(name) => token_username(auth_b64@) == Some(name@),
            None => token_username(auth_b64@) is None,
        },
{
    match decode_username(auth_b64) {
        Ok(name) => Some(name),
        Err(_) => None,
    }
}

} // verus!
