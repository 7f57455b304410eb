//! Reading the service account key as it is handed to the program: the
//! key's text, in URL-safe base64.

use vstd::prelude::*;
use vstd::string::StringSliceAdditionalSpecFns;

verus! {

/// The error of base64's `Engine::decode`. Nothing is read from it: the
/// library takes it for the one way in which reading a key can fail.
#[verifier::external_type_specification]
#[verifier::external_body]
pub struct ExDecodeError(base64::DecodeError);

/// Why a key could not be read.
#[derive(Clone, Copy, PartialEq, Eq, Debug, Structural)]
pub enum KeyError {
    /// The text is not URL-safe base64 with canonical padding.
    Encoding,
}

/// What base64's URL-safe engine with padding makes of `encoded`: the
/// bytes that it stands for, or nothing where the engine rejects it.
pub uninterp spec fn url_safe_decoded(encoded: Seq<u8>) -> Option<Seq<u8>>;

/// The text whose characters have the values of `bytes`, one for one.
pub open spec fn byte_text(bytes: Seq<u8>) -> Seq<char> {
    bytes.map_values(|b: u8| b as char)
}

/// Calls `Engine::decode` of the base64 crate on its `URL_SAFE` engine.
/// Nothing is proved of the engine: what it makes of an input goes by the
/// name `url_safe_decoded`, with the bytes where the engine accepts the
/// input and nothing where it returns an error.
#[verifier::external_body]
fn decode_url_safe(encoded: &[u8]) -> (decoded: Result<Vec<u8>, base64::DecodeError>)
    ensures
        url_safe_decoded(encoded@) == match decoded {
            Ok(bytes) => Some(bytes@),
            Err(_) => None,
        },
{
    base64::Engine::decode(&base64::engine::general_purpose::URL_SAFE, encoded)
}

/// `String::push` of std appends the character to the end of the string.
pub assume_specification[ String::push ](text: &mut String, ch: char)
    ensures
        final(text)@ == old(text)@.push(ch),
;

/// Reads decoded key bytes as text, each byte as the character of its
/// value.
pub fn key_text(decoded: &Vec<u8>) -> (text: String)
    ensures
        text@ == byte_text(decoded@),
{
    let mut text = String::new();
    let mut i: usize = 0;
    assert(text@ =~= byte_text(decoded@.take(0)));
    while i < decoded.len()
        invariant
            i <= decoded.len(),
            text@ == byte_text(decoded@.take(i as int)),
        decreases decoded.len() - i,
    {
        text.push(decoded[i] as char);
        assert(decoded@.take(i + 1) =~= decoded@.take(i as int).push(decoded@[i as int]));
        assert(text@ =~= byte_text(decoded@.take(i + 1)));
        i += 1;
    }
    assert(decoded@.take(decoded.len() as int) =~= decoded@);
    text
}

/// Reads a service account key from its URL-safe base64 form.
pub fn decode_key(encoded: &str) -> (key: Result<String, KeyError>)
    ensures
        match url_safe_decoded(encoded.spec_bytes()) {
            Some(bytes) => key matches Ok(text) && text@ == byte_text(bytes),
            None => key == Err::<String, KeyError>(KeyError::Encoding),
        },
{
    match decode_url_safe(encoded.as_bytes()) {
        Ok(bytes) => Ok(key_text(&bytes)),
        Err(_) => Err(KeyError::Encoding),
    }
}

} // verus!
