//! Settlement metadata in the `X-PAYMENT-RESPONSE` header of a paid response.

use vstd::prelude::*;

use crate::base64::{decode, decoded, encoded, law_base64_round_trip};
use crate::text::{chars_of, text_view};

verus! {

/// The boolean that the JSON object in `json` has under `key`, if `json` is a
/// JSON object that has one.
pub uninterp spec fn json_bool(json: Seq<u8>, key: Seq<char>) -> Option<bool>;

/// The string that the JSON object in `json` has under `key`, if `json` is a
/// JSON object that has one.
pub uninterp spec fn json_text(json: Seq<u8>, key: Seq<char>) -> Option<Seq<char>>;

/// The boolean under `key`, if `json` is a JSON object that has one.
///
/// Calls `serde_json::from_slice` and, on the value, `get` and `as_bool`.
/// Claimed of them: the result depends on the bytes and the key alone.
#[verifier::external_body]
fn bool_member(json: &Vec<u8>, key: &str) -> (member: Option<bool>)
    ensures
        member == json_bool(json@, key@),
{
    let value: serde_json::Value = serde_json::from_slice(json).ok()?;
    value.get(key)?.as_bool()
}

/// The string under `key`, if `json` is a JSON object that has one.
///
/// Calls `serde_json::from_slice` and, on the value, `get` and `as_str`.
/// Claimed of them: the result depends on the bytes and the key alone.
#[verifier::external_body]
fn text_member(json: &Vec<u8>, key: &str) -> (member: Option<String>)
    ensures
        text_view(member) == json_text(json@, key@),
{
    let value: serde_json::Value = serde_json::from_slice(json).ok()?;
    value.get(key)?.as_str().map(|text| text.to_string())
}

/// The transaction signature that a payment response gives: of a settle response
/// that reports success its transaction, of another settle response none. A
/// header that is no settle response is the signature itself.
pub open spec fn signature_in(
    header: Seq<char>,
    success: Option<bool>,
    transaction: Option<Seq<char>>,
) -> Option<Seq<char>> {
    match success {
        Some(true) => transaction,
        Some(false) => None,
        None => Some(header),
    }
}

/// The transaction signature that a header gives: what stands in it is a settle
/// response if it is the base64 text of a JSON object that says whether it was a
/// success.
pub open spec fn header_signature(header: Seq<char>) -> Option<Seq<char>> {
    match decoded(header) {
        Some(json) => signature_in(
            header,
            json_bool(json, "success"@),
            json_text(json, "transaction"@),
        ),
        None => Some(header),
    }
}

/// The transaction signature in a header, given the two members of the settle
/// response that it holds.
pub fn settlement_signature(
    header: String,
    success: Option<bool>,
    transaction: Option<String>,
) -> (signature: Option<String>)
    ensures
        text_view(signature) == signature_in(header@, success, text_view(transaction)),
{
    match success {
        Some(settled) => if settled {
            transaction
        } else {
            None
        },
        None => Some(header),
    }
}

/// The transaction signature in an `X-PAYMENT-RESPONSE` header.
pub fn payment_signature(header: String) -> (signature: Option<String>)
    ensures
        text_view(signature) == header_signature(header@),
{
    match decode(&chars_of(header.as_str())) {
        Some(json) => {
            let success = bool_member(&json, "success");
            let transaction = text_member(&json, "transaction");
            settlement_signature(header, success, transaction)
        },
        None => Some(header),
    }
}

/// A settle response in a header gives its transaction where it reports success,
/// and else nothing; the header of JSON that is no settle response is itself what it
/// gives.
pub proof fn law_settle_response_is_read(json: Seq<u8>)
    ensures
        json_bool(json, "success"@) == Some(true) ==> header_signature(encoded(json)) == json_text(
            json,
            "transaction"@,
        ),
        json_bool(json, "success"@) == Some(false) ==> header_signature(encoded(json)) is None,
        json_bool(json, "success"@) is None ==> header_signature(encoded(json)) == Some(
            encoded(json),
        ),
{
    law_base64_round_trip(json);
}

/// A header that is no base64 text is itself what it gives.
pub proof fn law_other_header_stays(header: Seq<char>)
    requires
        forall|bytes: Seq<u8>| #[trigger] encoded(bytes) != header,
    ensures
        header_signature(header) == Some(header),
{
}

} // verus!
