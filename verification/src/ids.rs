//! Record identity: 128-bit identifiers, their textual form, and the clock.
//!
//! Inside the store an identifier is a plain `u128`.  The textual form used
//! at the API boundary is handled by the `uuid` crate behind the trusted
//! wrappers below; what those functions compute is named by uninterpreted
//! spec functions, so every contract above them is exact relative to those
//! names.

use vstd::prelude::*;

verus! {

/// What `uuid::Uuid::parse_str` accepts and yields, as a function of the
/// input characters: `Some(u)` when the text is a well-formed identifier
/// denoting `u`, `None` otherwise.
pub uninterp spec fn uuid_parse_spec(s: Seq<char>) -> Option<u128>;

/// The hyphenated textual form of an identifier, as produced by the `uuid`
/// crate's display formatting.
pub uninterp spec fn uuid_format_spec(u: u128) -> Seq<char>;

/// Relies on `uuid::Uuid::parse_str` (with `Uuid::as_u128`): parses text in
/// any of the crate's accepted formats; the result depends on the input
/// characters alone.
#[verifier::external_body]
pub fn parse_uuid(s: &str) -> (r: Option<u128>)
    ensures
        r == uuid_parse_spec(s@),
{
    match uuid::Uuid::parse_str(s) {
        Ok(u) => Some(u.as_u128()),
        Err(_) => None,
    }
}

/// Relies on `uuid::Uuid::from_u128` and the crate's `Display` formatting:
/// the hyphenated form is 36 characters and `parse_str` accepts it, giving
/// back the same identifier.
#[verifier::external_body]
pub fn format_uuid(u: u128) -> (r: String)
    ensures
        r@ == uuid_format_spec(u),
        r@.len() == 36,
        uuid_parse_spec(r@) == Some(u),
{
    format!("{}", uuid::Uuid::from_u128(u))
}

/// Relies on `uuid::Uuid::new_v4`: a randomly drawn identifier.  Nothing can
/// be promised of the value.
#[verifier::external_body]
pub fn fresh_uuid() -> u128 {
    uuid::Uuid::new_v4().as_u128()
}

/// Relies on `chrono::Utc::now` (with `DateTime::timestamp`): the current
/// time as whole seconds since the Unix epoch.  Nothing can be promised of
/// the value.
#[verifier::external_body]
pub fn now_timestamp() -> i64 {
    chrono::Utc::now().timestamp()
}

/// The current time clamped to the store's unsigned timestamp model; times
/// before the epoch are treated as the epoch itself.
pub fn now_seconds() -> u64 {
    let t = now_timestamp();
    if t < 0 {
        0
    } else {
        t as u64
    }
}

} // verus!
