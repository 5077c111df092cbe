use vstd::prelude::*;

verus! {

/// What `uuid::Uuid::parse_str` denotes on a given string: `Some` of the
/// 128-bit value exactly when the string is one of the textual uuid forms.
/// The result depends on the characters alone.
pub uninterp spec fn uuid_of(s: Seq<char>) -> Option<u128>;

/// The canonical lowercase hyphenated rendering of a 128-bit id.
pub uninterp spec fn uuid_text(u: u128) -> Seq<char>;

/// Relies on `uuid::Uuid::parse_str` and `Uuid::as_u128`: `parse_str` accepts
/// the textual uuid forms and nothing else, and `as_u128` returns the 128-bit
/// value of the 16 bytes in big-endian order, so the result is a function of
/// the input string alone.
#[verifier::external_body]
pub fn parse_uuid(s: &str) -> (r: Option<u128>)
    ensures
        r == uuid_of(s@),
{
    match uuid::Uuid::parse_str(s) {
        Ok(u) => Some(u.as_u128()),
        Err(_) => None,
    }
}

/// Relies on `uuid::Uuid::from_u128` and the `Display` impl of `uuid::Uuid`:
/// the rendering is the 36-character lowercase hyphenated hex form (so it
/// holds no `|`), and `parse_str` reads that form back to the same value.
#[verifier::external_body]
pub fn format_uuid(u: u128) -> (r: String)
    ensures
        r@ == uuid_text(u),
        r@.len() == 36,
        forall|i: int| 0 <= i < r@.len() ==> r@[i] != '|',
        uuid_of(r@) == Some(u),
{
    uuid::Uuid::from_u128(u).to_string()
}

} // verus!
