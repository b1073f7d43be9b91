//! Entity identifiers. An entity is identified by a 128-bit value (the
//! numeric value of a UUID); the uuid crate is used to parse, derive,
//! generate and print them.
use vstd::prelude::*;
use crate::text::hex_char;

verus! {

/// Identifier of an entity: the 128-bit numeric value of a UUID.
pub type EntityId = u128;

/// The identifier that `uuid::Uuid::parse_str` yields for the given text, if any.
pub uninterp spec fn spec_uuid_parse(text: Seq<char>) -> Option<u128>;

/// The identifier that `uuid::Uuid::new_v5(&Uuid::NAMESPACE_OID, name_bytes)`
/// yields for the UTF-8 bytes of the given text.
pub uninterp spec fn spec_uuid_v5_oid(name: Seq<char>) -> u128;

/// Sixteen to the power `n`.
pub open spec fn pow16(n: nat) -> int
    decreases n,
{
    if n == 0 {
        1
    } else {
        16 * pow16((n - 1) as nat)
    }
}

/// The `k`-th hexadecimal digit (0 to 31, most significant first) of an identifier.
pub open spec fn uuid_digit(id: u128, k: int) -> nat {
    ((id as int / pow16((31 - k) as nat)) % 16) as nat
}

/// The text that `uuid::Uuid`'s `Display` writes for an identifier: its 32
/// lowercase hexadecimal digits, most significant first, in groups of
/// 8-4-4-4-12 separated by hyphens.
pub open spec fn spec_uuid_text(id: u128) -> Seq<char> {
    Seq::new(
        36,
        |i: int|
            if i == 8 || i == 13 || i == 18 || i == 23 {
                '-'
            } else {
                hex_char(uuid_digit(id, if i < 8 {
                    i
                } else if i < 13 {
                    i - 1
                } else if i < 18 {
                    i - 2
                } else if i < 23 {
                    i - 3
                } else {
                    i - 4
                }))
            },
    )
}

/// Calls `uuid::Uuid::parse_str`; the contract claims only that the result is
/// a function of the text (named `spec_uuid_parse`), read as a 128-bit value.
#[verifier::external_body]
pub(crate) fn uuid_parse(text: &str) -> (r: Option<u128>)
    ensures
        r == spec_uuid_parse(text@),
{
    uuid::Uuid::parse_str(text).ok().map(|u| u.as_u128())
}

/// Calls `uuid::Uuid::new_v5` with the OID namespace on the bytes of `name`;
/// the contract claims that the result is a function of the text
/// (named `spec_uuid_v5_oid`).
#[verifier::external_body]
pub(crate) fn uuid_v5_oid(name: &str) -> (r: u128)
    ensures
        r == spec_uuid_v5_oid(name@),
{
    uuid::Uuid::new_v5(&uuid::Uuid::NAMESPACE_OID, name.as_bytes()).as_u128()
}

/// Calls `uuid::Uuid::new_v4`, a random identifier; nothing is claimed of it.
#[verifier::external_body]
pub(crate) fn uuid_new_v4() -> (r: u128) {
    uuid::Uuid::new_v4().as_u128()
}

/// Calls `to_string` on `uuid::Uuid::from_u128(id)`; the contract claims the
/// hyphenated lowercase hexadecimal text of [`spec_uuid_text`].
#[verifier::external_body]
pub(crate) fn uuid_text(id: u128) -> (r: String)
    ensures
        r@ == spec_uuid_text(id),
{
    uuid::Uuid::from_u128(id).to_string()
}

} // verus!
