//! Entry identities: 128-bit values written as RFC 4122 strings by `uuid`.

use crate::order::Ordered;
use vstd::prelude::*;

verus! {

/// The identity of an entry. It never changes and is never reused.
#[derive(Clone, Copy, Debug, PartialEq, Eq, PartialOrd, Ord, Hash, Structural)]
pub struct Identity {
    /// The 128 bits, most significant byte first.
    pub value: u128,
}

impl Identity {
    /// `self` orders strictly before `other`.
    pub open spec fn precedes(self, other: Identity) -> bool {
        self.value < other.value
    }

    pub fn new(value: u128) -> (id: Identity)
        ensures
            id.value == value,
    {
        Identity { value }
    }

}

impl View for Identity {
    type V = Identity;

    open spec fn view(&self) -> Identity {
        *self
    }
}

impl Ordered for Identity {
    open spec fn below(a: Identity, b: Identity) -> bool {
        a.precedes(b)
    }

    fn before(&self, other: &Self) -> (r: bool) {
        self.value < other.value
    }

    proof fn lemma_irreflexive(a: Identity) {
    }

    proof fn lemma_transitive(a: Identity, b: Identity, c: Identity) {
    }

    proof fn lemma_total(a: Identity, b: Identity) {
    }
}

/// The text `uuid` writes for the identity `value`: 32 lower-case hexadecimal
/// digits in five groups separated by hyphens.
pub uninterp spec fn identity_text(value: u128) -> Seq<char>;

/// The identity that `uuid` reads from `text`, or `None` where it rejects the
/// text.
pub uninterp spec fn text_identity(text: Seq<char>) -> Option<u128>;

/// Calls `uuid::Uuid::from_u128` and `to_string` on the result. The contract
/// names the result, the text `identity_text` stands for, and says of it that
/// it is 36 characters long, as the hyphenated form always is.
#[verifier::external_body]
pub(crate) fn format_identity(id: &Identity) -> (r: String)
    ensures
        r@ == identity_text(id.value),
        r@.len() == 36,
{
    uuid::Uuid::from_u128(id.value).to_string()
}

/// Calls `uuid::Uuid::parse_str`. The contract only names the result: the
/// 128 bits of the identity read are `text_identity`, and `None` exactly
/// where the parse fails.
#[verifier::external_body]
pub(crate) fn parse_identity(text: &str) -> (r: Option<Identity>)
    ensures
        match r {
            Some(id) => text_identity(text@) == Some(id.value),
            None => text_identity(text@) is None,
        },
{
    match uuid::Uuid::parse_str(text) {
        Ok(u) => Some(Identity { value: u.as_u128() }),
        Err(_) => None,
    }
}

} // verus!
