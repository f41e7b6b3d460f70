//! Textual account encoding: a base-58 check encoding whose 35 decoded
//! bytes carry a 1-byte prefix, the 32-byte raw account identifier, and
//! 2 trailing checksum bytes. Only the middle 32 bytes are kept;
//! malformed text is reported, never a fault.

use vstd::prelude::*;

use crate::account::AccountId;

verus! {

/// What bs58 decodes the text to, if it is valid base-58.
pub uninterp spec fn b58_decode_of(s: Seq<char>) -> Option<Seq<u8>>;

/// Relies on bs58::decode(..).into_vec(): the decoded bytes are a
/// function of the input text alone, and invalid text yields an error
/// value rather than bytes.
#[verifier::external_body]
fn b58_decode(s: &str) -> (r: Option<Vec<u8>>)
    ensures
        r is Some <==> b58_decode_of(s@) is Some,
        r is Some ==> r->0@ == b58_decode_of(s@)->0,
{
    match bs58::decode(s).into_vec() {
        Ok(v) => Some(v),
        Err(_) => None,
    }
}

/// The account identifier a text names: present exactly when the text
/// decodes to 35 bytes, of which bytes 1 through 32 are the identifier.
pub open spec fn account_of_text(s: Seq<char>) -> Option<Seq<u8>> {
    match b58_decode_of(s) {
        Option::Some(b) => if b.len() == 35 {
            Option::Some(b.subrange(1, 33))
        } else {
            Option::None
        },
        Option::None => Option::None,
    }
}

/// Decodes an account identifier from its check-encoded text.
pub fn account_from_text(s: &str) -> (r: Option<AccountId>)
    ensures
        r is Some <==> account_of_text(s@) is Some,
        r is Some ==> r->0@ == account_of_text(s@)->0,
{
    let bytes = match b58_decode(s) {
        Option::Some(b) => b,
        Option::None => {
            return None;
        },
    };
    if bytes.len() != 35 {
        return None;
    }
    let mut arr: [u8; 32] = [0u8; 32];
    let mut i: usize = 0;
    while i < 32
        invariant
            0 <= i <= 32,
            bytes@.len() == 35,
            bytes@ == b58_decode_of(s@)->0,
            forall|j: int| 0 <= j < i ==> arr@[j] == bytes@[j + 1],
        decreases 32 - i,
    {
        arr[i] = bytes[i + 1];
        i = i + 1;
    }
    proof {
        assert(arr@ =~= b58_decode_of(s@)->0.subrange(1, 33));
    }
    Some(AccountId::from_bytes(arr))
}

} // verus!
