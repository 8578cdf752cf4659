//! Identifier material: random alphanumeric strings, short ones for object
//! ids and longer ones for delete keys.

use vstd::prelude::*;
use rand::Rng;

verus! {

/// Length of an object identifier.
pub const ID_LENGTH: usize = 5;

/// Length of a minted delete key.
pub const DELETE_KEY_LENGTH: usize = 16;

/// An ASCII letter or digit: the alphabet identifiers and keys are drawn from.
pub open spec fn is_alphanumeric_char(ch: char) -> bool {
    ('a' <= ch && ch <= 'z') || ('A' <= ch && ch <= 'Z') || ('0' <= ch && ch <= '9')
}

/// Every character of `s` is an ASCII letter or digit.
pub open spec fn all_alphanumeric(s: Seq<char>) -> bool {
    forall|i: int| 0 <= i < s.len() ==> is_alphanumeric_char(#[trigger] s[i])
}

/// Relies on rand's `Alphanumeric` distribution: each sample is an ASCII
/// letter or digit, so `len` samples collect into a string of `len` such
/// characters. Nothing further is assumed of a random result.
#[verifier::external_body]
fn random_alphanumeric(len: usize) -> (r: String)
    ensures
        r@.len() == len,
        all_alphanumeric(r@),
{
    rand::thread_rng().sample_iter(&rand::distributions::Alphanumeric).take(len).map(
        char::from,
    ).collect()
}

/// Draws one candidate object identifier: [`ID_LENGTH`] random alphanumeric
/// characters, not yet checked against the store.
pub fn random_id_candidate() -> (r: String)
    ensures
        r@.len() == ID_LENGTH as int,
        all_alphanumeric(r@),
{
    random_alphanumeric(ID_LENGTH)
}

/// Mints a delete key: [`DELETE_KEY_LENGTH`] random alphanumeric characters.
/// Keys need unpredictability, not uniqueness, so no store probe is made.
pub fn mint_delete_key() -> (r: String)
    ensures
        r@.len() == DELETE_KEY_LENGTH as int,
        all_alphanumeric(r@),
{
    random_alphanumeric(DELETE_KEY_LENGTH)
}

/// The id alphabet holds no dot, so an id drawn from it survives
/// path-extension stripping whole.
pub proof fn lemma_alphanumeric_has_no_dot(s: Seq<char>)
    requires
        all_alphanumeric(s),
    ensures
        forall|i: int| 0 <= i < s.len() ==> s[i] != '.',
{
    assert forall|i: int| 0 <= i < s.len() implies s[i] != '.' by {
        assert(is_alphanumeric_char(s[i]));
    }
}

} // verus!
