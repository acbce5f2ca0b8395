//! Random names for orders and for reply channels.

use rand::distributions::Alphanumeric;
use rand::{thread_rng, Rng};
use vstd::prelude::*;
use vstd::string::StringExecFns;

verus! {

/// Number of characters in an order id.
pub const ORDER_ID_LENGTH: usize = 30;

/// Number of characters in each half of a reply channel's name.
pub const CLIENT_ID_HALF: usize = 13;

/// Whether the character is an ASCII letter or digit.
pub open spec fn is_alphanumeric(c: char) -> bool {
    ('a' <= c && c <= 'z') || ('A' <= c && c <= 'Z') || ('0' <= c && c <= '9')
}

/// Whether the text is made of `len` ASCII letters and digits.
pub open spec fn is_random_name(text: Seq<char>, len: nat) -> bool {
    text.len() == len && forall|i: int| 0 <= i < text.len() ==> is_alphanumeric(#[trigger] text[i])
}

/// The first `len` samples that `Rng::sample_iter` draws from
/// `Alphanumeric` with the generator of `thread_rng`, collected as
/// characters. Each sample is one of the 62 ASCII letters and digits; which
/// ones come is left open.
#[verifier::external_body]
fn random_alphanumeric(len: usize) -> (text: String)
    ensures
        is_random_name(text@, len as nat),
{
    thread_rng().sample_iter(&Alphanumeric).take(len).map(char::from).collect::<String>()
}

/// A fresh order id: thirty random letters and digits.
pub fn random_order_id() -> (id: String)
    ensures
        is_random_name(id@, ORDER_ID_LENGTH as nat),
{
    random_alphanumeric(ORDER_ID_LENGTH)
}

/// A fresh name for a reply channel: two runs of thirteen random letters
/// and digits.
pub fn get_random_client_id() -> (id: String)
    ensures
        is_random_name(id@, (2 * CLIENT_ID_HALF) as nat),
{
    let first_part = random_alphanumeric(CLIENT_ID_HALF);
    let second_part = random_alphanumeric(CLIENT_ID_HALF);
    first_part.concat(second_part.as_str())
}

} // verus!
