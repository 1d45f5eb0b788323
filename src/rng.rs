//! Random ids and numbers.

use vstd::prelude::*;

use crate::text::push_char;

verus! {

pub open spec fn is_alphanumeric(c: char) -> bool {
    ('A' <= c && c <= 'Z') || ('a' <= c && c <= 'z') || ('0' <= c && c <= '9')
}

/// The number of characters of a generated id.
pub const ID_LEN: usize = 6;

/// Relies on rand's `Alphanumeric` distribution: every sample is one of the
/// ASCII letters and digits.
#[verifier::external_body]
fn random_alphanumeric() -> (c: char)
    ensures
        is_alphanumeric(c),
{
    char::from(rand::Rng::sample(&mut rand::thread_rng(), rand::distributions::Alphanumeric))
}

/// Relies on rand's `Rng::gen_range`: the value lies in the half-open range,
/// which must not be empty.
#[verifier::external_body]
fn random_below(end: usize) -> (r: usize)
    requires
        end > 0,
    ensures
        r < end,
{
    rand::Rng::gen_range(&mut rand::thread_rng(), 0..end)
}

/// A random id of `ID_LEN` ASCII letters and digits.
pub fn random_id() -> (r: String)
    ensures
        r@.len() == ID_LEN,
        forall|i: int| 0 <= i < r@.len() ==> is_alphanumeric(#[trigger] r@[i]),
{
    let mut r = String::new();
    let mut i: usize = 0;
    while i < ID_LEN
        invariant
            i <= ID_LEN,
            r@.len() == i,
            forall|j: int| 0 <= j < r@.len() ==> is_alphanumeric(#[trigger] r@[j]),
        decreases ID_LEN - i,
    {
        let c = random_alphanumeric();
        push_char(&mut r, c);
        i = i + 1;
    }
    r
}

/// A random number below `end`.
pub fn random_number(end: usize) -> (r: usize)
    requires
        end > 0,
    ensures
        r < end,
{
    random_below(end)
}

} // verus!
