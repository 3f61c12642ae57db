//! The pseudorandom source and the draws made from it.
//!
//! One generator is handed by reference to whoever needs a random choice,
//! so that a run can be repeated from a fixed seed. The generator is the
//! `rand` crate's `StdRng`; nothing in this crate looks inside it, and
//! nothing is claimed of a draw beyond the range it falls in.
use rand::distributions::Alphanumeric;
use rand::distributions::Distribution;
use rand::distributions::Uniform;
use rand::rngs::StdRng;
use rand::Rng;
use vstd::prelude::*;

verus! {

/// `rand::rngs::StdRng`, carried through as an opaque value.
#[verifier::external_type_specification]
#[verifier::external_body]
pub struct ExStdRng(StdRng);

/// Lowest code of the printable range.
pub const PRINTABLE_LOW: u8 = 32;

/// Highest code of the printable range.
pub const PRINTABLE_HIGH: u8 = 126;

/// A character of the printable range, space to tilde.
pub open spec fn is_printable(c: char) -> bool {
    PRINTABLE_LOW <= c as u32 <= PRINTABLE_HIGH
}

/// An ASCII letter or digit.
pub open spec fn is_alphanumeric(c: char) -> bool {
    ||| 'a' <= c <= 'z'
    ||| 'A' <= c <= 'Z'
    ||| '0' <= c <= '9'
}

/// Every character of `s` is printable.
pub open spec fn all_printable(s: Seq<char>) -> bool {
    forall|i: int| 0 <= i < s.len() ==> is_printable(#[trigger] s[i])
}

/// Every character of `s` is an ASCII letter or digit.
pub open spec fn all_alphanumeric(s: Seq<char>) -> bool {
    forall|i: int| 0 <= i < s.len() ==> is_alphanumeric(#[trigger] s[i])
}

/// Samples `rand`'s `Uniform::new_inclusive(low, high)` once. That
/// distribution covers the closed range from `low` to `high` and its
/// constructor panics when `low > high`, which the precondition excludes.
/// All that is claimed of the draw is that it lies in the range.
#[verifier::external_body]
pub(crate) fn uniform_inclusive(rng: &mut StdRng, low: usize, high: usize) -> (r: usize)
    requires
        low <= high,
    ensures
        low <= r <= high,
{
    Uniform::new_inclusive(low, high).sample(rng)
}

/// `rand`'s `Rng::gen` at type `bool`: either value may come back.
#[verifier::external_body]
pub(crate) fn coin(rng: &mut StdRng) -> (b: bool) {
    rng.gen()
}

/// Samples `rand`'s `Alphanumeric` distribution once, which yields one of
/// the characters a-z, A-Z and 0-9.
#[verifier::external_body]
pub(crate) fn alphanumeric(rng: &mut StdRng) -> (c: char)
    ensures
        is_alphanumeric(c),
{
    rng.sample(Alphanumeric)
}

/// One character drawn from the printable range.
pub fn printable(rng: &mut StdRng) -> (c: char)
    ensures
        is_printable(c),
{
    let code: usize = uniform_inclusive(rng, PRINTABLE_LOW as usize, PRINTABLE_HIGH as usize);
    let byte: u8 = code as u8;
    byte as char
}

/// Letters and digits lie inside the printable range.
pub proof fn lemma_alphanumeric_is_printable(c: char)
    requires
        is_alphanumeric(c),
    ensures
        is_printable(c),
{
}

} // verus!
