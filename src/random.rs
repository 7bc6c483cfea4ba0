//! The random source: quickcheck's generator, and what this library relies
//! on of its drawing functions.
use vstd::prelude::*;

verus! {

/// quickcheck's random generator; opaque to the proofs, it is only passed
/// through to the drawing functions below.
#[verifier::external_type_specification]
#[verifier::external_body]
pub struct ExGen(quickcheck::Gen);

/// Relies on `quickcheck::Gen::choose`: `None` on an empty slice, otherwise
/// one element of the slice (picked uniformly at random).
#[verifier::external_body]
pub(crate) fn choose_byte(g: &mut quickcheck::Gen, alphabet: &[u8]) -> (r: Option<u8>)
    ensures
        (r is None) == (alphabet@.len() == 0),
        r matches Some(c) ==> alphabet@.contains(c),
{
    g.choose(alphabet).copied()
}

/// Relies on `<usize as quickcheck::Arbitrary>::arbitrary`: some `usize`,
/// nothing more is promised.
#[verifier::external_body]
pub(crate) fn arbitrary_usize(g: &mut quickcheck::Gen) -> (r: usize) {
    <usize as quickcheck::Arbitrary>::arbitrary(g)
}

} // verus!
