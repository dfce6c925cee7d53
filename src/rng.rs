use vstd::prelude::*;
use rand::rngs::StdRng;
use rand::seq::SliceRandom;
use rand::Rng;

verus! {

/// Declares `rand::rngs::StdRng`, the random source that the library's random
/// choices draw from; its state is opaque.
#[verifier::external_type_specification]
#[verifier::external_body]
pub struct ExStdRng(StdRng);

/// Relies on `rand::Rng::gen_range` over an inclusive range: the value drawn
/// lies between both bounds (it panics only on an empty range).
#[verifier::external_body]
pub(crate) fn gen_range_inclusive(rng: &mut StdRng, lo: i32, hi: i32) -> (r: i32)
    requires
        lo <= hi,
    ensures
        lo <= r <= hi,
{
    rng.gen_range(lo..=hi)
}

/// Relies on `rand::seq::SliceRandom::choose`: `None` exactly for an empty
/// slice, otherwise one of its elements.
#[verifier::external_body]
pub(crate) fn pick<T: Copy>(rng: &mut StdRng, items: &Vec<T>) -> (r: Option<T>)
    ensures
        r is None <==> items@.len() == 0,
        r matches Some(v) ==> items@.contains(v),
{
    items.as_slice().choose(rng).copied()
}

} // verus!
