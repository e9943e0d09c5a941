use rand::seq::SliceRandom;
use rand::Rng;
use vstd::prelude::*;

verus! {

/// Relies on `rand::Rng::gen_range` over an inclusive range drawn from the
/// thread-local generator: the value lies in `lo..=hi`; an empty range panics.
#[verifier::external_body]
pub(crate) fn random_in_range(lo: usize, hi: usize) -> (r: usize)
    requires
        lo <= hi,
    ensures
        lo <= r <= hi,
{
    rand::thread_rng().gen_range(lo..=hi)
}

/// Relies on `rand::seq::SliceRandom::choose` with the thread-local generator:
/// `None` exactly for an empty slice, otherwise a reference to one of its items.
#[verifier::external_body]
pub(crate) fn choose_one<'a>(items: &'a Vec<String>) -> (r: Option<&'a String>)
    ensures
        items@.len() == 0 <==> r is None,
        r matches Some(s) ==> exists|i: int| 0 <= i < items@.len() && items@[i] == *s,
{
    items.as_slice().choose(&mut rand::thread_rng())
}

} // verus!
