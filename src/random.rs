use rand::rngs::ThreadRng;
use rand::seq::SliceRandom;
use rand::Rng;
use vstd::prelude::*;

verus! {

/// The generator of random numbers owned by the current thread.
#[verifier::external_type_specification]
#[verifier::external_body]
pub struct ExThreadRng(ThreadRng);

/// Relies on `rand::thread_rng`: hands out the thread's generator; nothing
/// is known of what it will produce.
pub assume_specification[ rand::thread_rng ]() -> ThreadRng;

/// Relies on `SliceRandom::shuffle`: it only swaps elements, so the result
/// is a reordering of the input.
#[verifier::external_body]
pub(crate) fn shuffle<T>(v: &mut Vec<T>, rng: &mut ThreadRng)
    ensures
        final(v)@.len() == old(v)@.len(),
        final(v)@.to_multiset() == old(v)@.to_multiset(),
{
    v.shuffle(rng)
}

/// Relies on `Rng::gen_range`: a value in `[0, bound)`; it panics where the
/// range is empty.
#[verifier::external_body]
pub(crate) fn random_below(rng: &mut ThreadRng, bound: usize) -> (r: usize)
    requires
        0 < bound,
    ensures
        r < bound,
{
    rng.gen_range(0, bound)
}

/// `c` is one of the letters `a` to `z`.
pub open spec fn is_lowercase(c: char) -> bool {
    97 <= (c as int) <= 122
}

/// A letter from `a` to `z`, drawn by the generator.
pub fn random_char(rng: &mut ThreadRng) -> (r: char)
    ensures
        is_lowercase(r),
{
    let idx = random_below(rng, 26);
    let code: u8 = 97 + idx as u8;
    code as char
}

} // verus!
