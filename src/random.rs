//! The random source that the list forms of `Generator` and `Modifier` draw from.
use vstd::prelude::*;

verus! {

/// Relies on `rand::random::<usize>`: a value drawn from the thread-local generator.
/// Any `usize` may come back, so nothing is promised of it.
#[verifier::external_body]
fn random_usize() -> (r: usize) {
    rand::random::<usize>()
}

/// The index below `len` that a random draw selects.
pub fn index_from(draw: usize, len: usize) -> (r: usize)
    requires
        len > 0,
    ensures
        r == draw % len,
{
    draw % len
}

/// Picks an index below `len`, as the list forms do when they delegate to one
/// member: a random draw, taken modulo `len`.
pub fn random_index(len: usize) -> (r: usize)
    requires
        len > 0,
    ensures
        r < len,
{
    index_from(random_usize(), len)
}

} // verus!
