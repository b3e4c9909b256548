//! Thread-count capping for the tiled runners.
use vstd::prelude::*;

verus! {

/// The number of threads worth running: the request (at least one), capped
/// by the measured saturation (at least one).
pub open spec fn effective_threads_spec(requested: int, saturation: int) -> int {
    let r = if requested < 1 { 1 } else { requested };
    let s = if saturation < 1 { 1 } else { saturation };
    if r < s { r } else { s }
}

/// `requested`, at least one, capped by the machine's measured `saturation`
/// (itself taken as at least one).
pub fn effective_threads(requested: usize, saturation: usize) -> (eff: usize)
    ensures
        eff == effective_threads_spec(requested as int, saturation as int),
{
    let r = if requested < 1 { 1 } else { requested };
    let s = if saturation < 1 { 1 } else { saturation };
    if r < s { r } else { s }
}

/// The cap only ever removes threads the machine cannot deliver: the result
/// is at least one and never more than the request (zero meaning one), and a
/// request within the saturation comes back unchanged.
pub proof fn lemma_effective_within_request(requested: int, saturation: int)
    ensures
        1 <= effective_threads_spec(requested, saturation),
        effective_threads_spec(requested, saturation) <= if requested < 1 { 1 } else { requested },
        1 <= requested <= saturation ==> effective_threads_spec(requested, saturation) == requested,
{
}

} // verus!
