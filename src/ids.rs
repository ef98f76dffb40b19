use vstd::prelude::*;

verus! {

/// Hands out shape identities: each call returns the next integer, so no two
/// shapes built from one counter share an identity.
pub struct IdCounter {
    pub next: usize,
}

impl IdCounter {
    /// A counter whose first identity is zero.
    pub fn new() -> (r: IdCounter)
        ensures
            r.next == 0,
    {
        IdCounter { next: 0 }
    }
}

/// Returns a fresh identity and advances the counter past it.
pub fn get_id(counter: &mut IdCounter) -> (r: usize)
    requires
        old(counter).next < usize::MAX,
    ensures
        r == old(counter).next,
        final(counter).next == r + 1,
{
    let r = counter.next;
    counter.next = r + 1;
    r
}

} // verus!
