//! The random numbers that were drawn, kept for proofs alone. Nothing but a call of
//! the generator adds to them.

use crate::inline_skiplist::gives_height;
use vstd::prelude::*;

verus! {

/// A log of the numbers that the generator gave, in their order.
pub struct Draws {
    numbers: Ghost<Seq<u32>>,
}

impl Draws {
    /// The numbers.
    pub closed spec fn view(&self) -> Seq<u32> {
        self.numbers@
    }

    /// A log without numbers.
    pub fn new() -> (r: Self)
        ensures
            r@ == Seq::<u32>::empty(),
    {
        Draws { numbers: Ghost(Seq::empty()) }
    }
}

/// Some log holds the numbers that give `height`, and no others. What a log holds
/// was drawn, so a height is known to be such only once it was.
pub closed spec fn is_drawn(height: usize) -> bool {
    exists|log: Draws| gives_height(#[trigger] log@, height)
}

/// A height that a log gives is drawn.
pub proof fn lemma_drawn(log: &Draws, height: usize)
    requires
        gives_height(log@, height),
    ensures
        is_drawn(height),
{
}

/// A drawn height is one that some numbers give.
pub proof fn law_drawn(height: usize) -> (draws: Seq<u32>)
    requires
        is_drawn(height),
    ensures
        gives_height(draws, height),
{
    let log = choose|log: Draws| gives_height(#[trigger] log@, height);
    log@
}

} // verus!
