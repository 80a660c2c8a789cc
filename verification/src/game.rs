//! The capability the two solitaire variants share.

use vstd::prelude::*;

verus! {

/// A solitaire variant that can decide whether it has been won. Collecting
/// commands from a player is a presentation concern and stays outside the
/// engine, so the trait carries only the win query.
pub trait Game {
    /// What winning means for this variant.
    spec fn won(&self) -> bool;

    /// Decides the variant's win condition.
    fn win(&self) -> (r: bool)
        ensures
            r == self.won(),
    ;
}

} // verus!
