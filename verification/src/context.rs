//! The per-player context shared with every lobby the player joins.

use vstd::prelude::*;

verus! {

/// A connected player: the id it chose, and free-form attributes.
pub struct PlayerContext {
    id: u64,
    attrs: Vec<(Vec<u8>, Vec<u8>)>,
}

impl PlayerContext {
    /// The player id; it never changes for the life of the context.
    pub closed spec fn spec_id(&self) -> u64 {
        self.id
    }

    pub fn new(id: u64) -> (r: Self)
        ensures
            r.spec_id() == id,
    {
        PlayerContext { id, attrs: Vec::new() }
    }

    pub fn id(&self) -> (r: u64)
        ensures
            r == self.spec_id(),
    {
        self.id
    }
}

} // verus!
