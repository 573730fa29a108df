use vstd::prelude::*;

verus! {

/// Index from chunk coordinates to storage slots: a `bevy::utils::HashMap` keyed by the
/// coordinate pair. The map itself is outside the verifier's view; the functions below
/// state what its operations do to `chunk_index_contents`.
#[verifier::external_body]
pub struct ChunkIndex {
    map: bevy::utils::HashMap<(i32, i32), usize>,
}

/// The entries of a `ChunkIndex`: the slot stored under each coordinate pair.
pub uninterp spec fn chunk_index_contents(index: ChunkIndex) -> Map<(i32, i32), usize>;

impl ChunkIndex {
    /// `HashMap::default`: the map it returns has no entries.
    #[verifier::external_body]
    pub(crate) fn new() -> (index: ChunkIndex)
        ensures
            forall|key: (i32, i32)| !chunk_index_contents(index).contains_key(key),
    {
        ChunkIndex { map: bevy::utils::HashMap::default() }
    }

    /// `HashMap::get`: the value stored under the key, `None` where the map has no such key.
    #[verifier::external_body]
    pub(crate) fn get(&self, x: i32, y: i32) -> (slot: Option<usize>)
        ensures
            slot == (if chunk_index_contents(*self).contains_key((x, y)) {
                Some(chunk_index_contents(*self)[(x, y)])
            } else {
                None
            }),
    {
        self.map.get(&(x, y)).copied()
    }

    /// `HashMap::insert`: afterwards the key maps to the new value and every other key is as
    /// before. Returns the value that the key had, `None` where it had none.
    #[verifier::external_body]
    pub(crate) fn insert(&mut self, x: i32, y: i32, slot: usize) -> (previous: Option<usize>)
        ensures
            chunk_index_contents(*final(self)) == chunk_index_contents(*old(self)).insert(
                (x, y),
                slot,
            ),
            previous == (if chunk_index_contents(*old(self)).contains_key((x, y)) {
                Some(chunk_index_contents(*old(self))[(x, y)])
            } else {
                None
            }),
    {
        self.map.insert((x, y), slot)
    }
}

} // verus!
