use vstd::prelude::*;

verus! {

/// Index from material names to material ids: a `bevy::utils::HashMap` keyed by the name.
/// The map itself is outside the verifier's view; the functions below state what its
/// operations do to `name_index_contents`.
#[verifier::external_body]
pub struct NameIndex {
    map: bevy::utils::HashMap<String, usize>,
}

/// The entries of a `NameIndex`: the id stored under each name.
pub uninterp spec fn name_index_contents(index: NameIndex) -> Map<Seq<char>, usize>;

impl NameIndex {
    /// `HashMap::default`: the map it returns has no entries.
    #[verifier::external_body]
    pub(crate) fn new() -> (index: NameIndex)
        ensures
            forall|name: Seq<char>| !name_index_contents(index).contains_key(name),
    {
        NameIndex { map: bevy::utils::HashMap::default() }
    }

    /// `HashMap::get`: the value stored under the key, `None` where the map has no such key.
    #[verifier::external_body]
    pub(crate) fn get(&self, name: &str) -> (id: Option<usize>)
        ensures
            id == (if name_index_contents(*self).contains_key(name@) {
                Some(name_index_contents(*self)[name@])
            } else {
                None
            }),
    {
        self.map.get(name).copied()
    }

    /// `HashMap::insert`: afterwards the key maps to the new value and every other key is as
    /// before. Returns the value that the key had, `None` where it had none.
    #[verifier::external_body]
    pub(crate) fn insert(&mut self, name: String, id: usize) -> (previous: Option<usize>)
        ensures
            name_index_contents(*final(self)) == name_index_contents(*old(self)).insert(name@, id),
            previous == (if name_index_contents(*old(self)).contains_key(name@) {
                Some(name_index_contents(*old(self))[name@])
            } else {
                None
            }),
    {
        self.map.insert(name, id)
    }
}

} // verus!
