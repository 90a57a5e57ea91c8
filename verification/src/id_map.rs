//! The string-to-id hash table behind a name registry.

use vstd::prelude::*;

verus! {

/// Largest capacity that [`IdMap::with_capacity`] accepts.
pub const MAX_PREALLOCATION: usize = 65_536;

/// A `hashbrown::HashMap<String, u32>`.
///
/// The last parameter of `hashbrown::HashMap` is bounded by an allocator
/// trait that hashbrown does not export, so the map's own type cannot be
/// declared to the verifier. It is held here instead, out of the verifier's
/// sight; what it holds is described by [`id_map_entries`].
#[verifier::external_body]
pub struct IdMap {
    map: hashbrown::HashMap<String, u32>,
}

/// The entries of an [`IdMap`], keyed by the characters of each key.
pub uninterp spec fn id_map_entries(map: IdMap) -> Map<Seq<char>, u32>;

/// The entries of a map that holds nothing.
pub open spec fn no_entries() -> Map<Seq<char>, u32> {
    Map::empty()
}

impl IdMap {
    /// Calls `hashbrown::HashMap::with_capacity`, which returns an empty map
    /// with room for `capacity` entries. The call panics where the room
    /// asked for overflows `usize`; the bound on `capacity` stays far from
    /// that.
    #[verifier::external_body]
    pub(crate) fn with_capacity(capacity: usize) -> (table: IdMap)
        requires
            capacity <= MAX_PREALLOCATION,
        ensures
            id_map_entries(table) == no_entries(),
    {
        IdMap { map: hashbrown::HashMap::with_capacity(capacity) }
    }

    /// Calls `hashbrown::HashMap::get`, which returns the value stored under
    /// `key` if the map holds an entry for it, and nothing if it does not.
    #[verifier::external_body]
    pub(crate) fn get(&self, key: &str) -> (id: Option<u32>)
        ensures
            id == (if id_map_entries(*self).contains_key(key@) {
                Some(id_map_entries(*self)[key@])
            } else {
                None
            }),
    {
        self.map.get(key).copied()
    }

    /// Calls `hashbrown::HashMap::insert`, after which `key` maps to `id` and
    /// every other entry is as before. The value that the key had before,
    /// if any, is dropped.
    #[verifier::external_body]
    pub(crate) fn insert(&mut self, key: String, id: u32)
        ensures
            id_map_entries(*final(self)) == id_map_entries(*old(self)).insert(key@, id),
    {
        self.map.insert(key, id);
    }
}

} // verus!
