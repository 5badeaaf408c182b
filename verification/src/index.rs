//! The keyed lookup from a component type's identifier to the position of its
//! entry, kept in a `hashbrown::HashMap`.
use crate::component::ComponentID;
use vstd::prelude::*;

verus! {

/// The identifiers of the registered component types in the order of their
/// registration, with a hash map that finds the position of each.
pub struct IdTable {
    index: IdIndex,
    ids: Vec<ComponentID>,
}

impl IdTable {
    /// The identifiers, in the order of their registration.
    pub closed spec fn view(&self) -> Seq<ComponentID> {
        self.ids@
    }

    /// The hash map leads from every identifier to its position, and from
    /// nothing else.
    pub closed spec fn wf(&self) -> bool {
        &&& forall|id: ComponentID| #[trigger]
            index_entries(self.index).contains_key(id) ==> {
                &&& index_entries(self.index)[id] < self.ids@.len()
                &&& self.ids@[index_entries(self.index)[id] as int] == id
            }
        &&& forall|p: int|
            0 <= p < self.ids@.len() ==> {
                &&& index_entries(self.index).contains_key(#[trigger] self.ids@[p])
                &&& index_entries(self.index)[self.ids@[p]] == p
            }
    }

    /// No identifier stands at two positions.
    pub proof fn lemma_no_duplicates(&self)
        requires
            self.wf(),
        ensures
            self@.no_duplicates(),
    {
    }

    /// A table without identifiers.
    pub fn new() -> (table: Self)
        ensures
            table.wf(),
            table@.len() == 0,
    {
        IdTable { index: index_new(), ids: Vec::new() }
    }

    /// The number of identifiers.
    pub fn len(&self) -> (n: usize)
        ensures
            n == self@.len(),
    {
        self.ids.len()
    }

    /// The identifier at `position`.
    pub fn id_at(&self, position: usize) -> (id: ComponentID)
        requires
            position < self@.len(),
        ensures
            id == self@[position as int],
    {
        self.ids[position]
    }

    /// The position of `id`, if the table holds it.
    pub fn position(&self, id: ComponentID) -> (position: Option<usize>)
        requires
            self.wf(),
        ensures
            match position {
                Some(p) => p < self@.len() && self@[p as int] == id,
                None => !self@.contains(id),
            },
    {
        index_get(&self.index, id)
    }

    /// Appends `id`, which the table does not hold yet, and returns its
    /// position.
    pub fn push(&mut self, id: ComponentID) -> (position: usize)
        requires
            old(self).wf(),
            !old(self)@.contains(id),
        ensures
            final(self).wf(),
            final(self)@ == old(self)@.push(id),
            position == old(self)@.len(),
    {
        let position: usize = self.ids.len();
        index_insert(&mut self.index, id, position);
        self.ids.push(id);
        proof {
            assert forall|p: int| 0 <= p < self.ids@.len() implies {
                &&& index_entries(self.index).contains_key(#[trigger] self.ids@[p])
                &&& index_entries(self.index)[self.ids@[p]] == p
            } by {
                if p < position {
                    assert(self.ids@[p] == old(self).ids@[p]);
                    assert(old(self)@.contains(old(self).ids@[p]));
                }
            }
        }
        position
    }
}

/// A `hashbrown::HashMap` from component identifiers to positions.
///
/// The map's own type is bounded by the allocator trait of another crate and
/// cannot be declared to the verifier, so it is kept in this opaque struct.
/// Everything known about it is stated through [`index_entries`] in the
/// contracts of the three functions below, which are believed, not proved.
#[verifier::external_body]
pub struct IdIndex {
    map: hashbrown::HashMap<u64, usize>,
}

/// The entries that an [`IdIndex`] holds.
pub uninterp spec fn index_entries(index: IdIndex) -> Map<u64, usize>;

/// Calls `hashbrown::HashMap::new`: the new map holds no entry.
#[verifier::external_body]
pub(crate) fn index_new() -> (index: IdIndex)
    ensures
        index_entries(index) =~= Map::empty(),
{
    IdIndex { map: hashbrown::HashMap::new() }
}

/// Calls `hashbrown::HashMap::get`: the value stored under `key`, if there is
/// one.
#[verifier::external_body]
pub(crate) fn index_get(index: &IdIndex, key: u64) -> (position: Option<usize>)
    ensures
        position == (if index_entries(*index).contains_key(key) {
            Some(index_entries(*index)[key])
        } else {
            None
        }),
{
    index.map.get(&key).copied()
}

/// Calls `hashbrown::HashMap::insert`: afterwards `key` maps to `position`
/// and every other key is as before.
#[verifier::external_body]
pub(crate) fn index_insert(index: &mut IdIndex, key: u64, position: usize)
    ensures
        index_entries(*final(index)) == index_entries(*old(index)).insert(key, position),
{
    index.map.insert(key, position);
}

} // verus!
