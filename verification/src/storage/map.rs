//! The columns of all registered component types.
use crate::component::{ComponentID, ComponentInfo};
use crate::index::IdTable;
use crate::storage::array::ComponentArray;
use crate::storage::slot::{lemma_slot_bounds, lemma_zeroed_next, Slot};
use vstd::prelude::*;

verus! {

/// A released payload with the identifier of its component type, as a
/// specification value.
pub open spec fn released_view(released: (ComponentID, Vec<u8>)) -> (ComponentID, Seq<u8>) {
    (released.0, released.1@)
}

/// Released payloads with the identifiers of their component types, as
/// specification values.
pub open spec fn released_views(
    released: Seq<(ComponentID, Vec<u8>)>,
) -> Seq<(ComponentID, Seq<u8>)> {
    released.map_values(|entry: (ComponentID, Vec<u8>)| released_view(entry))
}

/// The values that the first `upto` of `columns` hold at `index`, each with
/// the identifier of its column, in the order of the columns.
pub open spec fn held(
    ids: Seq<ComponentID>,
    columns: Seq<ComponentArray>,
    index: int,
    upto: int,
) -> Seq<(ComponentID, Seq<u8>)>
    decreases upto,
{
    if upto <= 0 {
        Seq::empty()
    } else {
        let before = held(ids, columns, index, upto - 1);
        match columns[upto - 1].slot(index) {
            Slot::Filled(payload) => before.push((ids[upto - 1], payload)),
            Slot::Empty => before,
        }
    }
}

/// Whether `entry` is the value that the column at `position` holds at
/// `index`, under that column's identifier.
pub open spec fn holds(
    ids: Seq<ComponentID>,
    columns: Seq<ComponentArray>,
    index: int,
    position: int,
    entry: (ComponentID, Seq<u8>),
) -> bool {
    entry.0 == ids[position] && columns[position].slot(index) == Slot::Filled(entry.1)
}

/// Whether one of the first `upto` columns holds `entry` at `index`.
pub open spec fn among(
    ids: Seq<ComponentID>,
    columns: Seq<ComponentArray>,
    index: int,
    upto: int,
    entry: (ComponentID, Seq<u8>),
) -> bool {
    exists|p: int| 0 <= p < upto && #[trigger] holds(ids, columns, index, p, entry)
}

/// What `held` lists: for each of the first `upto` columns that holds a value
/// at `index`, that value under the column's identifier, and nothing else.
pub proof fn lemma_held(
    ids: Seq<ComponentID>,
    columns: Seq<ComponentArray>,
    index: int,
    upto: int,
)
    requires
        0 <= upto <= ids.len(),
        ids.len() == columns.len(),
    ensures
        held(ids, columns, index, upto).len() <= upto,
        forall|k: int|
            0 <= k < held(ids, columns, index, upto).len() ==> among(
                ids,
                columns,
                index,
                upto,
                #[trigger] held(ids, columns, index, upto)[k],
            ),
        forall|p: int|
            0 <= p < upto && (#[trigger] columns[p]).slot(index) is Filled ==> exists|k: int|
                0 <= k < held(ids, columns, index, upto).len() && holds(
                    ids,
                    columns,
                    index,
                    p,
                    #[trigger] held(ids, columns, index, upto)[k],
                ),
    decreases upto,
{
    if upto > 0 {
        lemma_held(ids, columns, index, upto - 1);
        let before = held(ids, columns, index, upto - 1);
        let all = held(ids, columns, index, upto);
        assert forall|k: int| 0 <= k < all.len() implies among(
            ids,
            columns,
            index,
            upto,
            #[trigger] all[k],
        ) by {
            if k < before.len() {
                assert(among(ids, columns, index, upto - 1, before[k]));
                let p = choose|p: int|
                    0 <= p < upto - 1 && #[trigger] holds(ids, columns, index, p, before[k]);
                assert(holds(ids, columns, index, p, all[k]));
            } else {
                assert(holds(ids, columns, index, upto - 1, all[k]));
            }
        }
        assert forall|p: int|
            0 <= p < upto && (#[trigger] columns[p]).slot(index) is Filled
            implies exists|k: int|
            0 <= k < all.len() && holds(ids, columns, index, p, #[trigger] all[k]) by {
            if p < upto - 1 {
                let k = choose|k: int|
                    0 <= k < before.len() && holds(ids, columns, index, p, #[trigger] before[k]);
                assert(holds(ids, columns, index, p, all[k]));
            } else {
                assert(holds(ids, columns, index, p, all[all.len() - 1]));
            }
        }
    }
}

/// Where no column identifier occurs twice, no identifier occurs twice in
/// what `held` lists.
pub proof fn lemma_held_distinct(
    ids: Seq<ComponentID>,
    columns: Seq<ComponentArray>,
    index: int,
    upto: int,
)
    requires
        0 <= upto <= ids.len(),
        ids.len() == columns.len(),
        ids.no_duplicates(),
    ensures
        forall|j: int, k: int|
            0 <= j < k < held(ids, columns, index, upto).len() ==> (#[trigger] held(
                ids,
                columns,
                index,
                upto,
            )[j]).0 != (#[trigger] held(ids, columns, index, upto)[k]).0,
    decreases upto,
{
    if upto > 0 {
        lemma_held_distinct(ids, columns, index, upto - 1);
        lemma_held(ids, columns, index, upto - 1);
        let before = held(ids, columns, index, upto - 1);
        let all = held(ids, columns, index, upto);
        assert forall|j: int, k: int| 0 <= j < k < all.len() implies (#[trigger] all[j]).0 != (
        #[trigger] all[k]).0 by {
            if k >= before.len() {
                assert(among(ids, columns, index, upto - 1, before[j]));
                let p = choose|p: int|
                    0 <= p < upto - 1 && #[trigger] holds(ids, columns, index, p, before[j]);
                assert(ids[p] != ids[upto - 1]);
            }
        }
    }
}

/// The values that the first `upto` of `columns` hold at any index, each
/// with the identifier of its column: column by column, and within a column
/// in the order of the slots.
pub open spec fn held_anywhere(
    ids: Seq<ComponentID>,
    columns: Seq<ComponentArray>,
    upto: int,
) -> Seq<(ComponentID, Seq<u8>)>
    decreases upto,
{
    if upto <= 0 {
        Seq::empty()
    } else {
        held_anywhere(ids, columns, upto - 1) + tagged(
            ids[upto - 1],
            columns[upto - 1].held_before(columns[upto - 1].len() as int),
        )
    }
}

/// `payloads`, each with the identifier `id`.
pub open spec fn tagged(id: ComponentID, payloads: Seq<Seq<u8>>) -> Seq<(ComponentID, Seq<u8>)> {
    payloads.map_values(|payload: Seq<u8>| (id, payload))
}

/// The columns of all registered component types, each with the same number
/// of slots.
pub struct ComponentMap {
    table: IdTable,
    arrays: Vec<ComponentArray>,
    length: usize,
}

impl ComponentMap {
    /// The identifiers of the registered types, in the order of registration.
    pub closed spec fn ids(&self) -> Seq<ComponentID> {
        self.table@
    }

    /// The columns, each at the position of its identifier.
    pub closed spec fn columns(&self) -> Seq<ComponentArray> {
        self.arrays@
    }

    /// The number of slots of every column.
    pub closed spec fn len(&self) -> nat {
        self.length as nat
    }

    /// Every identifier has its column, and every column is well formed and
    /// has `len` slots.
    pub closed spec fn wf(&self) -> bool {
        &&& self.table.wf()
        &&& self.table@.len() == self.arrays@.len()
        &&& forall|p: int|
            0 <= p < self.arrays@.len() ==> {
                &&& (#[trigger] self.arrays@[p]).wf()
                &&& self.arrays@[p].len() == self.length
            }
    }

    /// Whether a type is registered under `id`.
    pub open spec fn contains(&self, id: ComponentID) -> bool {
        self.ids().contains(id)
    }

    /// The position of the column of the type registered under `id`.
    pub open spec fn position(&self, id: ComponentID) -> int {
        self.ids().index_of(id)
    }

    /// The column of the type registered under `id`.
    pub open spec fn column(&self, id: ComponentID) -> ComponentArray {
        self.columns()[self.position(id)]
    }

    /// The values that the columns hold at `index`, each with the identifier
    /// of its type, in the order of registration.
    pub open spec fn held_at(&self, index: int) -> Seq<(ComponentID, Seq<u8>)> {
        held(self.ids(), self.columns(), index, self.ids().len() as int)
    }

    /// What well-formedness means for the identifiers and the columns.
    pub proof fn lemma_wf(&self)
        requires
            self.wf(),
        ensures
            self.ids().no_duplicates(),
            self.ids().len() == self.columns().len(),
            forall|p: int|
                0 <= p < self.columns().len() ==> {
                    &&& (#[trigger] self.columns()[p]).wf()
                    &&& self.columns()[p].len() == self.len()
                },
            forall|id: ComponentID|
                self.contains(id) ==> {
                    &&& 0 <= #[trigger] self.position(id) < self.ids().len()
                    &&& self.ids()[self.position(id)] == id
                },
            forall|p: int|
                0 <= p < self.ids().len() ==> self.position(#[trigger] self.ids()[p]) == p,
    {
        self.table.lemma_no_duplicates();
        assert forall|p: int| 0 <= p < self.ids().len() implies self.position(
            #[trigger] self.ids()[p],
        ) == p by {
            assert(self.ids().contains(self.ids()[p]));
        }
    }

    /// What `held_at` lists: the value of every registered type that holds
    /// one at `index`, under the identifier of the type, and nothing else;
    /// and no identifier twice.
    pub proof fn lemma_held_at(&self, index: int)
        requires
            self.wf(),
        ensures
            forall|k: int|
                0 <= k < self.held_at(index).len() ==> {
                    let (id, payload) = #[trigger] self.held_at(index)[k];
                    self.contains(id) && self.column(id).slot(index) == Slot::Filled(payload)
                },
            forall|id: ComponentID|
                self.contains(id) && (#[trigger] self.column(id).slot(index)) is Filled ==> {
                    let payload = self.column(id).slot(index)->Filled_0;
                    self.held_at(index).contains((id, payload))
                },
            forall|j: int, k: int|
                0 <= j < k < self.held_at(index).len() ==> {
                    (#[trigger] self.held_at(index)[j]).0 != (#[trigger] self.held_at(index)[k]).0
                },
    {
        self.lemma_wf();
        let ids = self.ids();
        let columns = self.columns();
        let all = self.held_at(index);
        lemma_held(ids, columns, index, ids.len() as int);
        lemma_held_distinct(ids, columns, index, ids.len() as int);
        assert forall|k: int| 0 <= k < all.len() implies self.contains((#[trigger] all[k]).0)
            && self.column(all[k].0).slot(index) == Slot::Filled(all[k].1) by {
            assert(among(ids, columns, index, ids.len() as int, all[k]));
            let p = choose|p: int|
                0 <= p < ids.len() && #[trigger] holds(ids, columns, index, p, all[k]);
            assert(ids[p] == all[k].0);
            assert(self.position(ids[p]) == p);
        }
        assert forall|id: ComponentID|
            self.contains(id) && (#[trigger] self.column(id).slot(index)) is Filled
            implies all.contains((id, self.column(id).slot(index)->Filled_0)) by {
            let p = self.position(id);
            assert(columns[p].slot(index) is Filled);
            let k = choose|k: int|
                0 <= k < all.len() && holds(ids, columns, index, p, #[trigger] all[k]);
            assert(all[k] == (id, self.column(id).slot(index)->Filled_0));
        }
    }

    /// A store of columns of `length` slots, with no type registered.
    pub fn new(length: usize) -> (map: Self)
        ensures
            map.wf(),
            map.len() == length,
            map.ids().len() == 0,
    {
        ComponentMap { table: IdTable::new(), arrays: Vec::new(), length }
    }

    /// The number of slots of every column.
    pub fn length(&self) -> (length: usize)
        ensures
            length == self.len(),
    {
        self.length
    }

    /// Whether a type is registered under `id`.
    pub fn is_registered(&self, id: ComponentID) -> (registered: bool)
        requires
            self.wf(),
        ensures
            registered == self.contains(id),
    {
        self.table.position(id).is_some()
    }

    /// Registers a type under `id` and gives it a zeroed column. A type that
    /// is already registered under `id` keeps its column.
    pub fn register(&mut self, id: ComponentID, info: ComponentInfo)
        requires
            old(self).wf(),
            info.wf(),
            !old(self).contains(id) ==> old(self).len() * info.stride <= usize::MAX,
        ensures
            final(self).wf(),
            final(self).len() == old(self).len(),
            old(self).contains(id) ==> {
                &&& final(self).ids() == old(self).ids()
                &&& final(self).columns() == old(self).columns()
            },
            !old(self).contains(id) ==> {
                &&& final(self).ids() == old(self).ids().push(id)
                &&& final(self).columns().len() == old(self).columns().len() + 1
                &&& final(self).columns().drop_last() == old(self).columns()
                &&& final(self).columns().last().fresh(info, old(self).len())
            },
    {
        match self.table.position(id) {
            Some(_) => {},
            None => {
                let array = ComponentArray::new(info, self.length);
                let _ = self.table.push(id);
                self.arrays.push(array);
                proof {
                    assert(self.arrays@.drop_last() =~= old(self).arrays@);
                }
            },
        }
    }

    /// Whether columns of `new_length` slots stay within the machine's
    /// address range.
    pub open spec fn fits(&self, new_length: nat) -> bool {
        forall|p: int|
            0 <= p < self.columns().len() ==> new_length * (
            #[trigger] self.columns()[p]).info().stride <= usize::MAX
    }

    /// Whether every column can be grown to `new_length` slots within the
    /// machine's address range.
    pub fn can_resize(&self, new_length: usize) -> (fits: bool)
        requires
            self.wf(),
        ensures
            fits == self.fits(new_length as nat),
    {
        let mut p: usize = 0;
        while p < self.arrays.len()
            invariant
                p <= self.arrays@.len(),
                forall|q: int|
                    0 <= q < p ==> new_length * (#[trigger] self.arrays@[q]).info().stride
                        <= usize::MAX,
            decreases self.arrays@.len() - p,
        {
            let stride: usize = self.arrays[p].component_info().stride;
            if new_length.checked_mul(stride).is_none() {
                proof {
                    assert(self.columns()[p as int].info().stride == stride);
                }
                return false;
            }
            p += 1;
        }
        true
    }

    /// Grows every column to `new_length` slots. What the old slots hold
    /// stays; the new slots are empty.
    pub fn resize(&mut self, new_length: usize)
        requires
            old(self).wf(),
            new_length > old(self).len(),
            old(self).fits(new_length as nat),
        ensures
            final(self).wf(),
            final(self).len() == new_length,
            final(self).ids() == old(self).ids(),
            final(self).columns().len() == old(self).columns().len(),
            forall|p: int|
                0 <= p < old(self).columns().len() ==> {
                    (#[trigger] final(self).columns()[p]).grown_from(&old(self).columns()[p])
                },
    {
        let mut p: usize = 0;
        while p < self.arrays.len()
            invariant
                p <= self.arrays@.len(),
                self.arrays@.len() == old(self).arrays@.len(),
                self.table == old(self).table,
                self.length == old(self).length,
                new_length > self.length,
                old(self).wf(),
                old(self).fits(new_length as nat),
                forall|q: int|
                    p <= q < self.arrays@.len() ==> self.arrays@[q] == old(self).arrays@[q],
                forall|q: int|
                    0 <= q < p ==> {
                        &&& (#[trigger] self.arrays@[q]).wf()
                        &&& self.arrays@[q].len() == new_length
                        &&& self.arrays@[q].grown_from(&old(self).arrays@[q])
                    },
            decreases self.arrays@.len() - p,
        {
            assert(self.arrays@[p as int] == old(self).columns()[p as int]);
            self.arrays[p].resize(new_length);
            p += 1;
        }
        self.length = new_length;
    }

    /// Empties the slot at `index` in every column and zeroes its bytes. The
    /// values that the slots held are released to the caller, each once, with
    /// the identifier of its type and in the order of registration.
    pub fn delete_index(&mut self, index: usize) -> (released: Vec<(ComponentID, Vec<u8>)>)
        requires
            old(self).wf(),
            index < old(self).len(),
        ensures
            final(self).wf(),
            final(self).len() == old(self).len(),
            final(self).ids() == old(self).ids(),
            final(self).columns().len() == old(self).columns().len(),
            forall|p: int|
                0 <= p < old(self).columns().len() ==> {
                    let before = &old(self).columns()[p];
                    (#[trigger] final(self).columns()[p]).emptied_at(before, index as int)
                },
            released_views(released@) == old(self).held_at(index as int),
    {
        let mut released: Vec<(ComponentID, Vec<u8>)> = Vec::new();
        let mut p: usize = 0;
        while p < self.arrays.len()
            invariant
                p <= self.arrays@.len(),
                self.arrays@.len() == old(self).arrays@.len(),
                self.table == old(self).table,
                self.length == old(self).length,
                index < self.length,
                old(self).wf(),
                released_views(released@) == held(
                    old(self).table@,
                    old(self).arrays@,
                    index as int,
                    p as int,
                ),
                forall|q: int|
                    p <= q < self.arrays@.len() ==> self.arrays@[q] == old(self).arrays@[q],
                forall|q: int|
                    0 <= q < p ==> {
                        &&& (#[trigger] self.arrays@[q]).wf()
                        &&& self.arrays@[q].emptied_at(&old(self).arrays@[q], index as int)
                    },
            decreases self.arrays@.len() - p,
        {
            assert(self.arrays@[p as int] == old(self).arrays@[p as int]);
            let id = self.table.id_at(p);
            let ghost before = released_views(released@);
            match self.arrays[p].delete_index(index) {
                Slot::Filled(payload) => {
                    released.push((id, payload));
                    proof {
                        assert(released_views(released@) =~= before.push((id, payload@)));
                    }
                },
                Slot::Empty => {},
            }
            p += 1;
        }
        released
    }

    /// Empties every slot of every column and zeroes the columns, as is due
    /// before the columns are given up. The values that the slots held are released to the caller,
    /// each once, with the identifier of its type: column by column in the
    /// order of registration, and within a column in the order of the slots.
    pub fn clear(&mut self) -> (released: Vec<(ComponentID, Vec<u8>)>)
        requires
            old(self).wf(),
        ensures
            final(self).wf(),
            final(self).len() == old(self).len(),
            final(self).ids() == old(self).ids(),
            final(self).columns().len() == old(self).columns().len(),
            forall|p: int|
                0 <= p < old(self).columns().len() ==> {
                    (#[trigger] final(self).columns()[p]).emptied(&old(self).columns()[p])
                },
            released_views(released@) == held_anywhere(
                old(self).ids(),
                old(self).columns(),
                old(self).ids().len() as int,
            ),
    {
        let mut released: Vec<(ComponentID, Vec<u8>)> = Vec::new();
        let mut p: usize = 0;
        while p < self.arrays.len()
            invariant
                p <= self.arrays@.len(),
                self.arrays@.len() == old(self).arrays@.len(),
                self.table == old(self).table,
                self.length == old(self).length,
                old(self).wf(),
                released_views(released@) == held_anywhere(
                    old(self).table@,
                    old(self).arrays@,
                    p as int,
                ),
                forall|q: int|
                    p <= q < self.arrays@.len() ==> self.arrays@[q] == old(self).arrays@[q],
                forall|q: int|
                    0 <= q < p ==> {
                        &&& (#[trigger] self.arrays@[q]).wf()
                        &&& self.arrays@[q].emptied(&old(self).arrays@[q])
                    },
            decreases self.arrays@.len() - p,
        {
            assert(self.arrays@[p as int] == old(self).arrays@[p as int]);
            let id = self.table.id_at(p);
            let ghost done = released_views(released@);
            let ghost column = old(self).arrays@[p as int];
            let mut index: usize = 0;
            while index < self.length
                invariant
                    index <= self.length,
                    p < self.arrays@.len(),
                    self.arrays@.len() == old(self).arrays@.len(),
                    self.table == old(self).table,
                    self.length == old(self).length,
                    old(self).wf(),
                    column == old(self).arrays@[p as int],
                    released_views(released@) == done + tagged(
                        id,
                        column.held_before(index as int),
                    ),
                    forall|q: int|
                        p < q < self.arrays@.len() ==> self.arrays@[q] == old(self).arrays@[q],
                    forall|q: int|
                        0 <= q < p ==> {
                            &&& (#[trigger] self.arrays@[q]).wf()
                            &&& self.arrays@[q].emptied(&old(self).arrays@[q])
                        },
                    self.arrays@[p as int].wf(),
                    self.arrays@[p as int].len() == self.length,
                    self.arrays@[p as int].info() == column.info(),
                    self.arrays@[p as int].raw().len() == column.raw().len(),
                    forall|k: int|
                        0 <= k < index * column.info().stride ==> self.arrays@[p as int].raw()[k]
                            == 0u8,
                    forall|other: int|
                        0 <= other < index ==> (#[trigger] self.arrays@[p as int].slot(
                            other,
                        )) is Empty,
                    forall|other: int|
                        index <= other < self.length ==> #[trigger] self.arrays@[p as int].slot(
                            other,
                        ) == column.slot(other),
                decreases self.length - index,
            {
                let ghost before = released_views(released@);
                let ghost held_before = tagged(id, column.held_before(index as int));
                let ghost arrays_before = self.arrays@;
                proof {
                    let current = self.arrays@[p as int];
                    current.lemma_raw_len();
                    lemma_slot_bounds(current.info(), self.length as int, index as int);
                    lemma_zeroed_next(current.raw(), current.info(), index as int);
                }
                match self.arrays[p].delete_index(index) {
                    Slot::Filled(payload) => {
                        released.push((id, payload));
                        proof {
                            let held_now = tagged(id, column.held_before(index + 1));
                            assert(released_views(released@) =~= before.push((id, payload@)));
                            assert(held_now =~= held_before.push((id, payload@)));
                            assert(released_views(released@) =~= done + held_now);
                        }
                    },
                    Slot::Empty => {},
                }
                proof {
                    assert forall|q: int| 0 <= q < p implies (#[trigger] self.arrays@[q])
                        == arrays_before[q] by {}
                }
                index += 1;
            }
            proof {
                let current = self.arrays@[p as int];
                current.lemma_raw_len();
                column.lemma_raw_len();
                assert(current.raw() =~= Seq::new(column.raw().len(), |k: int| 0u8));
            }
            p += 1;
        }
        released
    }

    /// The column of the type registered under `id`, if there is one.
    pub fn get_array(&self, id: ComponentID) -> (array: Option<&ComponentArray>)
        requires
            self.wf(),
        ensures
            match array {
                Some(column) => self.contains(id) && *column == self.column(id),
                None => !self.contains(id),
            },
    {
        proof {
            self.lemma_wf();
        }
        match self.table.position(id) {
            Some(position) => Some(&self.arrays[position]),
            None => None,
        }
    }

    /// The column of the type registered under `id`, if there is one, for
    /// writing. The store stays well formed if the column does and keeps its
    /// number of slots.
    pub fn get_array_mut(&mut self, id: ComponentID) -> (array: Option<&mut ComponentArray>)
        requires
            old(self).wf(),
        ensures
            final(self).ids() == old(self).ids(),
            final(self).len() == old(self).len(),
            match array {
                Some(column) => {
                    &&& old(self).contains(id)
                    &&& *column == old(self).column(id)
                    &&& final(self).columns() == old(self).columns().update(
                        old(self).position(id),
                        *final(column),
                    )
                    &&& final(column).wf() && final(column).len() == old(self).len()
                        ==> final(self).wf()
                },
                None => {
                    &&& !old(self).contains(id)
                    &&& final(self).columns() == old(self).columns()
                    &&& final(self).wf()
                },
            },
    {
        proof {
            self.lemma_wf();
        }
        match self.table.position(id) {
            Some(position) => Some(&mut self.arrays[position]),
            None => None,
        }
    }
}

} // verus!
