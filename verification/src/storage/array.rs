//! The column of one component type.
use crate::component::ComponentInfo;
use crate::storage::slot::{
    filled_slot, lemma_replaced_payload, lemma_slot_bounds, lemma_slot_of_same_bytes,
    lemma_slots_apart, lemma_zeroed_next, payload_views, replaced_payload, slot_of, zeroed_slot,
    Slot,
};
use vstd::prelude::*;
use vstd::slice::{slice_subrange, slice_to_vec};

verus! {

/// The column of one component type: `len` slots of `info.stride` bytes.
pub struct ComponentArray {
    array: Vec<u8>,
    length: usize,
    component_info: ComponentInfo,
}

impl ComponentArray {
    /// The metadata of the type that the column stores.
    pub closed spec fn info(&self) -> ComponentInfo {
        self.component_info
    }

    /// The number of slots.
    pub closed spec fn len(&self) -> nat {
        self.length as nat
    }

    /// The bytes of the column.
    pub closed spec fn raw(&self) -> Seq<u8> {
        self.array@
    }

    /// The metadata is well formed and the column has `len` whole slots.
    pub closed spec fn wf(&self) -> bool {
        &&& self.component_info.wf()
        &&& self.array@.len() == self.length * self.component_info.stride
    }

    /// The slot at `index`.
    pub open spec fn slot(&self, index: int) -> Slot<Seq<u8>> {
        slot_of(self.raw(), self.info(), index)
    }

    /// The slots of the column, by index.
    pub open spec fn view(&self) -> Seq<Slot<Seq<u8>>> {
        Seq::new(self.len(), |index: int| self.slot(index))
    }

    /// Whether the column is as `before` in every slot but the one at
    /// `index`.
    pub open spec fn same_but_at(&self, before: &ComponentArray, index: int) -> bool {
        &&& self.info() == before.info()
        &&& self.len() == before.len()
        &&& forall|other: int|
            0 <= other < before.len() && other != index ==> #[trigger] self.slot(other)
                == before.slot(other)
    }

    /// Whether the column is `before` with the slot at `index` zeroed, and
    /// hence empty.
    pub open spec fn emptied_at(&self, before: &ComponentArray, index: int) -> bool {
        &&& self.same_but_at(before, index)
        &&& self.raw() == zeroed_slot(before.raw(), before.info(), index)
        &&& self.slot(index) is Empty
    }

    /// Whether the column is `before` with every byte zeroed, and hence
    /// every slot emptied.
    pub open spec fn emptied(&self, before: &ComponentArray) -> bool {
        &&& self.info() == before.info()
        &&& self.len() == before.len()
        &&& self.raw() == Seq::new(before.raw().len(), |k: int| 0u8)
        &&& forall|index: int| 0 <= index < before.len() ==> #[trigger] self.slot(index) is Empty
    }

    /// Whether the column is a new one for values described by `info`: all
    /// its bytes are zero, so that each of its `length` slots is empty.
    pub open spec fn fresh(&self, info: ComponentInfo, length: nat) -> bool {
        &&& self.info() == info
        &&& self.len() == length
        &&& self.raw() == Seq::new((length * info.stride) as nat, |k: int| 0u8)
        &&& forall|index: int| 0 <= index < length ==> #[trigger] self.slot(index) is Empty
    }

    /// Whether the column is `before` after growth: the old bytes are as they
    /// were and are followed by zeroes, so that the old slots hold what they
    /// held and the new slots are empty.
    pub open spec fn grown_from(&self, before: &ComponentArray) -> bool {
        &&& self.info() == before.info()
        &&& self.len() > before.len()
        &&& self.raw() == before.raw() + Seq::new(
            ((self.len() - before.len()) * before.info().stride) as nat,
            |k: int| 0u8,
        )
        &&& forall|index: int|
            0 <= index < before.len() ==> #[trigger] self.slot(index) == before.slot(index)
        &&& forall|index: int|
            before.len() <= index < self.len() ==> #[trigger] self.slot(index) is Empty
    }

    /// A well-formed column has `len * stride` bytes, which the machine can
    /// count.
    pub proof fn lemma_raw_len(&self)
        requires
            self.wf(),
        ensures
            self.info().wf(),
            self.raw().len() == self.len() * self.info().stride,
            self.raw().len() <= usize::MAX,
    {
        assert(self.array.len() == self.array@.len());
    }

    /// The bytes of the slot at `index` lie inside the column.
    proof fn lemma_slot_inside(&self, index: int)
        requires
            self.wf(),
            0 <= index < self.len(),
        ensures
            0 <= index * self.component_info.stride,
            index * self.component_info.stride + self.component_info.stride <= self.array@.len(),
            self.array@.len() <= usize::MAX,
            1 + self.component_info.size <= self.component_info.stride,
    {
        self.lemma_raw_len();
        lemma_slot_bounds(self.component_info, self.length as int, index);
    }

    /// A zeroed column of `length` empty slots for values described by `info`.
    pub fn new(component_info: ComponentInfo, length: usize) -> (column: Self)
        requires
            component_info.wf(),
            length * component_info.stride <= usize::MAX,
        ensures
            column.wf(),
            column.fresh(component_info, length as nat),
    {
        let total: usize = length * component_info.stride;
        let array = vec![0u8; total];
        let column = ComponentArray { array, length, component_info };
        proof {
            assert(column.array@ =~= Seq::new(total as nat, |k: int| 0u8));
            assert forall|index: int|
                0 <= index < length implies #[trigger] column.slot(index) is Empty by {
                lemma_slot_bounds(component_info, length as int, index);
            }
        }
        column
    }

    /// The number of slots.
    pub fn length(&self) -> (length: usize)
        ensures
            length == self.len(),
    {
        self.length
    }

    /// The metadata of the type that the column stores.
    pub fn component_info(&self) -> (info: ComponentInfo)
        ensures
            info == self.info(),
    {
        self.component_info
    }

    /// The bytes of the column.
    pub fn get_slice(&self) -> (bytes: &[u8])
        ensures
            bytes@ == self.raw(),
    {
        self.array.as_slice()
    }

    /// Grows the column to `new_length` slots. The bytes of the old slots are
    /// copied as they are; the new slots are zeroed, hence empty.
    pub fn resize(&mut self, new_length: usize)
        requires
            old(self).wf(),
            new_length > old(self).len(),
            new_length * old(self).info().stride <= usize::MAX,
        ensures
            final(self).wf(),
            final(self).len() == new_length,
            final(self).grown_from(old(self)),
    {
        let stride: usize = self.component_info.stride;
        let old_total: usize = self.array.len();
        let new_total: usize = new_length * stride;
        proof {
            assert(old_total <= new_total && new_total - old_total == (new_length - self.length)
                * stride) by (nonlinear_arith)
                requires
                    old_total == self.length * stride,
                    new_total == new_length * stride,
                    self.length < new_length,
                    0 <= stride,
            ;
        }
        let mut new_array = vec![0u8; new_total];
        let mut k: usize = 0;
        while k < old_total
            invariant
                k <= old_total <= new_total,
                old_total == self.array@.len(),
                new_array@.len() == new_total,
                forall|j: int| 0 <= j < k ==> new_array@[j] == self.array@[j],
                forall|j: int| k <= j < new_total ==> new_array@[j] == 0u8,
            decreases old_total - k,
        {
            new_array[k] = self.array[k];
            k += 1;
        }
        proof {
            assert(new_array@ =~= self.array@ + Seq::new(
                (new_total - old_total) as nat,
                |k: int| 0u8,
            ));
        }
        self.array = new_array;
        self.length = new_length;
        proof {
            let info = self.component_info;
            assert forall|index: int|
                0 <= index < old(self).len()
                implies #[trigger] self.slot(index) == old(self).slot(index) by {
                lemma_slot_bounds(info, old(self).length as int, index);
                lemma_slot_of_same_bytes(self.array@, old(self).array@, info, index);
            }
            assert forall|index: int|
                old(self).len() <= index < new_length
                implies #[trigger] self.slot(index) is Empty by {
                lemma_slot_bounds(info, new_length as int, index);
                let old_length = old(self).length;
                assert(index * stride >= old_total) by (nonlinear_arith)
                    requires
                        index >= old_length,
                        old_total == old_length * stride,
                        0 <= stride,
                ;
            }
        }
    }

    /// Whether the slot at `index` holds a value.
    pub fn is_filled(&self, index: usize) -> (filled: bool)
        requires
            self.wf(),
            index < self.len(),
        ensures
            filled == (self.slot(index as int) is Filled),
    {
        proof {
            self.lemma_slot_inside(index as int);
        }
        self.array[index * self.component_info.stride] != 0
    }

    /// The slot at `index`, with the payload as it lies in the column.
    pub fn get(&self, index: usize) -> (slot: Slot<&[u8]>)
        requires
            self.wf(),
            index < self.len(),
        ensures
            slot@ == self.slot(index as int),
    {
        proof {
            self.lemma_slot_inside(index as int);
        }
        let start: usize = index * self.component_info.stride;
        if self.array[start] == 0 {
            Slot::Empty
        } else {
            let end: usize = start + 1 + self.component_info.size;
            Slot::Filled(slice_subrange(self.array.as_slice(), start + 1, end))
        }
    }

    /// The slot at `index`, with the payload open for writing in place.
    ///
    /// A slice keeps its length whatever is written through it; of a payload
    /// that has kept its length, the column holds the final bytes.
    pub fn get_mut(&mut self, index: usize) -> (slot: Slot<&mut [u8]>)
        requires
            old(self).wf(),
            index < old(self).len(),
        ensures
            final(self).info() == old(self).info(),
            final(self).len() == old(self).len(),
            match slot {
                Slot::Empty => {
                    &&& old(self).slot(index as int) is Empty
                    &&& final(self).wf()
                    &&& final(self).raw() == old(self).raw()
                },
                Slot::Filled(payload) => {
                    &&& old(self).slot(index as int) == Slot::Filled(payload@)
                    &&& final(payload)@.len() == payload@.len() ==> {
                        &&& final(self).wf()
                        &&& final(self).same_but_at(old(self), index as int)
                        &&& final(self).slot(index as int) == Slot::Filled(final(payload)@)
                        &&& final(self).raw() == replaced_payload(
                            old(self).raw(),
                            old(self).info(),
                            index as int,
                            final(payload)@,
                        )
                    }
                },
            },
    {
        proof {
            self.lemma_slot_inside(index as int);
        }
        let start: usize = index * self.component_info.stride;
        let size: usize = self.component_info.size;
        if self.array[start] == 0 {
            Slot::Empty
        } else {
            let whole = self.array.as_mut_slice();
            let (head, rest) = whole.split_at_mut(start + 1);
            let (payload, tail) = rest.split_at_mut(size);
            proof {
                let raw = old(self).array@;
                assert(payload@ =~= raw.subrange(start + 1, start + 1 + size));
                assert(tail@ =~= raw.subrange(start + 1 + size, raw.len() as int));
                lemma_replaced_payload(
                    raw,
                    self.component_info,
                    self.length as int,
                    index as int,
                    final(payload)@,
                );
                assert(head@ =~= raw.subrange(0, start + 1));
                assert(head@ + (final(payload)@ + tail@) =~= replaced_payload(
                    raw,
                    self.component_info,
                    index as int,
                    final(payload)@,
                ));
            }
            Slot::Filled(payload)
        }
    }

    /// A copy of what the slot at `index` holds.
    fn copied(&self, index: usize) -> (slot: Slot<Vec<u8>>)
        requires
            self.wf(),
            index < self.len(),
        ensures
            slot@ == self.slot(index as int),
    {
        match self.get(index) {
            Slot::Filled(payload) => Slot::Filled(slice_to_vec(payload)),
            Slot::Empty => Slot::Empty,
        }
    }

    /// Empties the slot at `index` and zeroes all its bytes. The value that
    /// the slot held is released to the caller, who alone may now dispose of it.
    pub fn delete_index(&mut self, index: usize) -> (released: Slot<Vec<u8>>)
        requires
            old(self).wf(),
            index < old(self).len(),
        ensures
            final(self).wf(),
            final(self).emptied_at(old(self), index as int),
            released@ == old(self).slot(index as int),
    {
        let released = self.copied(index);
        let stride: usize = self.component_info.stride;
        proof {
            self.lemma_slot_inside(index as int);
        }
        let start: usize = index * stride;
        let mut k: usize = 0;
        while k < stride
            invariant
                k <= stride,
                start + stride <= self.array@.len() <= usize::MAX,
                self.array@.len() == old(self).array@.len(),
                self.length == old(self).length,
                self.component_info == old(self).component_info,
                forall|j: int| start <= j < start + k ==> self.array@[j] == 0u8,
                forall|j: int|
                    0 <= j < self.array@.len() && !(start <= j < start + k) ==> self.array@[j]
                        == old(self).array@[j],
            decreases stride - k,
        {
            self.array[start + k] = 0u8;
            k += 1;
        }
        proof {
            let info = self.component_info;
            assert(self.array@ =~= zeroed_slot(old(self).array@, info, index as int));
            assert forall|other: int|
                0 <= other < old(self).len() && other != index implies #[trigger] self.slot(other)
                == old(self).slot(other) by {
                lemma_slot_bounds(info, self.length as int, other);
                lemma_slots_apart(info, index as int, other);
                lemma_slot_of_same_bytes(self.array@, old(self).array@, info, other);
            }
        }
        released
    }

    /// Fills the slot at `index` with `payload`. The value that the slot held
    /// before is released to the caller.
    pub fn insert(&mut self, index: usize, payload: &[u8]) -> (released: Slot<Vec<u8>>)
        requires
            old(self).wf(),
            index < old(self).len(),
            payload@.len() == old(self).info().size,
        ensures
            final(self).wf(),
            final(self).same_but_at(old(self), index as int),
            final(self).slot(index as int) == Slot::Filled(payload@),
            final(self).raw() == filled_slot(
                old(self).raw(),
                old(self).info(),
                index as int,
                payload@,
            ),
            released@ == old(self).slot(index as int),
    {
        let released = self.copied(index);
        let size: usize = self.component_info.size;
        proof {
            self.lemma_slot_inside(index as int);
        }
        let start: usize = index * self.component_info.stride;
        self.array[start] = 1u8;
        let mut k: usize = 0;
        while k < size
            invariant
                k <= size,
                size == payload@.len(),
                start + 1 + size <= self.array@.len() <= usize::MAX,
                self.array@.len() == old(self).array@.len(),
                self.length == old(self).length,
                self.component_info == old(self).component_info,
                self.array@[start as int] == 1u8,
                forall|j: int| start < j <= start + k ==> self.array@[j] == payload@[j - start - 1],
                forall|j: int|
                    0 <= j < self.array@.len() && !(start <= j <= start + k) ==> self.array@[j]
                        == old(self).array@[j],
            decreases size - k,
        {
            self.array[start + 1 + k] = payload[k];
            k += 1;
        }
        proof {
            let info = self.component_info;
            assert(self.array@ =~= filled_slot(old(self).array@, info, index as int, payload@));
            assert(self.array@.subrange(start + 1, start + 1 + size) =~= payload@);
            assert forall|other: int|
                0 <= other < old(self).len() && other != index implies #[trigger] self.slot(other)
                == old(self).slot(other) by {
                lemma_slot_bounds(info, self.length as int, other);
                lemma_slots_apart(info, index as int, other);
                lemma_slot_of_same_bytes(self.array@, old(self).array@, info, other);
            }
        }
        released
    }

    /// The values that the slots before `upto` hold, in the order of the
    /// slots.
    pub open spec fn held_before(&self, upto: int) -> Seq<Seq<u8>>
        decreases upto,
    {
        if upto <= 0 {
            Seq::empty()
        } else {
            match self.slot(upto - 1) {
                Slot::Filled(payload) => self.held_before(upto - 1).push(payload),
                Slot::Empty => self.held_before(upto - 1),
            }
        }
    }

    /// Empties every slot and zeroes the column, as is due before the column
    /// is given up. The values that the slots held are released to the
    /// caller, each once and in the order of the slots.
    pub fn clear(&mut self) -> (released: Vec<Vec<u8>>)
        requires
            old(self).wf(),
        ensures
            final(self).wf(),
            final(self).emptied(old(self)),
            payload_views(released@) == old(self).held_before(old(self).len() as int),
    {
        let mut released: Vec<Vec<u8>> = Vec::new();
        let mut index: usize = 0;
        while index < self.length
            invariant
                index <= self.length,
                self.wf(),
                self.component_info == old(self).component_info,
                self.length == old(self).length,
                payload_views(released@) == old(self).held_before(index as int),
                self.array@.len() == old(self).array@.len(),
                forall|k: int|
                    0 <= k < index * self.component_info.stride ==> self.array@[k] == 0u8,
                forall|done: int| 0 <= done < index ==> #[trigger] self.slot(done) is Empty,
                forall|other: int|
                    index <= other < self.length ==> #[trigger] self.slot(other) == old(self).slot(
                        other,
                    ),
            decreases self.length - index,
        {
            let ghost before = payload_views(released@);
            proof {
                self.lemma_slot_inside(index as int);
                lemma_zeroed_next(self.array@, self.component_info, index as int);
            }
            match self.delete_index(index) {
                Slot::Filled(payload) => {
                    released.push(payload);
                    proof {
                        assert(payload_views(released@) =~= before.push(payload@));
                    }
                },
                Slot::Empty => {},
            }
            index += 1;
        }
        proof {
            assert(self.array@ =~= Seq::new(old(self).array@.len(), |k: int| 0u8));
        }
        released
    }
}

} // verus!
