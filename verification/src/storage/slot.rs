//! Slots: what one cell of a column holds, and how it lies in the column's
//! bytes.
//!
//! A slot is one tag byte followed by the payload bytes of one component
//! value and by padding up to the stride. A tag of zero marks an empty slot,
//! so that a freshly zeroed column holds nothing.
use crate::component::{lemma_stride_for, ComponentInfo};
use vstd::prelude::*;

verus! {

/// What one slot of a column holds: nothing, or one component value.
#[derive(Debug, PartialEq, Eq)]
pub enum Slot<C> {
    Empty,
    Filled(C),
}

impl<C: View> View for Slot<C> {
    type V = Slot<C::V>;

    open spec fn view(&self) -> Slot<C::V> {
        match *self {
            Slot::Empty => Slot::Empty,
            Slot::Filled(component) => Slot::Filled(component@),
        }
    }
}

impl<C> Slot<C> {
    /// Whether the slot holds a value.
    pub fn is_filled(&self) -> (filled: bool)
        ensures
            filled == (*self is Filled),
    {
        match self {
            Slot::Empty => false,
            Slot::Filled(_) => true,
        }
    }

    /// The value that the slot holds, if it holds one.
    pub fn as_option(&self) -> (value: Option<&C>)
        ensures
            value == (match *self {
                Slot::Empty => None,
                Slot::Filled(component) => Some(&component),
            }),
    {
        match self {
            Slot::Empty => None,
            Slot::Filled(component) => Some(component),
        }
    }

    /// The value that the slot holds, if it holds one, for writing.
    pub fn as_option_mut(&mut self) -> (value: Option<&mut C>)
        ensures
            match value {
                Some(component) => {
                    &&& *old(self) == Slot::Filled(*component)
                    &&& *final(self) == Slot::Filled(*final(component))
                },
                None => *old(self) == Slot::<C>::Empty && *final(self) == Slot::<C>::Empty,
            },
    {
        match self {
            Slot::Empty => None,
            Slot::Filled(component) => Some(component),
        }
    }
}

/// The slot at `index` of a column with the bytes `raw`.
pub open spec fn slot_of(raw: Seq<u8>, info: ComponentInfo, index: int) -> Slot<Seq<u8>> {
    if raw[index * info.stride] == 0 {
        Slot::Empty
    } else {
        Slot::Filled(raw.subrange(index * info.stride + 1, index * info.stride + 1 + info.size))
    }
}

/// `raw` with the `stride` bytes of the slot at `index` set to zero.
pub open spec fn zeroed_slot(raw: Seq<u8>, info: ComponentInfo, index: int) -> Seq<u8> {
    Seq::new(
        raw.len(),
        |k: int|
            if index * info.stride <= k < index * info.stride + info.stride {
                0u8
            } else {
                raw[k]
            },
    )
}

/// `raw` with the slot at `index` tagged as filled and holding `payload`.
pub open spec fn filled_slot(
    raw: Seq<u8>,
    info: ComponentInfo,
    index: int,
    payload: Seq<u8>,
) -> Seq<u8> {
    Seq::new(
        raw.len(),
        |k: int|
            if k == index * info.stride {
                1u8
            } else if index * info.stride < k <= index * info.stride + info.size {
                payload[k - index * info.stride - 1]
            } else {
                raw[k]
            },
    )
}

/// The slot at `index` lies inside a column of `length` slots, and its tag
/// and payload lie inside the slot.
pub proof fn lemma_slot_bounds(info: ComponentInfo, length: int, index: int)
    requires
        info.wf(),
        0 <= index < length,
    ensures
        0 <= index * info.stride,
        index * info.stride + info.stride <= length * info.stride,
        1 + info.size <= info.stride,
{
    lemma_stride_for(info.size as nat, info.align as nat);
    let stride = info.stride as int;
    assert(0 <= index * stride && index * stride + stride <= length * stride) by (nonlinear_arith)
        requires
            0 <= index < length,
            0 <= stride,
    ;
}

/// Two different slots share no byte.
pub proof fn lemma_slots_apart(info: ComponentInfo, index: int, other: int)
    requires
        0 <= index,
        0 <= other,
        index != other,
    ensures
        index < other ==> index * info.stride + info.stride <= other * info.stride,
        other < index ==> other * info.stride + info.stride <= index * info.stride,
{
    let stride = info.stride as int;
    if index < other {
        assert(index * stride + stride <= other * stride) by (nonlinear_arith)
            requires
                index + 1 <= other,
                0 <= stride,
        ;
    } else {
        assert(other * stride + stride <= index * stride) by (nonlinear_arith)
            requires
                other + 1 <= index,
                0 <= stride,
        ;
    }
}

/// Columns that agree on the bytes of a slot agree on the slot.
pub proof fn lemma_slot_of_same_bytes(a: Seq<u8>, b: Seq<u8>, info: ComponentInfo, index: int)
    requires
        info.wf(),
        0 <= index,
        index * info.stride + info.stride <= a.len(),
        index * info.stride + info.stride <= b.len(),
        forall|k: int|
            index * info.stride <= k < index * info.stride + info.stride ==> a[k] == b[k],
    ensures
        slot_of(a, info, index) == slot_of(b, info, index),
{
    lemma_stride_for(info.size as nat, info.align as nat);
    let start = index * info.stride;
    assert(0 <= start) by (nonlinear_arith)
        requires
            0 <= index,
            0 <= info.stride,
            start == index * info.stride,
    ;
    assert(a[start] == b[start]);
    let end = start + 1 + info.size;
    assert(a.subrange(start + 1, end) =~= b.subrange(start + 1, end));
}

/// Zeroing the slot that follows slots of zero bytes leaves one more slot of
/// zero bytes.
pub proof fn lemma_zeroed_next(raw: Seq<u8>, info: ComponentInfo, index: int)
    requires
        0 <= index,
        index * info.stride + info.stride <= raw.len(),
        forall|k: int| 0 <= k < index * info.stride ==> raw[k] == 0u8,
    ensures
        (index + 1) * info.stride == index * info.stride + info.stride,
        forall|k: int|
            0 <= k < (index + 1) * info.stride ==> #[trigger] zeroed_slot(raw, info, index)[k]
                == 0u8,
{
    let stride = info.stride as int;
    assert((index + 1) * stride == index * stride + stride) by (nonlinear_arith);
    assert(0 <= index * stride) by (nonlinear_arith)
        requires
            0 <= index,
            0 <= stride,
    ;
}

/// `raw` with the payload of the slot at `index` replaced by `payload`.
pub open spec fn replaced_payload(
    raw: Seq<u8>,
    info: ComponentInfo,
    index: int,
    payload: Seq<u8>,
) -> Seq<u8> {
    let start = index * info.stride + 1;
    raw.subrange(0, start) + payload + raw.subrange(start + info.size, raw.len() as int)
}

/// Replacing the payload of a filled slot by one of the same size changes
/// that slot's value and nothing else.
pub proof fn lemma_replaced_payload(
    raw: Seq<u8>,
    info: ComponentInfo,
    length: int,
    index: int,
    payload: Seq<u8>,
)
    requires
        info.wf(),
        raw.len() == length * info.stride,
        0 <= index < length,
        raw[index * info.stride] != 0,
    ensures
        payload.len() == info.size ==> {
            let replaced = replaced_payload(raw, info, index, payload);
            &&& replaced.len() == raw.len()
            &&& slot_of(replaced, info, index) == Slot::Filled(payload)
            &&& forall|other: int|
                0 <= other < length && other != index ==> #[trigger] slot_of(replaced, info, other)
                    == slot_of(raw, info, other)
        },
{
    if payload.len() == info.size {
        let replaced = replaced_payload(raw, info, index, payload);
        let start = index * info.stride;
        lemma_slot_bounds(info, length, index);
        assert(replaced.subrange(start + 1, start + 1 + info.size) =~= payload);
        assert forall|other: int| 0 <= other < length && other != index implies #[trigger] slot_of(
            replaced,
            info,
            other,
        ) == slot_of(raw, info, other) by {
            lemma_slot_bounds(info, length, other);
            lemma_slots_apart(info, index, other);
            lemma_slot_of_same_bytes(replaced, raw, info, other);
        }
    }
}

/// Released payloads as specification values.
pub open spec fn payload_views(released: Seq<Vec<u8>>) -> Seq<Seq<u8>> {
    released.map_values(|payload: Vec<u8>| payload@)
}

} // verus!
