//! Component types, their layout metadata and the registry that collects it.
use crate::index::IdTable;
use vstd::layout::{align_of, layout_for_type_is_valid, size_of};
use vstd::prelude::*;

verus! {

/// The key under which a component type is registered.
pub type ComponentID = u64;

/// A plain value type that can be attached to an entity.
///
/// The store only needs the size and alignment of such a type, which it reads
/// from the type itself; the values travel as payload bytes.
pub trait Component: Sized + 'static {

}

/// The size of one slot: the smallest multiple of `align` that holds one tag
/// byte followed by `size` payload bytes.
pub open spec fn stride_for(size: nat, align: nat) -> nat {
    ((size / align) + 1) * align
}

/// A stride leaves room for the tag and the payload, is a multiple of the
/// alignment, and no smaller multiple of the alignment would do.
pub proof fn lemma_stride_for(size: nat, align: nat)
    requires
        align > 0,
    ensures
        stride_for(size, align) >= 1 + size,
        stride_for(size, align) % align == 0,
        stride_for(size, align) <= size + align,
        forall|m: nat|
            (#[trigger] (m % align)) == 0 && m >= 1 + size ==> m >= stride_for(size, align),
{
    let q = size / align;
    assert(size == align * q + size % align && 0 <= size % align < align) by {
        vstd::arithmetic::div_mod::lemma_fundamental_div_mod(size as int, align as int);
        vstd::arithmetic::div_mod::lemma_mod_bound(size as int, align as int);
    }
    assert((q + 1) * align == align * q + align) by (nonlinear_arith);
    assert(((q + 1) * align) % align == 0) by {
        vstd::arithmetic::div_mod::lemma_mod_multiples_basic((q + 1) as int, align as int);
    }
    assert forall|m: nat| (#[trigger] (m % align)) == 0 && m >= 1 + size implies m >= stride_for(
        size,
        align,
    ) by {
        let k = m / align;
        vstd::arithmetic::div_mod::lemma_fundamental_div_mod(m as int, align as int);
        assert(m == align * k);
        if k <= q {
            assert(align * k <= align * q) by (nonlinear_arith)
                requires
                    k <= q,
                    align > 0,
            ;
        } else {
            assert(align * k >= align * (q + 1)) by (nonlinear_arith)
                requires
                    k >= q + 1,
                    align > 0,
            ;
            assert(align * (q + 1) == (q + 1) * align) by (nonlinear_arith);
        }
    }
}

/// Layout metadata of one component type.
///
/// The metadata holds no destructor: the store releases every value that a
/// slot gives up to the caller, who disposes of it.
#[derive(Clone, Copy)]
pub struct ComponentInfo {
    /// Size in bytes of one component value.
    pub size: usize,
    /// Alignment in bytes that a component value asks for.
    pub align: usize,
    /// Size in bytes of one slot: the tag byte, the payload and the padding.
    pub stride: usize,
}

impl ComponentInfo {
    /// The alignment is not zero and the stride is the one that belongs to the
    /// size and the alignment.
    pub open spec fn wf(&self) -> bool {
        &&& self.align > 0
        &&& self.stride == stride_for(self.size as nat, self.align as nat)
    }

    /// The metadata of the type `C`.
    pub fn new<C: Component>() -> (info: Self)
        ensures
            info.wf(),
            info.size == size_of::<C>(),
            info.align == align_of::<C>(),
    {
        layout_for_type_is_valid::<C>();
        let size: usize = core::mem::size_of::<C>();
        let align: usize = core::mem::align_of::<C>();
        proof {
            lemma_stride_for(size as nat, align as nat);
            assert(size + align <= usize::MAX) by {
                if align <= isize::MAX {
                } else {
                    assert(isize::MAX as int % align as int == isize::MAX as int) by {
                        vstd::arithmetic::div_mod::lemma_small_mod(isize::MAX as nat, align as nat);
                    }
                }
            }
        }
        let stride: usize = (size / align + 1) * align;
        ComponentInfo { size, align, stride }
    }

    /// The metadata for values of `size` bytes aligned to `align` bytes, unless
    /// the alignment is zero or the stride does not fit the machine word.
    pub fn from_layout(size: usize, align: usize) -> (info: Option<Self>)
        ensures
            info.is_some() <==> align > 0 && stride_for(size as nat, align as nat) <= usize::MAX,
            info matches Some(i) ==> i.wf() && i.size == size && i.align == align,
    {
        if align == 0 {
            return None;
        }
        match (size / align).checked_add(1) {
            Some(count) => match count.checked_mul(align) {
                Some(stride) => Some(ComponentInfo { size, align, stride }),
                None => None,
            },
            None => {
                proof {
                    assert((usize::MAX + 1) * align >= usize::MAX + 1) by (nonlinear_arith)
                        requires
                            align >= 1,
                    ;
                }
                None
            },
        }
    }
}

/// The component types that a store is to be built with, in the order of
/// their registration.
pub struct ComponentRegistry {
    table: IdTable,
    infos: Vec<ComponentInfo>,
}

impl ComponentRegistry {
    /// The registered types with their metadata, in the order of registration.
    pub closed spec fn view(&self) -> Seq<(ComponentID, ComponentInfo)> {
        Seq::new(self.infos@.len(), |p: int| (self.table@[p], self.infos@[p]))
    }

    /// Every identifier has its metadata, and the metadata is well formed.
    pub closed spec fn wf(&self) -> bool {
        &&& self.table.wf()
        &&& self.table@.len() == self.infos@.len()
        &&& forall|p: int| 0 <= p < self.infos@.len() ==> (#[trigger] self.infos@[p]).wf()
    }

    /// Whether a type is registered under `id`.
    pub open spec fn contains(&self, id: ComponentID) -> bool {
        exists|p: int| 0 <= p < self@.len() && (#[trigger] self@[p]).0 == id
    }

    /// No identifier is registered twice, and all metadata is well formed.
    pub proof fn lemma_distinct(&self)
        requires
            self.wf(),
        ensures
            forall|p: int, q: int|
                0 <= p < self@.len() && 0 <= q < self@.len() && (#[trigger] self@[p]).0 == (
                #[trigger] self@[q]).0 ==> p == q,
            forall|p: int| 0 <= p < self@.len() ==> (#[trigger] self@[p]).1.wf(),
    {
        self.table.lemma_no_duplicates();
    }

    /// A registry without any type.
    pub fn new() -> (registry: Self)
        ensures
            registry.wf(),
            registry@.len() == 0,
    {
        ComponentRegistry { table: IdTable::new(), infos: Vec::new() }
    }

    /// Registers `info` under `id`. A type that is already registered under
    /// `id` keeps its metadata.
    pub fn register_info(&mut self, id: ComponentID, info: ComponentInfo)
        requires
            old(self).wf(),
            info.wf(),
        ensures
            final(self).wf(),
            old(self).contains(id) ==> final(self)@ == old(self)@,
            !old(self).contains(id) ==> final(self)@ == old(self)@.push((id, info)),
    {
        match self.table.position(id) {
            Some(position) => {
                assert(self@[position as int].0 == id);
            },
            None => {
                proof {
                    assert forall|p: int| 0 <= p < self@.len() implies (#[trigger] self@[p]).0
                        != id by {
                        assert(self.table@.contains(self.table@[p]));
                    }
                }
                let _ = self.table.push(id);
                self.infos.push(info);
                assert(self@ =~= old(self)@.push((id, info)));
            },
        }
    }

    /// Registers the type `C` under `id`. A type that is already registered
    /// under `id` keeps its metadata.
    pub fn register<C: Component>(&mut self, id: ComponentID)
        requires
            old(self).wf(),
        ensures
            final(self).wf(),
            old(self).contains(id) ==> final(self)@ == old(self)@,
            !old(self).contains(id) ==> final(self)@.len() == old(self)@.len() + 1
                && final(self)@.drop_last() == old(self)@
                && final(self)@.last().0 == id
                && final(self)@.last().1.wf()
                && final(self)@.last().1.size == size_of::<C>()
                && final(self)@.last().1.align == align_of::<C>(),
    {
        let info = ComponentInfo::new::<C>();
        self.register_info(id, info);
        proof {
            if !old(self).contains(id) {
                assert(self@.drop_last() =~= old(self)@);
            }
        }
    }

    /// The number of registered types.
    pub fn len(&self) -> (n: usize)
        ensures
            n == self@.len(),
    {
        self.infos.len()
    }

    /// The identifier and the metadata of the type registered at `position`.
    pub fn entry(&self, position: usize) -> (entry: (ComponentID, ComponentInfo))
        requires
            self.wf(),
            position < self@.len(),
        ensures
            entry == self@[position as int],
    {
        (self.table.id_at(position), self.infos[position])
    }
}

} // verus!
