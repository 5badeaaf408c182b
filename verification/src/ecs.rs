//! The store itself: the entity table and the component columns behind one
//! capacity.
use crate::component::{stride_for, Component, ComponentID, ComponentInfo, ComponentRegistry};
use crate::entity::{
    alive_count, first_free, fresh_record, is_free, lemma_alive_count_bound,
    lemma_alive_count_fresh, lemma_alive_count_update, none_free, Entity, EntityID,
};
use crate::storage::map::{held_anywhere, released_views};
use crate::storage::{ComponentArray, ComponentMap, Slot};
use vstd::layout::{align_of, size_of};
use vstd::prelude::*;

verus! {

/// A growth policy: the capacity that a full store of `capacity` entities
/// should grow to.
pub trait GrowFn {
    /// The capacity to grow to. The store grows only to a capacity that is
    /// larger than the present one, whatever the policy answers.
    fn grow(&self, capacity: usize) -> usize;
}

/// Whether `answer` is a capacity that `policy` can give when it is asked
/// about a store of `capacity` entities.
pub open spec fn answers<P: GrowFn + ?Sized>(policy: &P, capacity: usize, answer: usize) -> bool {
    call_ensures(P::grow, (policy, capacity), answer)
}

/// Asks `policy` about a store of `capacity` entities.
fn ask<P: GrowFn + ?Sized>(policy: &P, capacity: usize) -> (answer: usize)
    ensures
        answers(policy, capacity, answer),
{
    policy.grow(capacity)
}

/// An entity-component store.
pub struct ECS {
    scene_id: u64,
    capacity: usize,
    entity_count: usize,
    grow_fn: Option<Box<dyn GrowFn>>,
    entities: Vec<Entity>,
    components: ComponentMap,
}

impl ECS {
    /// The identity of the store, which every handle it issues carries.
    pub closed spec fn scene(&self) -> u64 {
        self.scene_id
    }

    /// The number of entity records, and of slots in every column.
    pub closed spec fn capacity(&self) -> nat {
        self.capacity as nat
    }

    /// The number of living entities, as the store counts them.
    pub closed spec fn entity_count(&self) -> nat {
        self.entity_count as nat
    }

    /// The entity table.
    pub closed spec fn records(&self) -> Seq<Entity> {
        self.entities@
    }

    /// The component columns.
    pub closed spec fn storage(&self) -> ComponentMap {
        self.components
    }

    /// The growth policy, if one is installed.
    pub closed spec fn policy(&self) -> Option<Box<dyn GrowFn>> {
        self.grow_fn
    }

    /// Whether a growth policy is installed.
    pub open spec fn has_policy(&self) -> bool {
        self.policy() is Some
    }

    /// Whether `answer` is a capacity that the installed policy can give when
    /// it is asked about the present capacity.
    pub open spec fn policy_answers(&self, answer: usize) -> bool {
        match self.policy() {
            Some(policy) => answers::<dyn GrowFn>(&*policy, self.capacity() as usize, answer),
            None => false,
        }
    }

    /// Whether a component type is registered under `id`.
    pub open spec fn registered(&self, id: ComponentID) -> bool {
        self.storage().contains(id)
    }

    /// The metadata of the component type registered under `id`.
    pub open spec fn info(&self, id: ComponentID) -> ComponentInfo {
        self.storage().column(id).info()
    }

    /// What the entity index `index` holds of the component type registered
    /// under `id`.
    pub open spec fn slot(&self, id: ComponentID, index: int) -> Slot<Seq<u8>> {
        self.storage().column(id).slot(index)
    }

    /// Whether `entity` names a living entity of this store: the handle was
    /// issued by this store, its index is in bounds, and the record there is
    /// alive in the handle's generation.
    pub open spec fn valid(&self, entity: EntityID) -> bool {
        &&& entity.scene_id == self.scene()
        &&& entity.index < self.capacity()
        &&& self.records()[entity.index as int].alive
        &&& self.records()[entity.index as int].generation == entity.generation
    }

    /// The component of the type registered under `id` that the entity named
    /// by `entity` holds. A handle that is not valid and a type that is not
    /// registered hold nothing.
    pub open spec fn component(&self, entity: EntityID, id: ComponentID) -> Option<Seq<u8>> {
        if self.valid(entity) && self.registered(id) {
            match self.slot(id, entity.index as int) {
                Slot::Filled(payload) => Some(payload),
                Slot::Empty => None,
            }
        } else {
            None
        }
    }

    /// Whether a handle that was valid once can never be valid again: its
    /// record has died in the handle's generation or has gone on to a later
    /// one.
    pub open spec fn stale(&self, entity: EntityID) -> bool {
        &&& entity.scene_id == self.scene()
        &&& entity.index < self.capacity()
        &&& {
            ||| self.records()[entity.index as int].generation > entity.generation
            ||| self.records()[entity.index as int].generation == entity.generation
                && !self.records()[entity.index as int].alive
        }
    }

    /// The entity table and every column have `capacity` entries, the count
    /// of living entities is right, and only living entities hold components.
    pub closed spec fn wf(&self) -> bool {
        &&& self.tables_wf()
        &&& self.entity_count == alive_count(self.entities@)
    }

    /// Well-formedness but for the count of living entities.
    closed spec fn tables_wf(&self) -> bool {
        &&& self.entities@.len() == self.capacity
        &&& self.components.wf()
        &&& self.components.len() == self.capacity
        &&& forall|index: int|
            0 <= index < self.capacity && (#[trigger] self.entities@[index]).alive
                ==> self.entities@[index].generation >= 1
        &&& forall|index: int, p: int|
            0 <= index < self.capacity && !self.entities@[index].alive && 0 <= p
                < self.components.columns().len() ==> (#[trigger] self.components.columns()[p].slot(
                index,
            )) is Empty
    }

    /// What well-formedness means in terms of the public notions.
    pub proof fn lemma_wf(&self)
        requires
            self.wf(),
        ensures
            self.capacity() <= usize::MAX,
            self.records().len() == self.capacity(),
            self.storage().wf(),
            self.storage().len() == self.capacity(),
            self.entity_count() == alive_count(self.records()),
            self.entity_count() <= self.capacity(),
            forall|index: int|
                0 <= index < self.capacity() && (#[trigger] self.records()[index]).alive
                    ==> self.records()[index].generation >= 1,
            forall|id: ComponentID, index: int|
                self.registered(id) && 0 <= index < self.capacity() && !self.records()[index].alive
                    ==> (#[trigger] self.slot(id, index)) is Empty,
    {
        lemma_alive_count_bound(self.entities@);
        self.components.lemma_wf();
    }

    /// Whether the same component types are registered as in `before`, in the
    /// same order and with the same metadata.
    pub open spec fn same_types(&self, before: &ECS) -> bool {
        &&& self.storage().ids() == before.storage().ids()
        &&& forall|id: ComponentID|
            before.registered(id) ==> #[trigger] self.info(id) == before.info(id)
    }

    /// Whether every slot that `before` has holds the same in `self`.
    pub open spec fn same_components(&self, before: &ECS) -> bool {
        &&& self.same_types(before)
        &&& forall|id: ComponentID, index: int|
            before.registered(id) && 0 <= index < before.capacity() ==> #[trigger] self.slot(
                id,
                index,
            ) == before.slot(id, index)
    }

    /// Whether every slot that `before` has, but those of the entity index
    /// `index`, holds the same in `self`.
    pub open spec fn same_components_but_at(&self, before: &ECS, index: int) -> bool {
        &&& self.same_types(before)
        &&& forall|id: ComponentID, other: int|
            before.registered(id) && 0 <= other < before.capacity() && other != index
                ==> #[trigger] self.slot(id, other) == before.slot(id, other)
    }

    /// Whether every slot that `before` has, but the one of the type `id` at
    /// the entity index `index`, holds the same in `self`.
    pub open spec fn same_components_but(&self, before: &ECS, id: ComponentID, index: int) -> bool {
        &&& self.same_types(before)
        &&& forall|other_id: ComponentID, other: int|
            before.registered(other_id) && 0 <= other < before.capacity() && !(other_id == id
                && other == index) ==> #[trigger] self.slot(other_id, other) == before.slot(
                other_id,
                other,
            )
    }

    /// Whether `self` is `before` with one more type, registered under `id`,
    /// of which no entity holds a component yet.
    pub open spec fn with_type(&self, before: &ECS, id: ComponentID) -> bool {
        &&& self.storage().ids() == before.storage().ids().push(id)
        &&& forall|index: int|
            0 <= index < before.capacity() ==> (#[trigger] self.slot(id, index)) is Empty
        &&& forall|other: ComponentID|
            before.registered(other) ==> #[trigger] self.info(other) == before.info(other)
        &&& forall|other: ComponentID, index: int|
            before.registered(other) && 0 <= index < before.capacity() ==> #[trigger] self.slot(
                other,
                index,
            ) == before.slot(other, index)
    }

    /// Whether the entity table is as in `before`.
    pub open spec fn same_entities(&self, before: &ECS) -> bool {
        &&& self.scene() == before.scene()
        &&& self.capacity() == before.capacity()
        &&& self.entity_count() == before.entity_count()
        &&& self.records() == before.records()
        &&& self.policy() == before.policy()
    }

    /// Whether nothing that the store's operations can observe differs from
    /// `before`.
    pub open spec fn unchanged(&self, before: &ECS) -> bool {
        self.same_entities(before) && self.same_components(before)
    }

    /// Whether `self` is `before` after the allocation of `handle`: the
    /// first free record is alive in the next generation, and nothing else
    /// has changed.
    pub open spec fn allocated(&self, before: &ECS, handle: EntityID) -> bool {
        &&& first_free(before.records(), handle.index as int)
        &&& handle.scene_id == before.scene()
        &&& handle.generation == before.records()[handle.index as int].generation + 1
        &&& self.records() == before.records().update(
            handle.index as int,
            Entity { alive: true, generation: handle.generation },
        )
        &&& self.scene() == before.scene()
        &&& self.capacity() == before.capacity()
        &&& self.entity_count() == before.entity_count() + 1
        &&& self.policy() == before.policy()
        &&& self.same_components(before)
    }

    /// Whether `self` is `before` after the entity at `index` was destroyed:
    /// the record is dead in its old generation, the index holds no
    /// component, and nothing else has changed.
    pub open spec fn destroyed(&self, before: &ECS, index: int) -> bool {
        &&& self.records() == before.records().update(
            index,
            Entity { alive: false, generation: before.records()[index].generation },
        )
        &&& self.scene() == before.scene()
        &&& self.capacity() == before.capacity()
        &&& self.entity_count() == before.entity_count() - 1
        &&& self.policy() == before.policy()
        &&& self.same_components_but_at(before, index)
        &&& forall|id: ComponentID|
            before.registered(id) ==> (#[trigger] self.slot(id, index)) is Empty
    }

    /// Whether `self` is `before` after growth: there are more records, the
    /// old records and slots are as they were, and the new records were never
    /// allocated and hold no component.
    pub open spec fn grown_from(&self, before: &ECS) -> bool {
        &&& self.scene() == before.scene()
        &&& self.capacity() > before.capacity()
        &&& self.entity_count() == before.entity_count()
        &&& self.policy() == before.policy()
        &&& self.records() == before.records() + Seq::new(
            (self.capacity() - before.capacity()) as nat,
            |i: int| fresh_record(),
        )
        &&& self.same_components(before)
        &&& forall|id: ComponentID, index: int|
            before.registered(id) && before.capacity() <= index < self.capacity() ==> (
            #[trigger] self.slot(id, index)) is Empty
    }

    /// Whether the store can grow to `new_capacity`: the capacity is larger
    /// than the present one, and the machine can address every column at
    /// that length.
    pub open spec fn can_grow_to(&self, new_capacity: nat) -> bool {
        new_capacity > self.capacity() && self.storage().fits(new_capacity)
    }

    /// Whether `self` and `grew` are what comes of trying to grow `before` to
    /// `new_capacity`: the store has grown to that capacity if it could grow
    /// to it; if it could not, nothing has changed.
    pub open spec fn tried_to_grow(&self, before: &ECS, new_capacity: nat, grew: bool) -> bool {
        &&& grew == before.can_grow_to(new_capacity)
        &&& grew ==> self.capacity() == new_capacity && self.grown_from(before)
        &&& !grew ==> self.unchanged(before)
    }

    /// Whether `self` can have come from `before` by the store's operations:
    /// the identity is the same, the capacity is no smaller, no generation
    /// is smaller, and no record has come alive without a larger generation.
    pub open spec fn succeeds(&self, before: &ECS) -> bool {
        &&& self.scene() == before.scene()
        &&& self.capacity() >= before.capacity()
        &&& forall|index: int|
            0 <= index < before.capacity() ==> {
                let now = #[trigger] self.records()[index];
                let then = before.records()[index];
                &&& now.generation >= then.generation
                &&& now.generation == then.generation && now.alive ==> then.alive
            }
    }

    /// A store of `capacity` entity records under the identity `scene_id`,
    /// with no entity alive, no component type registered and no growth
    /// policy.
    ///
    /// Handles of one store are refused by another only if the two differ in
    /// identity: give every store an identity of its own.
    pub fn new(scene_id: u64, capacity: usize) -> (ecs: Self)
        ensures
            ecs.wf(),
            ecs.scene() == scene_id,
            ecs.capacity() == capacity,
            ecs.entity_count() == 0,
            ecs.records() == Seq::new(capacity as nat, |i: int| fresh_record()),
            ecs.storage().ids().len() == 0,
            !ecs.has_policy(),
    {
        let mut entities: Vec<Entity> = Vec::with_capacity(capacity);
        entities.resize(capacity, Entity { alive: false, generation: 0 });
        proof {
            assert(entities@ =~= Seq::new(capacity as nat, |i: int| fresh_record()));
            lemma_alive_count_fresh(Seq::empty(), capacity as nat);
            assert(Seq::<Entity>::empty() + entities@ =~= entities@);
        }
        let components = ComponentMap::new(capacity);
        proof {
            components.lemma_wf();
        }
        ECS { scene_id, capacity, entity_count: 0, grow_fn: None, entities, components }
    }

    /// A store like a new one, with a zeroed column for every type of
    /// `registry`, in the registry's order.
    pub fn from_registry(
        scene_id: u64,
        registry: &ComponentRegistry,
        capacity: usize,
    ) -> (ecs: Self)
        requires
            registry.wf(),
            forall|p: int|
                0 <= p < registry@.len() ==> capacity * (#[trigger] registry@[p]).1.stride
                    <= usize::MAX,
        ensures
            ecs.wf(),
            ecs.scene() == scene_id,
            ecs.capacity() == capacity,
            ecs.entity_count() == 0,
            ecs.records() == Seq::new(capacity as nat, |i: int| fresh_record()),
            !ecs.has_policy(),
            ecs.storage().ids() == Seq::new(registry@.len(), |p: int| registry@[p].0),
            forall|p: int|
                0 <= p < registry@.len() ==> {
                    let (id, info) = #[trigger] registry@[p];
                    ecs.info(id) == info
                },
            forall|id: ComponentID, index: int|
                ecs.registered(id) && 0 <= index < capacity ==> (#[trigger] ecs.slot(
                    id,
                    index,
                )) is Empty,
    {
        let mut ecs = ECS::new(scene_id, capacity);
        let count: usize = registry.len();
        let mut p: usize = 0;
        proof {
            registry.lemma_distinct();
            ecs.lemma_wf();
            ecs.components.lemma_wf();
            assert(ecs.components.ids() =~= Seq::new(0nat, |q: int| registry@[q].0));
        }
        while p < count
            invariant
                p <= count == registry@.len(),
                registry.wf(),
                forall|q: int|
                    0 <= q < registry@.len() ==> capacity * (#[trigger] registry@[q]).1.stride
                        <= usize::MAX,
                ecs.wf(),
                ecs.scene_id == scene_id,
                ecs.capacity == capacity,
                ecs.entity_count == 0,
                ecs.entities@ == Seq::new(capacity as nat, |i: int| fresh_record()),
                ecs.grow_fn is None,
                ecs.components.ids() == Seq::new(p as nat, |q: int| registry@[q].0),
                ecs.components.columns().len() == p,
                forall|q: int|
                    0 <= q < p ==> (#[trigger] ecs.components.columns()[q]).info()
                        == registry@[q].1,
            decreases count - p,
        {
            let (id, info) = registry.entry(p);
            proof {
                registry.lemma_distinct();
                ecs.components.lemma_wf();
                assert(registry@[p as int].1.wf());
                if ecs.components.contains(id) {
                    let q = ecs.components.position(id);
                    assert(registry@[q].0 == registry@[p as int].0);
                }
            }
            let ghost before = ecs.components;
            ecs.components.register(id, info);
            proof {
                let columns = ecs.components.columns();
                assert(ecs.components.ids() =~= Seq::new((p + 1) as nat, |q: int| registry@[q].0));
                assert forall|q: int| 0 <= q < p implies #[trigger] columns[q]
                    == before.columns()[q] by {
                    assert(columns[q] == columns.drop_last()[q]);
                }
                assert forall|index: int, q: int|
                    0 <= index < capacity && 0 <= q < columns.len()
                    implies (#[trigger] columns[q].slot(index)) is Empty by {
                    if q < p {
                        assert(before.columns()[q].slot(index) is Empty);
                    }
                }
            }
            p += 1;
        }
        proof {
            ecs.components.lemma_wf();
            ecs.lemma_wf();
            assert forall|q: int| 0 <= q < registry@.len() implies ecs.info(
                (#[trigger] registry@[q]).0,
            ) == registry@[q].1 by {
                assert(ecs.components.ids()[q] == registry@[q].0);
                assert(ecs.components.position(ecs.components.ids()[q]) == q);
            }
        }
        ecs
    }

    /// Whether a component type is registered under `id`.
    pub fn is_registered(&self, id: ComponentID) -> (registered: bool)
        requires
            self.wf(),
        ensures
            registered == self.registered(id),
    {
        self.components.is_registered(id)
    }

    /// Registers a component type with the metadata `info` under `id` and
    /// gives it a zeroed column. A type that is already registered under `id`
    /// keeps its metadata and its column.
    pub fn register_info(&mut self, id: ComponentID, info: ComponentInfo)
        requires
            old(self).wf(),
            info.wf(),
            !old(self).registered(id) ==> old(self).capacity() * info.stride <= usize::MAX,
        ensures
            final(self).wf(),
            final(self).succeeds(old(self)),
            final(self).same_entities(old(self)),
            final(self).registered(id),
            old(self).registered(id) ==> final(self).unchanged(old(self)),
            !old(self).registered(id) ==> {
                &&& final(self).with_type(old(self), id)
                &&& final(self).info(id) == info
            },
    {
        proof {
            self.components.lemma_wf();
        }
        self.components.register(id, info);
        proof {
            self.components.lemma_wf();
            let ids = self.components.ids();
            let columns = self.components.columns();
            if !old(self).registered(id) {
                assert(ids[ids.len() - 1] == id);
                let columns_before = old(self).components.columns();
                assert forall|p: int| 0 <= p < ids.len() - 1 implies #[trigger] columns[p]
                    == columns_before[p] by {
                    assert(columns[p] == columns.drop_last()[p]);
                }
                let before = old(self).storage();
                assert forall|other: ComponentID|
                    before.contains(other) implies self.storage().column(other) == before.column(
                    other,
                ) by {
                    let q = before.position(other);
                    assert(ids[q] == other);
                }
                assert forall|index: int, p: int|
                    0 <= index < self.capacity && !self.entities@[index].alive && 0 <= p
                        < columns.len() implies (#[trigger] columns[p].slot(index)) is Empty by {
                    if p < columns.len() - 1 {
                        assert(old(self).components.columns()[p].slot(index) is Empty);
                    }
                }
            }
        }
    }

    /// Registers the component type `C` under `id` and gives it a zeroed
    /// column. A type that is already registered under `id` keeps its
    /// metadata and its column.
    pub fn register<C: Component>(&mut self, id: ComponentID)
        requires
            old(self).wf(),
            !old(self).registered(id) ==> old(self).capacity() * stride_for(
                size_of::<C>(),
                align_of::<C>(),
            ) <= usize::MAX,
        ensures
            final(self).wf(),
            final(self).succeeds(old(self)),
            final(self).same_entities(old(self)),
            final(self).registered(id),
            old(self).registered(id) ==> final(self).unchanged(old(self)),
            !old(self).registered(id) ==> {
                &&& final(self).with_type(old(self), id)
                &&& final(self).info(id).wf()
                &&& final(self).info(id).size == size_of::<C>()
                &&& final(self).info(id).align == align_of::<C>()
            },
    {
        let info = ComponentInfo::new::<C>();
        self.register_info(id, info);
    }

    /// The number of entity records.
    pub fn get_capacity(&self) -> (capacity: usize)
        ensures
            capacity == self.capacity(),
    {
        self.capacity
    }

    /// The number of living entities.
    pub fn get_entity_count(&self) -> (count: usize)
        ensures
            count == self.entity_count(),
    {
        self.entity_count
    }

    /// Whether a growth policy is installed.
    pub fn has_grow_fn(&self) -> (installed: bool)
        ensures
            installed == self.has_policy(),
    {
        self.grow_fn.is_some()
    }

    /// The column of the component type registered under `id`.
    pub fn get_array(&self, id: ComponentID) -> (array: &ComponentArray)
        requires
            self.wf(),
            self.registered(id),
        ensures
            *array == self.storage().column(id),
    {
        self.components.get_array(id).unwrap()
    }

    /// Whether `entity` names a living entity of this store.
    pub fn is_valid(&self, entity: &EntityID) -> (valid: bool)
        requires
            self.wf(),
        ensures
            valid == self.valid(*entity),
    {
        if entity.scene_id != self.scene_id {
            return false;
        }
        if entity.index >= self.capacity {
            return false;
        }
        let record = self.entities[entity.index];
        record.alive && record.generation == entity.generation
    }

    /// The handle of the entity that lives at `index`, in the generation that
    /// the entity table has for that index now.
    pub fn get_index(&self, index: usize) -> (entity: Option<EntityID>)
        requires
            self.wf(),
        ensures
            entity.is_some() <==> index < self.capacity() && self.records()[index as int].alive,
            entity matches Some(handle) ==> handle == (EntityID {
                scene_id: self.scene(),
                index,
                generation: self.records()[index as int].generation,
            }),
            entity matches Some(handle) ==> self.valid(handle),
    {
        if index >= self.capacity {
            return None;
        }
        let record = self.entities[index];
        if record.alive {
            Some(EntityID { scene_id: self.scene_id, index, generation: record.generation })
        } else {
            None
        }
    }

    /// Installs or removes the growth policy.
    pub fn set_grow_fn(&mut self, grow: Option<Box<dyn GrowFn>>)
        requires
            old(self).wf(),
        ensures
            final(self).wf(),
            final(self).policy() == grow,
            final(self).scene() == old(self).scene(),
            final(self).capacity() == old(self).capacity(),
            final(self).entity_count() == old(self).entity_count(),
            final(self).records() == old(self).records(),
            final(self).storage() == old(self).storage(),
            final(self).succeeds(old(self)),
    {
        self.grow_fn = grow;
    }

    /// Grows the entity table and every column to `new_capacity`.
    pub fn grow_capacity_to_size(&mut self, new_capacity: usize)
        requires
            old(self).wf(),
            old(self).can_grow_to(new_capacity as nat),
        ensures
            final(self).wf(),
            final(self).capacity() == new_capacity,
            final(self).grown_from(old(self)),
            final(self).succeeds(old(self)),
    {
        proof {
            self.components.lemma_wf();
        }
        self.entities.resize(new_capacity, Entity { alive: false, generation: 0 });
        self.components.resize(new_capacity);
        self.capacity = new_capacity;
        proof {
            self.components.lemma_wf();
            let more = (new_capacity - old(self).capacity) as nat;
            let fresh = Seq::new(more, |i: int| fresh_record());
            assert(self.entities@ =~= old(self).entities@ + fresh);
            lemma_alive_count_fresh(old(self).entities@, more);
        }
    }

    /// Grows the store to `new_capacity` if it can grow to it, and says
    /// whether it did.
    pub fn try_grow_capacity_to_size(&mut self, new_capacity: usize) -> (grew: bool)
        requires
            old(self).wf(),
        ensures
            final(self).wf(),
            final(self).succeeds(old(self)),
            grew == old(self).can_grow_to(new_capacity as nat),
            grew ==> final(self).capacity() == new_capacity && final(self).grown_from(old(self)),
            !grew ==> final(self).unchanged(old(self)),
    {
        if new_capacity > self.capacity && self.components.can_resize(new_capacity) {
            self.grow_capacity_to_size(new_capacity);
            true
        } else {
            false
        }
    }

    /// Asks the growth policy about the present capacity and grows to the
    /// capacity that it answers, if the store can grow to it, and says
    /// whether it did.
    pub fn grow_capacity(&mut self) -> (grew: bool)
        requires
            old(self).wf(),
            old(self).has_policy(),
        ensures
            final(self).wf(),
            final(self).succeeds(old(self)),
            exists|answer: usize|
                {
                    &&& #[trigger] old(self).policy_answers(answer)
                    &&& final(self).tried_to_grow(old(self), answer as nat, grew)
                },
            grew ==> final(self).grown_from(old(self)),
            !grew ==> final(self).unchanged(old(self)),
    {
        let new_capacity: usize = match &self.grow_fn {
            Some(grow) => ask::<dyn GrowFn>(&**grow, self.capacity),
            None => self.capacity,
        };
        let grew = self.try_grow_capacity_to_size(new_capacity);
        proof {
            assert(old(self).policy_answers(new_capacity));
            assert(self.tried_to_grow(old(self), new_capacity as nat, grew));
        }
        grew
    }

    /// Takes the first free record of the entity table for a new entity,
    /// without counting it.
    fn allocate_entity(&mut self) -> (entity: Option<EntityID>)
        requires
            old(self).tables_wf(),
        ensures
            final(self).tables_wf(),
            final(self).scene_id == old(self).scene_id,
            final(self).capacity == old(self).capacity,
            final(self).entity_count == old(self).entity_count,
            final(self).components == old(self).components,
            final(self).grow_fn == old(self).grow_fn,
            match entity {
                Some(handle) => {
                    &&& first_free(old(self).entities@, handle.index as int)
                    &&& handle.scene_id == old(self).scene_id
                    &&& handle.generation == old(self).entities@[handle.index as int].generation + 1
                    &&& final(self).entities@ == old(self).entities@.update(
                        handle.index as int,
                        Entity { alive: true, generation: handle.generation },
                    )
                },
                None => none_free(old(self).entities@) && *final(self) == *old(self),
            },
    {
        let mut index: usize = 0;
        while index < self.capacity
            invariant
                index <= self.capacity,
                *self == *old(self),
                self.tables_wf(),
                forall|j: int| 0 <= j < index ==> !is_free(#[trigger] self.entities@[j]),
            decreases self.capacity - index,
        {
            let record = self.entities[index];
            if !record.alive && record.generation < usize::MAX {
                let generation: usize = record.generation + 1;
                self.entities[index] = Entity { alive: true, generation };
                return Some(EntityID { scene_id: self.scene_id, index, generation });
            }
            index += 1;
        }
        None
    }

    /// Takes the first free record of the entity table for a new entity.
    fn allocate_counted(&mut self) -> (entity: Option<EntityID>)
        requires
            old(self).wf(),
        ensures
            final(self).wf(),
            match entity {
                Some(handle) => final(self).allocated(old(self), handle),
                None => none_free(old(self).records()) && *final(self) == *old(self),
            },
    {
        let entity = self.allocate_entity();
        if let Some(handle) = entity {
            proof {
                lemma_alive_count_update(
                    old(self).entities@,
                    handle.index as int,
                    Entity { alive: true, generation: handle.generation },
                );
                lemma_alive_count_bound(self.entities@);
            }
            self.entity_count += 1;
        }
        entity
    }

    /// Grows a full store to `new_capacity`, if it can grow to it, and takes
    /// the first new record for a new entity.
    fn grow_and_allocate(&mut self, new_capacity: usize) -> (entity: Option<EntityID>)
        requires
            old(self).wf(),
            none_free(old(self).records()),
        ensures
            final(self).wf(),
            final(self).created(old(self), new_capacity as nat, entity),
    {
        if !self.try_grow_capacity_to_size(new_capacity) {
            return None;
        }
        let ghost grown = *self;
        proof {
            self.lemma_wf();
            assert(is_free(self.entities@[old(self).capacity as int]));
        }
        let entity = self.allocate_counted();
        proof {
            assert(grown.wf() && grown.capacity() == new_capacity && grown.grown_from(old(self)));
            let index = entity->Some_0.index as int;
            assert(first_free(grown.records(), index));
            if index < old(self).capacity {
                assert(grown.records()[index] == old(self).records()[index]);
            }
        }
        entity
    }

    /// Whether `self` and `entity` are what comes of creating an entity in
    /// `before`, where a full store may grow to `new_capacity`. With a free
    /// record, the entity takes the first one. Without one, the store grows
    /// to `new_capacity` if it can, and the entity takes the first new
    /// record; if it cannot, there is no entity and nothing changes.
    pub open spec fn created(
        &self,
        before: &ECS,
        new_capacity: nat,
        entity: Option<EntityID>,
    ) -> bool {
        if !none_free(before.records()) {
            entity is Some && self.allocated(before, entity->Some_0)
        } else if before.can_grow_to(new_capacity) {
            &&& entity is Some
            &&& entity->Some_0.index == before.capacity()
            &&& entity->Some_0.generation == 1
            &&& self.capacity() == new_capacity
            &&& exists|grown: ECS|
                {
                    &&& grown.wf()
                    &&& grown.capacity() == new_capacity
                    &&& #[trigger] grown.grown_from(before)
                    &&& self.allocated(&grown, entity->Some_0)
                }
        } else {
            entity is None && self.unchanged(before)
        }
    }

    /// What comes of creating an entity is a store that can have come from
    /// the one before, and an entity that is valid in it.
    pub proof fn lemma_created(&self, before: &ECS, new_capacity: nat, entity: Option<EntityID>)
        requires
            before.wf(),
            self.created(before, new_capacity, entity),
        ensures
            self.succeeds(before),
            entity matches Some(handle) ==> self.valid(handle),
            entity is None ==> self.unchanged(before),
    {
        before.lemma_wf();
        if none_free(before.records()) && before.can_grow_to(new_capacity) {
            let grown = choose|grown: ECS|
                {
                    &&& grown.wf()
                    &&& grown.capacity() == new_capacity
                    &&& #[trigger] grown.grown_from(before)
                    &&& self.allocated(&grown, entity->Some_0)
                };
            grown.lemma_wf();
        }
    }

    /// Creates an entity at the first free record of the entity table. A
    /// full store first grows to `new_capacity`, if it can grow to it.
    pub fn create_entity_growing_to(&mut self, new_capacity: usize) -> (entity: Option<EntityID>)
        requires
            old(self).wf(),
        ensures
            final(self).wf(),
            final(self).succeeds(old(self)),
            final(self).created(old(self), new_capacity as nat, entity),
            entity matches Some(handle) ==> final(self).valid(handle),
    {
        let entity = match self.allocate_counted() {
            Some(entity) => Some(entity),
            None => self.grow_and_allocate(new_capacity),
        };
        proof {
            self.lemma_created(old(self), new_capacity as nat, entity);
        }
        entity
    }

    /// Creates an entity at the first free record of the entity table.
    ///
    /// A full store without a growth policy creates no entity, as if it were
    /// offered the capacity zero. A full store with a growth policy asks the
    /// policy about the present capacity and goes on as
    /// `create_entity_growing_to` does with the capacity that the policy
    /// answers: it creates no entity, and changes nothing, where it cannot
    /// grow to that capacity.
    pub fn create_entity(&mut self) -> (entity: Option<EntityID>)
        requires
            old(self).wf(),
        ensures
            final(self).wf(),
            final(self).succeeds(old(self)),
            entity matches Some(handle) ==> final(self).valid(handle),
            entity is None ==> final(self).unchanged(old(self)),
            !none_free(old(self).records()) || !old(self).has_policy() ==> {
                final(self).created(old(self), 0, entity)
            },
            none_free(old(self).records()) && old(self).has_policy() ==> {
                exists|answer: usize|
                    {
                        &&& #[trigger] old(self).policy_answers(answer)
                        &&& final(self).created(old(self), answer as nat, entity)
                    }
            },
    {
        let entity = match self.allocate_counted() {
            Some(entity) => Some(entity),
            None => {
                let answer: usize = match &self.grow_fn {
                    None => {
                        proof {
                            old(self).lemma_succeeds_reflexive();
                        }
                        return None;
                    },
                    Some(grow) => ask::<dyn GrowFn>(&**grow, self.capacity),
                };
                let entity = self.grow_and_allocate(answer);
                proof {
                    assert(old(self).policy_answers(answer));
                    self.lemma_created(old(self), answer as nat, entity);
                }
                return entity;
            },
        };
        proof {
            self.lemma_created(old(self), 0, entity);
        }
        entity
    }

    /// Destroys the entity that `entity` names: its record dies in its
    /// generation and its slots are emptied. The component values that it
    /// held are released to the caller, each once, with the identifier of its
    /// type and in the order of registration. A handle that is not valid
    /// changes nothing.
    pub fn destroy_entity(&mut self, entity: EntityID) -> (released: Vec<(ComponentID, Vec<u8>)>)
        requires
            old(self).wf(),
        ensures
            final(self).wf(),
            final(self).succeeds(old(self)),
            !final(self).valid(entity),
            old(self).valid(entity) ==> final(self).stale(entity),
            old(self).valid(entity) ==> final(self).destroyed(old(self), entity.index as int)
                && released_views(released@) == old(self).storage().held_at(
                entity.index as int,
            ),
            !old(self).valid(entity) ==> final(self).unchanged(old(self)) && released@.len() == 0,
    {
        proof {
            self.lemma_wf();
        }
        if self.is_valid(&entity) {
            proof {
                lemma_alive_count_update(
                    self.entities@,
                    entity.index as int,
                    Entity { alive: false, generation: entity.generation },
                );
            }
            self.entity_count -= 1;
            let released = self.components.delete_index(entity.index);
            self.entities[entity.index] = Entity { alive: false, generation: entity.generation };
            proof {
                self.components.lemma_wf();
            }
            released
        } else {
            Vec::new()
        }
    }

    /// Whether the entity that `entity` names holds a component of the type
    /// registered under `id`. A handle that is not valid and a type that is
    /// not registered hold nothing.
    pub fn has_component(&self, entity: &EntityID, id: ComponentID) -> (has: bool)
        requires
            self.wf(),
        ensures
            has == (self.component(*entity, id) is Some),
    {
        if !self.is_valid(entity) {
            return false;
        }
        proof {
            self.components.lemma_wf();
        }
        match self.components.get_array(id) {
            Some(array) => array.is_filled(entity.index),
            None => false,
        }
    }

    /// Gives the entity that `entity` names the component `payload` of the
    /// type registered under `id`. The value of that type that the entity
    /// held before is released to the caller. A handle that is not valid
    /// changes nothing.
    pub fn add_component(
        &mut self,
        entity: &EntityID,
        id: ComponentID,
        payload: &[u8],
    ) -> (released: Slot<Vec<u8>>)
        requires
            old(self).wf(),
            old(self).valid(*entity) ==> {
                &&& old(self).registered(id)
                &&& payload@.len() == old(self).info(id).size
            },
        ensures
            final(self).wf(),
            final(self).succeeds(old(self)),
            final(self).same_entities(old(self)),
            old(self).valid(*entity) ==> {
                &&& final(self).component(*entity, id) == Some(payload@)
                &&& final(self).slot(id, entity.index as int) == Slot::Filled(payload@)
                &&& final(self).same_components_but(old(self), id, entity.index as int)
                &&& released@ == old(self).slot(id, entity.index as int)
            },
            !old(self).valid(*entity) ==> final(self).unchanged(old(self)) && released is Empty,
    {
        if !self.is_valid(entity) {
            return Slot::Empty;
        }
        proof {
            self.components.lemma_wf();
        }
        let released = match self.components.get_array_mut(id) {
            Some(array) => array.insert(entity.index, payload),
            None => Slot::Empty,
        };
        proof {
            reveal(ECS::column_replaced);
            reveal(ECS::same_but_column);
            self.lemma_column_replaced(old(self), id);
        }
        released
    }

    /// Takes from the entity that `entity` names its component of the type
    /// registered under `id`, and releases the value to the caller. A handle
    /// that is not valid changes nothing.
    pub fn remove_component(
        &mut self,
        entity: &EntityID,
        id: ComponentID,
    ) -> (released: Slot<Vec<u8>>)
        requires
            old(self).wf(),
            old(self).valid(*entity) ==> old(self).registered(id),
        ensures
            final(self).wf(),
            final(self).succeeds(old(self)),
            final(self).same_entities(old(self)),
            old(self).valid(*entity) ==> {
                &&& final(self).component(*entity, id) is None
                &&& final(self).slot(id, entity.index as int) is Empty
                &&& final(self).same_components_but(old(self), id, entity.index as int)
                &&& released@ == old(self).slot(id, entity.index as int)
            },
            !old(self).valid(*entity) ==> final(self).unchanged(old(self)) && released is Empty,
    {
        if !self.is_valid(entity) {
            return Slot::Empty;
        }
        proof {
            self.components.lemma_wf();
        }
        let released = match self.components.get_array_mut(id) {
            Some(array) => array.delete_index(entity.index),
            None => Slot::Empty,
        };
        proof {
            reveal(ECS::column_replaced);
            reveal(ECS::same_but_column);
            self.lemma_column_replaced(old(self), id);
        }
        released
    }

    /// The component of the type registered under `id` that the entity named
    /// by `entity` holds. A handle that is not valid and a type that is not
    /// registered hold nothing.
    pub fn get_component(&self, entity: &EntityID, id: ComponentID) -> (component: Option<&[u8]>)
        requires
            self.wf(),
        ensures
            match component {
                Some(payload) => self.component(*entity, id) == Some(payload@),
                None => self.component(*entity, id) is None,
            },
    {
        if !self.is_valid(entity) {
            return None;
        }
        proof {
            self.components.lemma_wf();
        }
        match self.components.get_array(id) {
            Some(array) => match array.get(entity.index) {
                Slot::Filled(payload) => Some(payload),
                Slot::Empty => None,
            },
            None => None,
        }
    }

    /// The component of the type registered under `id` that the entity named
    /// by `entity` holds, open for writing in place. A handle that is not
    /// valid and a type that is not registered hold nothing.
    ///
    /// A slice keeps its length whatever is written through it; of a payload
    /// that has kept its length, the store holds the final bytes.
    pub fn get_component_mut(
        &mut self,
        entity: &EntityID,
        id: ComponentID,
    ) -> (component: Option<&mut [u8]>)
        requires
            old(self).wf(),
        ensures
            match component {
                Some(payload) => {
                    &&& old(self).component(*entity, id) == Some(payload@)
                    &&& final(payload)@.len() == payload@.len() ==> {
                        &&& final(self).wf()
                        &&& final(self).succeeds(old(self))
                        &&& final(self).same_entities(old(self))
                        &&& final(self).same_components_but(old(self), id, entity.index as int)
                        &&& final(self).component(*entity, id) == Some(final(payload)@)
                    }
                },
                None => {
                    &&& old(self).component(*entity, id) is None
                    &&& final(self).wf()
                    &&& final(self).succeeds(old(self))
                    &&& final(self).unchanged(old(self))
                },
            },
    {
        if !self.has_component(entity, id) {
            return None;
        }
        proof {
            self.components.lemma_wf();
            reveal(ECS::column_replaced);
            reveal(ECS::same_but_column);
            old(self).lemma_any_column_replaced(id);
        }
        match self.components.get_array_mut(id) {
            Some(array) => match array.get_mut(entity.index) {
                Slot::Filled(payload) => Some(payload),
                Slot::Empty => None,
            },
            None => None,
        }
    }

    /// Whether `self` is `before` with the column of the type registered
    /// under `id` replaced by a well-formed column of the same type and
    /// length, in which no index without a living entity holds a value.
    #[verifier::opaque]
    closed spec fn column_replaced(&self, before: &ECS, id: ComponentID) -> bool {
        &&& self.scene_id == before.scene_id
        &&& self.capacity == before.capacity
        &&& self.entity_count == before.entity_count
        &&& self.entities == before.entities
        &&& self.policy() == before.policy()
        &&& self.components.ids() == before.components.ids()
        &&& self.components.len() == before.components.len()
        &&& self.components.wf()
        &&& self.components.columns() == before.components.columns().update(
            before.components.position(id),
            self.components.column(id),
        )
        &&& self.components.column(id).info() == before.components.column(id).info()
        &&& forall|index: int|
            0 <= index < before.capacity && !before.entities@[index].alive ==> (
            #[trigger] self.components.column(id).slot(index)) is Empty
    }

    /// Whether `self` is well formed, has the entities and the types of
    /// `before`, and holds in every column but that of `id` what `before`
    /// holds.
    #[verifier::opaque]
    closed spec fn same_but_column(&self, before: &ECS, id: ComponentID) -> bool {
        &&& self.wf()
        &&& self.succeeds(before)
        &&& self.same_entities(before)
        &&& self.same_types(before)
        &&& forall|other: ComponentID, index: int|
            before.registered(other) && other != id ==> #[trigger] self.slot(other, index)
                == before.slot(other, index)
    }

    /// A store with one column replaced is well formed, has the entities and
    /// the types that it had, and holds in the other columns what it held.
    proof fn lemma_column_replaced(&self, before: &ECS, id: ComponentID)
        requires
            before.wf(),
            before.registered(id),
        ensures
            self.column_replaced(before, id) ==> self.wf() && self.same_but_column(before, id),
    {
        reveal(ECS::column_replaced);
        reveal(ECS::same_but_column);
        if self.column_replaced(before, id) {
            before.components.lemma_wf();
            self.components.lemma_wf();
            let position = before.components.position(id);
            assert forall|other: ComponentID|
                before.registered(other) && other != id implies self.storage().column(other)
                == before.storage().column(other) by {
                let q = before.components.position(other);
                assert(q != position);
            }
            assert forall|index: int, p: int|
                0 <= index < self.capacity && !self.entities@[index].alive && 0 <= p
                    < self.components.columns().len() implies (
            #[trigger] self.components.columns()[p].slot(index)) is Empty by {
                if p != position {
                    assert(before.components.columns()[p].slot(index) is Empty);
                }
            }
        }
    }

    /// What `lemma_column_replaced` states, of every store that is `self`
    /// with one column replaced.
    proof fn lemma_any_column_replaced(&self, id: ComponentID)
        requires
            self.wf(),
            self.registered(id),
        ensures
            forall|after: ECS|
                #![trigger after.wf()]
                after.column_replaced(self, id) ==> after.wf() && after.same_but_column(self, id),
    {
        assert forall|after: ECS|
            #![trigger after.wf()]
            after.column_replaced(self, id) implies after.wf() && after.same_but_column(
            self,
            id,
        ) by {
            after.lemma_column_replaced(self, id);
            assert(after.column_replaced(self, id) ==> after.wf() && after.same_but_column(
                self,
                id,
            ));
        }
    }

    /// Gives the store up. The component values that it still held are
    /// released to the caller, each once, with the identifier of its type:
    /// type by type in the order of registration, and within a type in the
    /// order of the entity indices.
    pub fn teardown(self) -> (released: Vec<(ComponentID, Vec<u8>)>)
        requires
            self.wf(),
        ensures
            released_views(released@) == held_anywhere(
                self.storage().ids(),
                self.storage().columns(),
                self.storage().ids().len() as int,
            ),
    {
        let mut components = self.components;
        components.clear()
    }

    /// Every store can have come from itself.
    pub proof fn lemma_succeeds_reflexive(&self)
        ensures
            self.succeeds(self),
    {
    }

    /// What can have come from a store that can have come from `before`, can
    /// have come from `before`.
    pub proof fn lemma_succeeds_transitive(&self, between: &ECS, before: &ECS)
        requires
            self.succeeds(between),
            between.succeeds(before),
        ensures
            self.succeeds(before),
    {
        assert forall|index: int| 0 <= index < before.capacity() implies {
            let now = #[trigger] self.records()[index];
            let then = before.records()[index];
            &&& now.generation >= then.generation
            &&& now.generation == then.generation && now.alive ==> then.alive
        } by {
            assert(between.records()[index].generation >= before.records()[index].generation);
        }
    }

    /// A handle that is stale names no entity, and it stays stale in every
    /// store that can come from this one: once destroyed, never valid again,
    /// whoever takes the index.
    pub proof fn lemma_stale_forever(&self, before: &ECS, entity: EntityID)
        requires
            before.stale(entity),
            self.succeeds(before),
        ensures
            self.stale(entity),
            !self.valid(entity),
            !before.valid(entity),
    {
        let index = entity.index as int;
        assert(self.records()[index].generation >= before.records()[index].generation);
    }

    /// The life of a handle: it is valid in the store that created it, not
    /// valid in the store in which its entity was destroyed, and not valid
    /// in any store that can come from that one.
    pub proof fn lemma_handle_lifetime(
        entity: EntityID,
        new_capacity: nat,
        before_creation: &ECS,
        created: &ECS,
        before_destruction: &ECS,
        destroyed: &ECS,
        later: &ECS,
    )
        requires
            before_creation.wf(),
            created.created(before_creation, new_capacity, Some(entity)),
            before_destruction.wf(),
            before_destruction.valid(entity),
            destroyed.destroyed(before_destruction, entity.index as int),
            later.succeeds(destroyed),
        ensures
            created.valid(entity),
            !destroyed.valid(entity),
            !later.valid(entity),
    {
        created.lemma_created(before_creation, new_capacity, Some(entity));
        before_destruction.lemma_wf();
        assert(destroyed.stale(entity));
        later.lemma_stale_forever(destroyed, entity);
    }

    /// Growth keeps what was there and adds nothing but room: the living
    /// entities are counted as before, every record that was there is as it
    /// was, every handle is as valid as it was and reads the same component
    /// of every type; the new records were never allocated, the new slots
    /// of every type are empty, and every column has as many slots as the
    /// store has records.
    pub proof fn lemma_grown(&self, before: &ECS)
        requires
            before.wf(),
            self.wf(),
            self.grown_from(before),
        ensures
            self.entity_count() == before.entity_count(),
            forall|index: int|
                0 <= index < before.capacity() ==> #[trigger] self.records()[index]
                    == before.records()[index],
            forall|entity: EntityID| #[trigger] self.valid(entity) == before.valid(entity),
            forall|id: ComponentID| #[trigger] self.registered(id) == before.registered(id),
            forall|entity: EntityID, id: ComponentID| #[trigger]
                self.component(entity, id) == before.component(entity, id),
            forall|index: int|
                before.capacity() <= index < self.capacity() ==> #[trigger] self.records()[index]
                    == fresh_record(),
            forall|id: ComponentID, index: int|
                self.registered(id) && before.capacity() <= index < self.capacity() ==> (
                #[trigger] self.slot(id, index)) is Empty,
            forall|id: ComponentID|
                self.registered(id) ==> (#[trigger] self.storage().column(id)).len()
                    == self.capacity(),
    {
        before.lemma_wf();
        self.lemma_wf();
        self.storage().lemma_wf();
        assert forall|entity: EntityID| #[trigger] self.valid(entity) == before.valid(entity) by {
            let index = entity.index as int;
            if index < before.capacity() {
                assert(self.records()[index] == before.records()[index]);
            } else if index < self.capacity() {
                assert(self.records()[index] == fresh_record());
            }
        }
        assert forall|entity: EntityID, id: ComponentID| #[trigger]
            self.component(entity, id) == before.component(entity, id) by {
            if before.valid(entity) && before.registered(id) {
                assert(self.slot(id, entity.index as int) == before.slot(id, entity.index as int));
            }
        }
    }

    /// A handle of another store is never valid.
    pub proof fn lemma_foreign_handle(&self, entity: EntityID)
        requires
            entity.scene_id != self.scene(),
        ensures
            !self.valid(entity),
    {
    }

    /// The handle that takes an index again has a larger generation than
    /// every handle that was valid for that index before, and such an older
    /// handle is not valid beside it.
    pub proof fn lemma_reallocation(
        &self,
        before: &ECS,
        issued: &ECS,
        earlier: EntityID,
        later: EntityID,
    )
        requires
            issued.valid(earlier),
            before.succeeds(issued),
            self.allocated(before, later),
            later.index == earlier.index,
        ensures
            later.generation > earlier.generation,
            self.valid(later),
            !self.valid(earlier),
    {
        let index = earlier.index as int;
        assert(before.records()[index].generation >= issued.records()[index].generation);
    }

    /// What the destruction of the entity at `index` releases: every
    /// component that the entity holds, under the identifier of its type,
    /// and nothing else; and of no type more than one value.
    pub proof fn lemma_released_once(&self, index: int)
        requires
            self.wf(),
        ensures
            forall|k: int|
                0 <= k < self.storage().held_at(index).len() ==> {
                    let (id, payload) = #[trigger] self.storage().held_at(index)[k];
                    self.registered(id) && self.slot(id, index) == Slot::Filled(payload)
                },
            forall|id: ComponentID|
                self.registered(id) && (#[trigger] self.slot(id, index)) is Filled ==> {
                    let payload = self.slot(id, index)->Filled_0;
                    self.storage().held_at(index).contains((id, payload))
                },
            forall|j: int, k: int|
                #![trigger self.storage().held_at(index)[j], self.storage().held_at(index)[k]]
                0 <= j < k < self.storage().held_at(index).len() ==> {
                    let released = self.storage().held_at(index);
                    released[j].0 != released[k].0
                },
    {
        self.components.lemma_held_at(index);
    }
}

} // verus!
