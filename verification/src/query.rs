//! Queries: walking the entities that hold all of a set of component types.
use crate::component::ComponentID;
use crate::ecs::ECS;
use crate::entity::EntityID;
use crate::storage::{ComponentArray, Slot};
use vstd::prelude::*;

verus! {

/// The handle that a query yields for the entity at `index`: it carries the
/// generation that the entity table has for that index.
pub open spec fn handle_at(ecs: &ECS, index: int) -> EntityID {
    EntityID {
        scene_id: ecs.scene(),
        index: index as usize,
        generation: ecs.records()[index].generation,
    }
}

/// A set of component types to walk the entities by.
pub trait Query {
    /// What is yielded for one entity: its handle and its components.
    type Output<'a>;

    /// The columns of the requested types.
    type Array<'a>;

    /// Whether the store can answer the query: every requested type is
    /// registered, and none is requested twice.
    spec fn accepted(&self, ecs: &ECS) -> bool;

    /// Whether the entity index `index` holds a component of every requested
    /// type.
    spec fn matches(&self, ecs: &ECS, index: int) -> bool;

    /// Whether `array` holds the columns of the requested types in `ecs`.
    spec fn views<'a>(&self, ecs: &ECS, array: &Self::Array<'a>) -> bool;

    /// Whether `output` is the handle of the entity at `index` with its
    /// components of the requested types.
    spec fn yields<'a>(&self, ecs: &ECS, index: int, output: &Self::Output<'a>) -> bool;

    /// Whether the store can answer the query.
    fn accepts(&self, ecs: &ECS) -> (accepted: bool)
        requires
            ecs.wf(),
        ensures
            accepted == self.accepted(ecs),
    ;

    /// The columns of the requested types.
    fn get_array<'a>(&self, ecs: &'a ECS) -> (array: Self::Array<'a>)
        requires
            ecs.wf(),
            self.accepted(ecs),
        ensures
            self.views(ecs, &array),
    ;

    /// Moves the cursor `index` past the next entity that holds all
    /// requested types, and yields that entity; without such an entity, moves
    /// the cursor to the capacity and yields nothing.
    fn next<'a>(
        &self,
        ecs: &'a ECS,
        index: &mut usize,
        array: &Self::Array<'a>,
    ) -> (output: Option<Self::Output<'a>>)
        requires
            ecs.wf(),
            self.accepted(ecs),
            self.views(ecs, array),
            *old(index) <= ecs.capacity(),
        ensures
            *old(index) <= *final(index) <= ecs.capacity(),
            match output {
                Some(found) => {
                    &&& *old(index) < *final(index)
                    &&& self.matches(ecs, *final(index) - 1)
                    &&& self.yields(ecs, *final(index) - 1, &found)
                    &&& forall|other: int|
                        *old(index) <= other < *final(index) - 1 ==> !self.matches(ecs, other)
                },
                None => {
                    &&& *final(index) == ecs.capacity()
                    &&& forall|other: int|
                        *old(index) <= other < ecs.capacity() ==> !self.matches(ecs, other)
                },
            },
    ;
}

impl Query for ComponentID {
    type Output<'a> = (EntityID, &'a [u8]);

    type Array<'a> = &'a ComponentArray;

    open spec fn accepted(&self, ecs: &ECS) -> bool {
        ecs.registered(*self)
    }

    open spec fn matches(&self, ecs: &ECS, index: int) -> bool {
        ecs.slot(*self, index) is Filled
    }

    open spec fn views<'a>(&self, ecs: &ECS, array: &&'a ComponentArray) -> bool {
        **array == ecs.storage().column(*self)
    }

    open spec fn yields<'a>(&self, ecs: &ECS, index: int, output: &(EntityID, &'a [u8])) -> bool {
        &&& output.0 == handle_at(ecs, index)
        &&& ecs.valid(output.0)
        &&& ecs.slot(*self, index) == Slot::Filled(output.1@)
    }

    fn accepts(&self, ecs: &ECS) -> (accepted: bool) {
        ecs.is_registered(*self)
    }

    fn get_array<'a>(&self, ecs: &'a ECS) -> (array: &'a ComponentArray) {
        ecs.get_array(*self)
    }

    fn next<'a>(
        &self,
        ecs: &'a ECS,
        index: &mut usize,
        array: &&'a ComponentArray,
    ) -> (output: Option<(EntityID, &'a [u8])>) {
        proof {
            ecs.lemma_wf();
            ecs.storage().lemma_wf();
        }
        let capacity: usize = ecs.get_capacity();
        while *index < capacity
            invariant
                ecs.wf(),
                self.accepted(ecs),
                self.views(ecs, array),
                capacity == ecs.capacity(),
                array.wf(),
                array.len() == capacity,
                *old(index) <= *index <= capacity,
                forall|other: int| *old(index) <= other < *index ==> !self.matches(ecs, other),
            decreases capacity - *index,
        {
            proof {
                ecs.lemma_wf();
            }
            let at: usize = *index;
            let element = array.get(at);
            *index = at + 1;
            if let Slot::Filled(payload) = element {
                if let Some(id) = ecs.get_index(at) {
                    return Some((id, payload));
                }
            }
        }
        None
    }
}

impl Query for (ComponentID, ComponentID) {
    type Output<'a> = (EntityID, &'a [u8], &'a [u8]);

    type Array<'a> = (&'a ComponentArray, &'a ComponentArray);

    open spec fn accepted(&self, ecs: &ECS) -> bool {
        ecs.registered(self.0) && ecs.registered(self.1) && self.0 != self.1
    }

    open spec fn matches(&self, ecs: &ECS, index: int) -> bool {
        ecs.slot(self.0, index) is Filled && ecs.slot(self.1, index) is Filled
    }

    open spec fn views<'a>(
        &self,
        ecs: &ECS,
        array: &(&'a ComponentArray, &'a ComponentArray),
    ) -> bool {
        *array.0 == ecs.storage().column(self.0) && *array.1 == ecs.storage().column(self.1)
    }

    open spec fn yields<'a>(
        &self,
        ecs: &ECS,
        index: int,
        output: &(EntityID, &'a [u8], &'a [u8]),
    ) -> bool {
        &&& output.0 == handle_at(ecs, index)
        &&& ecs.valid(output.0)
        &&& ecs.slot(self.0, index) == Slot::Filled(output.1@)
        &&& ecs.slot(self.1, index) == Slot::Filled(output.2@)
    }

    fn accepts(&self, ecs: &ECS) -> (accepted: bool) {
        self.0 != self.1 && ecs.is_registered(self.0) && ecs.is_registered(self.1)
    }

    fn get_array<'a>(&self, ecs: &'a ECS) -> (array: (&'a ComponentArray, &'a ComponentArray)) {
        let c0_array = ecs.get_array(self.0);
        let c1_array = ecs.get_array(self.1);
        (c0_array, c1_array)
    }

    fn next<'a>(
        &self,
        ecs: &'a ECS,
        index: &mut usize,
        array: &(&'a ComponentArray, &'a ComponentArray),
    ) -> (output: Option<(EntityID, &'a [u8], &'a [u8])>) {
        proof {
            ecs.lemma_wf();
            ecs.storage().lemma_wf();
        }
        let capacity: usize = ecs.get_capacity();
        while *index < capacity
            invariant
                ecs.wf(),
                self.accepted(ecs),
                self.views(ecs, array),
                capacity == ecs.capacity(),
                array.0.wf(),
                array.0.len() == capacity,
                array.1.wf(),
                array.1.len() == capacity,
                *old(index) <= *index <= capacity,
                forall|other: int| *old(index) <= other < *index ==> !self.matches(ecs, other),
            decreases capacity - *index,
        {
            proof {
                ecs.lemma_wf();
            }
            let at: usize = *index;
            let element_0 = array.0.get(at);
            let element_1 = array.1.get(at);
            *index = at + 1;
            if let Slot::Filled(payload_0) = element_0 {
                if let Slot::Filled(payload_1) = element_1 {
                    if let Some(id) = ecs.get_index(at) {
                        return Some((id, payload_0, payload_1));
                    }
                }
            }
        }
        None
    }
}

/// The entity indices from `from` on that hold all types of `query`, in
/// ascending order.
pub open spec fn matching<Q: Query>(query: &Q, ecs: &ECS, from: int) -> Seq<int>
    decreases ecs.capacity() - from,
{
    if from >= ecs.capacity() {
        Seq::empty()
    } else if query.matches(ecs, from) {
        seq![from] + matching(query, ecs, from + 1)
    } else {
        matching(query, ecs, from + 1)
    }
}

/// Indices that do not match can be skipped.
pub proof fn lemma_matching_skip<Q: Query>(query: &Q, ecs: &ECS, from: int, to: int)
    requires
        from <= to <= ecs.capacity(),
        forall|other: int| from <= other < to ==> !query.matches(ecs, other),
    ensures
        matching(query, ecs, from) == matching(query, ecs, to),
    decreases to - from,
{
    if from < to {
        lemma_matching_skip(query, ecs, from + 1, to);
    }
}

/// A query lists exactly the entity indices that hold all of its types, each
/// once and in ascending order.
pub proof fn lemma_matching<Q: Query>(query: &Q, ecs: &ECS, from: int)
    requires
        0 <= from,
    ensures
        forall|k: int|
            0 <= k < matching(query, ecs, from).len() ==> {
                let index = #[trigger] matching(query, ecs, from)[k];
                from <= index < ecs.capacity() && query.matches(ecs, index)
            },
        forall|j: int, k: int|
            #![trigger matching(query, ecs, from)[j], matching(query, ecs, from)[k]]
            0 <= j < k < matching(query, ecs, from).len() ==> {
                matching(query, ecs, from)[j] < matching(query, ecs, from)[k]
            },
        forall|index: int|
            from <= index < ecs.capacity() && #[trigger] query.matches(ecs, index) ==> {
                matching(query, ecs, from).contains(index)
            },
    decreases ecs.capacity() - from,
{
    if from < ecs.capacity() {
        lemma_matching(query, ecs, from + 1);
        let rest = matching(query, ecs, from + 1);
        let all = matching(query, ecs, from);
        if query.matches(ecs, from) {
            assert(all[0] == from);
            assert forall|k: int| 1 <= k < all.len() implies all[k] == rest[k - 1] by {}
            assert forall|index: int|
                from <= index < ecs.capacity() && #[trigger] query.matches(ecs, index)
                implies all.contains(index) by {
                if index > from {
                    let k = choose|k: int| 0 <= k < rest.len() && rest[k] == index;
                    assert(all[k + 1] == index);
                }
            }
        } else {
            assert forall|index: int|
                from <= index < ecs.capacity() && #[trigger] query.matches(ecs, index)
                implies all.contains(index) by {
                let k = choose|k: int| 0 <= k < rest.len() && rest[k] == index;
                assert(all[k] == index);
            }
        }
    }
}

/// A query for one type matches an entity index exactly where a living
/// entity holds a component of that type.
pub proof fn lemma_matches_one(ecs: &ECS, id: ComponentID, index: int)
    requires
        ecs.wf(),
        id.accepted(ecs),
        0 <= index < ecs.capacity(),
    ensures
        id.matches(ecs, index) <==> ecs.component(handle_at(ecs, index), id) is Some,
{
    ecs.lemma_wf();
}

/// A query for two types matches an entity index exactly where a living
/// entity holds components of both types: an entity with only one of them is
/// left out.
pub proof fn lemma_matches_two(ecs: &ECS, ids: (ComponentID, ComponentID), index: int)
    requires
        ecs.wf(),
        ids.accepted(ecs),
        0 <= index < ecs.capacity(),
    ensures
        ids.matches(ecs, index) <==> ecs.component(handle_at(ecs, index), ids.0) is Some
            && ecs.component(handle_at(ecs, index), ids.1) is Some,
{
    ecs.lemma_wf();
}

/// A walk over the entities that hold all types of a query, in ascending
/// order of their indices.
///
/// The walk borrows the store, so that the store cannot change or grow while
/// the walk is in use. Every walk has a cursor of its own and starts at the
/// first entity index.
pub struct QueryIter<'a, Q: Query> {
    ecs: &'a ECS,
    query: Q,
    index: usize,
    array: Q::Array<'a>,
}

impl<'a, Q: Query> QueryIter<'a, Q> {
    /// The store that is walked.
    pub closed spec fn store(&self) -> &ECS {
        self.ecs
    }

    /// The query that is answered.
    pub closed spec fn query(&self) -> Q {
        self.query
    }

    /// The entity index at which the walk goes on.
    pub closed spec fn cursor(&self) -> int {
        self.index as int
    }

    /// The store is well formed and can answer the query, and the cursor is
    /// within the capacity.
    pub closed spec fn wf(&self) -> bool {
        &&& self.ecs.wf()
        &&& self.query.accepted(self.ecs)
        &&& self.query.views(self.ecs, &self.array)
        &&& self.index <= self.ecs.capacity()
    }

    /// What well-formedness means in terms of the public notions.
    pub proof fn lemma_wf(&self)
        requires
            self.wf(),
        ensures
            self.store().wf(),
            self.query().accepted(self.store()),
            0 <= self.cursor() <= self.store().capacity(),
    {
    }

    /// The entity indices that are still to come.
    pub open spec fn remaining(&self) -> Seq<int> {
        matching(&self.query(), self.store(), self.cursor())
    }

    /// A walk from the first entity index on.
    pub fn new(ecs: &'a ECS, query: Q) -> (iter: Self)
        requires
            ecs.wf(),
            query.accepted(ecs),
        ensures
            iter.wf(),
            iter.store() == ecs,
            iter.query() == query,
            iter.cursor() == 0,
    {
        let array = query.get_array(ecs);
        QueryIter { ecs, query, index: 0, array }
    }

    /// The next entity that holds all types of the query, if there is one.
    pub fn next(&mut self) -> (output: Option<Q::Output<'a>>)
        requires
            old(self).wf(),
        ensures
            final(self).wf(),
            final(self).store() == old(self).store(),
            final(self).query() == old(self).query(),
            match output {
                Some(found) => {
                    let index = old(self).remaining()[0];
                    &&& old(self).remaining().len() > 0
                    &&& final(self).cursor() == index + 1
                    &&& final(self).remaining() == old(self).remaining().drop_first()
                    &&& old(self).query().matches(old(self).store(), index)
                    &&& old(self).query().yields(old(self).store(), index, &found)
                },
                None => old(self).remaining().len() == 0 && final(self).remaining().len() == 0,
            },
    {
        let output = self.query.next(self.ecs, &mut self.index, &self.array);
        proof {
            let to = if output is Some {
                self.index - 1
            } else {
                self.index as int
            };
            lemma_matching_skip(&self.query, self.ecs, old(self).index as int, to);
            if output is Some {
                let rest = matching(&self.query, self.ecs, to + 1);
                assert(matching(&self.query, self.ecs, to).drop_first() =~= rest);
            }
        }
        output
    }
}

} // verus!
