//! Entity handles and the records of the entity table.
use vstd::prelude::*;

verus! {

/// A handle to an entity. It owns nothing and may be copied freely.
#[derive(Clone, Copy)]
pub struct EntityID {
    /// The identity of the store that issued the handle.
    pub scene_id: u64,
    /// The index of the entity's record and slots.
    pub index: usize,
    /// The generation of the record when the handle was issued.
    pub generation: usize,
}

/// One record of the entity table.
#[derive(Clone, Copy)]
pub struct Entity {
    /// Whether an entity lives at this index.
    pub alive: bool,
    /// How often this index has been allocated.
    pub generation: usize,
}

/// Whether a record can be allocated: no entity lives there, and its
/// generation can still be counted up. A record whose generation has reached
/// the largest number is never allocated again.
pub open spec fn is_free(record: Entity) -> bool {
    !record.alive && record.generation < usize::MAX
}

/// The record of an index that was never allocated.
pub open spec fn fresh_record() -> Entity {
    Entity { alive: false, generation: 0 }
}

/// What a record counts for among the living entities.
pub open spec fn counts(record: Entity) -> nat {
    if record.alive {
        1
    } else {
        0
    }
}

/// The number of records with a living entity.
pub open spec fn alive_count(records: Seq<Entity>) -> nat
    decreases records.len(),
{
    if records.len() == 0 {
        0
    } else {
        alive_count(records.drop_last()) + counts(records.last())
    }
}

/// No more entities live than there are records.
pub proof fn lemma_alive_count_bound(records: Seq<Entity>)
    ensures
        alive_count(records) <= records.len(),
    decreases records.len(),
{
    if records.len() > 0 {
        lemma_alive_count_bound(records.drop_last());
    }
}

/// Changing one record changes the count by what that record counts for.
pub proof fn lemma_alive_count_update(records: Seq<Entity>, index: int, record: Entity)
    requires
        0 <= index < records.len(),
    ensures
        alive_count(records.update(index, record)) + counts(records[index]) == alive_count(records)
            + counts(record),
    decreases records.len(),
{
    let updated = records.update(index, record);
    if index == records.len() - 1 {
        assert(updated.drop_last() =~= records.drop_last());
    } else {
        lemma_alive_count_update(records.drop_last(), index, record);
        assert(updated.drop_last() =~= records.drop_last().update(index, record));
    }
}

/// Appending records that were never allocated leaves the count as it is.
pub proof fn lemma_alive_count_fresh(records: Seq<Entity>, more: nat)
    ensures
        alive_count(records + Seq::new(more, |i: int| fresh_record())) == alive_count(records),
    decreases more,
{
    let grown = records + Seq::new(more, |i: int| fresh_record());
    if more == 0 {
        assert(grown =~= records);
    } else {
        lemma_alive_count_fresh(records, (more - 1) as nat);
        let fewer = Seq::new((more - 1) as nat, |i: int| fresh_record());
        assert(grown.drop_last() =~= records + fewer);
    }
}

/// Whether `index` is the first record that can be allocated.
pub open spec fn first_free(records: Seq<Entity>, index: int) -> bool {
    &&& 0 <= index < records.len()
    &&& is_free(records[index])
    &&& forall|j: int| 0 <= j < index ==> !is_free(#[trigger] records[j])
}

/// Whether no record can be allocated.
pub open spec fn none_free(records: Seq<Entity>) -> bool {
    forall|j: int| 0 <= j < records.len() ==> !is_free(#[trigger] records[j])
}

} // verus!
