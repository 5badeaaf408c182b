use entity_store::{EntityID, ECS};

#[test]
fn handle_is_valid_until_destroyed_and_never_again() {
    let mut ecs = ECS::new(3, 2);
    let first = ecs.create_entity().unwrap();
    assert!(ecs.is_valid(&first));
    ecs.destroy_entity(first);
    assert!(!ecs.is_valid(&first));
    let second = ecs.create_entity().unwrap();
    assert_eq!(second.index, first.index);
    assert!(ecs.is_valid(&second));
    assert!(!ecs.is_valid(&first));
    ecs.destroy_entity(second);
    let third = ecs.create_entity().unwrap();
    assert_eq!(third.index, first.index);
    assert!(!ecs.is_valid(&first));
    assert!(!ecs.is_valid(&second));
    assert!(ecs.is_valid(&third));
}

#[test]
fn reallocation_counts_the_generation_up() {
    let mut ecs = ECS::new(3, 1);
    let mut last = ecs.create_entity().unwrap();
    assert_eq!((last.index, last.generation), (0, 1));
    for round in 2..10 {
        ecs.destroy_entity(last);
        let next = ecs.create_entity().unwrap();
        assert_eq!(next.index, 0);
        assert!(next.generation > last.generation);
        assert_eq!(next.generation, round);
        last = next;
    }
}

#[test]
fn full_store_refuses_and_reuses_a_destroyed_index() {
    let mut ecs = ECS::new(3, 4);
    let mut entities = Vec::new();
    for index in 0..4 {
        let entity = ecs.create_entity().unwrap();
        assert_eq!(entity.index, index);
        assert_eq!(entity.generation, 1);
        entities.push(entity);
    }
    assert!(ecs.create_entity().is_none());
    assert_eq!(ecs.get_entity_count(), 4);
    assert_eq!(ecs.get_capacity(), 4);

    ecs.destroy_entity(entities[2]);
    assert_eq!(ecs.get_entity_count(), 3);

    let again = ecs.create_entity().unwrap();
    assert_eq!(again.index, 2);
    assert_eq!(again.generation, entities[2].generation + 1);
    assert_eq!(ecs.get_entity_count(), 4);
    assert!(ecs.create_entity().is_none());
}

#[test]
fn allocation_takes_the_first_free_index() {
    let mut ecs = ECS::new(3, 5);
    let entities: Vec<EntityID> = (0..5).map(|_| ecs.create_entity().unwrap()).collect();
    ecs.destroy_entity(entities[3]);
    ecs.destroy_entity(entities[1]);
    assert_eq!(ecs.create_entity().unwrap().index, 1);
    assert_eq!(ecs.create_entity().unwrap().index, 3);
    assert!(ecs.create_entity().is_none());
}

#[test]
fn handle_of_another_store_is_not_valid() {
    let mut here = ECS::new(1, 4);
    let mut there = ECS::new(2, 4);
    let ours = here.create_entity().unwrap();
    let theirs = there.create_entity().unwrap();
    assert_eq!((ours.index, ours.generation), (theirs.index, theirs.generation));
    assert!(here.is_valid(&ours));
    assert!(!here.is_valid(&theirs));
    assert!(there.is_valid(&theirs));
    assert!(!there.is_valid(&ours));
    assert!(there.destroy_entity(ours).is_empty());
    assert!(there.is_valid(&theirs));
    assert_eq!(there.get_entity_count(), 1);
}

#[test]
fn handle_beyond_the_capacity_is_not_valid() {
    let ecs = ECS::new(3, 2);
    let handle = EntityID { scene_id: 3, index: 2, generation: 1 };
    assert!(!ecs.is_valid(&handle));
    let handle = EntityID { scene_id: 3, index: usize::MAX, generation: 0 };
    assert!(!ecs.is_valid(&handle));
}

#[test]
fn generation_zero_is_never_valid() {
    let mut ecs = ECS::new(3, 2);
    let handle = EntityID { scene_id: 3, index: 0, generation: 0 };
    assert!(!ecs.is_valid(&handle));
    ecs.create_entity().unwrap();
    assert!(!ecs.is_valid(&handle));
}

#[test]
fn handle_of_a_later_generation_is_not_valid() {
    let mut ecs = ECS::new(3, 2);
    let entity = ecs.create_entity().unwrap();
    let later = EntityID { generation: entity.generation + 1, ..entity };
    assert!(!ecs.is_valid(&later));
}

#[test]
fn destroying_twice_changes_nothing() {
    let mut ecs = ECS::new(3, 2);
    let first = ecs.create_entity().unwrap();
    let second = ecs.create_entity().unwrap();
    ecs.destroy_entity(first);
    assert_eq!(ecs.get_entity_count(), 1);
    ecs.destroy_entity(first);
    assert_eq!(ecs.get_entity_count(), 1);
    assert!(ecs.is_valid(&second));
}

#[test]
fn store_without_records_is_full() {
    let mut ecs = ECS::new(3, 0);
    assert!(ecs.create_entity().is_none());
    assert_eq!(ecs.get_entity_count(), 0);
}

#[test]
fn get_index_gives_the_living_entity() {
    let mut ecs = ECS::new(3, 3);
    let first = ecs.create_entity().unwrap();
    let second = ecs.create_entity().unwrap();
    ecs.destroy_entity(first);
    assert!(ecs.get_index(0).is_none());
    let found = ecs.get_index(1).unwrap();
    assert_eq!((found.scene_id, found.index, found.generation), (3, 1, second.generation));
    assert!(ecs.get_index(2).is_none());
    assert!(ecs.get_index(3).is_none());
    let again = ecs.create_entity().unwrap();
    let found = ecs.get_index(0).unwrap();
    assert_eq!(found.generation, again.generation);
    assert_eq!(found.generation, 2);
}
