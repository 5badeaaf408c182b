use entity_store::{ComponentID, ComponentInfo, EntityID, Query, QueryIter, ECS};

const NAME: ComponentID = 22;
const FLAG: ComponentID = 33;
const REST: ComponentID = 44;

fn store() -> (ECS, Vec<EntityID>) {
    let mut ecs = ECS::new(6, 8);
    ecs.register_info(NAME, ComponentInfo::from_layout(3, 1).unwrap());
    ecs.register_info(FLAG, ComponentInfo::from_layout(1, 1).unwrap());
    ecs.register_info(REST, ComponentInfo::from_layout(0, 1).unwrap());
    let entities: Vec<EntityID> = (0..6).map(|_| ecs.create_entity().unwrap()).collect();
    ecs.add_component(&entities[5], NAME, b"e_5");
    ecs.add_component(&entities[1], NAME, b"e_1");
    ecs.add_component(&entities[2], NAME, b"e_2");
    ecs.add_component(&entities[2], FLAG, &[2]);
    ecs.add_component(&entities[3], FLAG, &[3]);
    ecs.add_component(&entities[5], FLAG, &[5]);
    (ecs, entities)
}

fn names(ecs: &ECS) -> Vec<(usize, usize, Vec<u8>)> {
    let mut found = Vec::new();
    let mut iter = QueryIter::new(ecs, NAME);
    while let Some((entity, name)) = iter.next() {
        assert!(ecs.is_valid(&entity));
        found.push((entity.index, entity.generation, name.to_vec()));
    }
    assert!(iter.next().is_none());
    found
}

fn names_and_flags(ecs: &ECS) -> Vec<(usize, Vec<u8>, Vec<u8>)> {
    let mut found = Vec::new();
    let mut iter = QueryIter::new(ecs, (NAME, FLAG));
    while let Some((entity, name, flag)) = iter.next() {
        assert!(ecs.is_valid(&entity));
        found.push((entity.index, name.to_vec(), flag.to_vec()));
    }
    found
}

#[test]
fn query_for_one_type_yields_its_holders_in_order() {
    let (ecs, _) = store();
    assert_eq!(
        names(&ecs),
        vec![(1, 1, b"e_1".to_vec()), (2, 1, b"e_2".to_vec()), (5, 1, b"e_5".to_vec())]
    );
}

#[test]
fn query_for_two_types_yields_the_holders_of_both() {
    let (ecs, _) = store();
    assert_eq!(
        names_and_flags(&ecs),
        vec![(2, b"e_2".to_vec(), vec![2u8]), (5, b"e_5".to_vec(), vec![5u8])]
    );
    let mut swapped = QueryIter::new(&ecs, (FLAG, NAME));
    let (entity, flag, name) = swapped.next().unwrap();
    assert_eq!((entity.index, flag, name), (2, &[2u8][..], &b"e_2"[..]));
}

#[test]
fn query_for_a_type_that_nobody_holds_yields_nothing() {
    let (ecs, _) = store();
    let mut iter = QueryIter::new(&ecs, REST);
    assert!(iter.next().is_none());
    assert!(iter.next().is_none());
    let mut iter = QueryIter::new(&ecs, (NAME, REST));
    assert!(iter.next().is_none());
}

#[test]
fn query_follows_removal_destruction_and_reuse() {
    let (mut ecs, entities) = store();
    ecs.remove_component(&entities[1], NAME);
    ecs.destroy_entity(entities[2]);
    assert_eq!(names(&ecs), vec![(5, 1, b"e_5".to_vec())]);
    assert_eq!(names_and_flags(&ecs), vec![(5, b"e_5".to_vec(), vec![5u8])]);

    let reused = ecs.create_entity().unwrap();
    assert_eq!(reused.index, 2);
    assert_eq!(names(&ecs), vec![(5, 1, b"e_5".to_vec())]);
    ecs.add_component(&reused, NAME, b"new");
    assert_eq!(names(&ecs), vec![(2, 2, b"new".to_vec()), (5, 1, b"e_5".to_vec())]);
}

#[test]
fn query_yields_zero_sized_components() {
    let (mut ecs, entities) = store();
    ecs.add_component(&entities[4], REST, &[]);
    ecs.add_component(&entities[0], REST, &[]);
    let mut iter = QueryIter::new(&ecs, REST);
    let (entity, rest) = iter.next().unwrap();
    assert_eq!((entity.index, rest.len()), (0, 0));
    let (entity, rest) = iter.next().unwrap();
    assert_eq!((entity.index, rest.len()), (4, 0));
    assert!(iter.next().is_none());
}

#[test]
fn queries_walk_on_their_own() {
    let (ecs, _) = store();
    let mut first = QueryIter::new(&ecs, NAME);
    let mut second = QueryIter::new(&ecs, NAME);
    assert_eq!(first.next().unwrap().0.index, 1);
    assert_eq!(first.next().unwrap().0.index, 2);
    assert_eq!(second.next().unwrap().0.index, 1);
    assert_eq!(first.next().unwrap().0.index, 5);
    assert_eq!(second.next().unwrap().0.index, 2);
}

#[test]
fn query_over_a_store_without_entities() {
    let mut ecs = ECS::new(6, 0);
    ecs.register_info(NAME, ComponentInfo::from_layout(3, 1).unwrap());
    assert!(QueryIter::new(&ecs, NAME).next().is_none());
}

#[test]
fn query_is_accepted_for_registered_and_distinct_types() {
    let (ecs, _) = store();
    assert!(NAME.accepts(&ecs));
    assert!(!55u64.accepts(&ecs));
    assert!((NAME, FLAG).accepts(&ecs));
    assert!((FLAG, NAME).accepts(&ecs));
    assert!(!(NAME, NAME).accepts(&ecs));
    assert!(!(NAME, 55u64).accepts(&ecs));
    assert!(!(55u64, NAME).accepts(&ecs));
}

#[test]
fn query_steps_with_a_cursor() {
    let (ecs, _) = store();
    let array = FLAG.get_array(&ecs);
    let mut index = 0;
    let (entity, flag) = FLAG.next(&ecs, &mut index, &array).unwrap();
    assert_eq!((entity.index, flag, index), (2, &[2u8][..], 3));
    let (entity, flag) = FLAG.next(&ecs, &mut index, &array).unwrap();
    assert_eq!((entity.index, flag, index), (3, &[3u8][..], 4));
    let (entity, flag) = FLAG.next(&ecs, &mut index, &array).unwrap();
    assert_eq!((entity.index, flag, index), (5, &[5u8][..], 6));
    assert!(FLAG.next(&ecs, &mut index, &array).is_none());
    assert_eq!(index, 8);
}
