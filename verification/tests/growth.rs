use entity_store::{ComponentID, ComponentInfo, EntityID, GrowFn, ECS};

const NAME: ComponentID = 22;
const FLAG: ComponentID = 33;

struct Double;

impl GrowFn for Double {
    fn grow(&self, capacity: usize) -> usize {
        capacity * 2
    }
}

struct Fixed(usize);

impl GrowFn for Fixed {
    fn grow(&self, _capacity: usize) -> usize {
        self.0
    }
}

struct Never;

impl GrowFn for Never {
    fn grow(&self, _capacity: usize) -> usize {
        panic!("the policy is asked only when the store is full")
    }
}

fn full_store(capacity: usize) -> (ECS, Vec<EntityID>) {
    let mut ecs = ECS::new(5, capacity);
    ecs.register_info(NAME, ComponentInfo::from_layout(3, 1).unwrap());
    ecs.register_info(FLAG, ComponentInfo::from_layout(1, 1).unwrap());
    let entities = (0..capacity).map(|_| ecs.create_entity().unwrap()).collect();
    (ecs, entities)
}

#[test]
fn growth_keeps_entities_and_components() {
    let (mut ecs, entities) = full_store(3);
    ecs.add_component(&entities[0], NAME, b"one");
    ecs.add_component(&entities[2], FLAG, &[7]);
    ecs.destroy_entity(entities[1]);

    ecs.grow_capacity_to_size(7);

    assert_eq!(ecs.get_capacity(), 7);
    assert_eq!(ecs.get_entity_count(), 2);
    assert!(ecs.is_valid(&entities[0]));
    assert!(!ecs.is_valid(&entities[1]));
    assert!(ecs.is_valid(&entities[2]));
    assert_eq!(ecs.get_component(&entities[0], NAME).unwrap(), b"one");
    assert_eq!(ecs.get_component(&entities[2], FLAG).unwrap(), &[7u8][..]);
    assert!(!ecs.has_component(&entities[0], FLAG));
    assert!(!ecs.has_component(&entities[2], NAME));
    assert_eq!(ecs.get_array(NAME).length(), 7);
    assert_eq!(ecs.get_array(FLAG).length(), 7);
    for index in 3..7 {
        assert!(ecs.get_index(index).is_none());
        assert!(!ecs.get_array(NAME).is_filled(index));
        assert!(!ecs.get_array(FLAG).is_filled(index));
        assert!(!ecs.is_valid(&EntityID { scene_id: 5, index, generation: 0 }));
    }

    let reused = ecs.create_entity().unwrap();
    assert_eq!((reused.index, reused.generation), (1, 2));
    for index in 3..7 {
        let fresh = ecs.create_entity().unwrap();
        assert_eq!((fresh.index, fresh.generation), (index, 1));
        assert!(!ecs.has_component(&fresh, NAME));
    }
    assert!(ecs.create_entity().is_none());
}

#[test]
fn growing_says_whether_it_grew() {
    let mut ecs = ECS::new(5, 4);
    assert!(!ecs.try_grow_capacity_to_size(4));
    assert!(!ecs.try_grow_capacity_to_size(3));
    assert!(!ecs.try_grow_capacity_to_size(0));
    assert_eq!(ecs.get_capacity(), 4);
    assert!(ecs.try_grow_capacity_to_size(5));
    assert_eq!(ecs.get_capacity(), 5);
}

#[test]
fn growing_beyond_the_address_range_is_refused() {
    let mut ecs = ECS::new(5, 4);
    ecs.register_info(NAME, ComponentInfo::from_layout(3, 1).unwrap());
    assert!(!ecs.try_grow_capacity_to_size(usize::MAX));
    assert!(!ecs.try_grow_capacity_to_size(usize::MAX / 4 + 1));
    assert_eq!(ecs.get_capacity(), 4);
    assert_eq!(ecs.get_array(NAME).length(), 4);
}

#[test]
fn full_store_without_policy_refuses() {
    let (mut ecs, _) = full_store(2);
    assert!(!ecs.has_grow_fn());
    assert!(ecs.create_entity().is_none());
    assert_eq!(ecs.get_capacity(), 2);
    assert_eq!(ecs.get_entity_count(), 2);
}

#[test]
fn full_store_with_policy_grows() {
    let (mut ecs, entities) = full_store(2);
    ecs.add_component(&entities[1], NAME, b"two");
    ecs.set_grow_fn(Some(Box::new(Double)));
    assert!(ecs.has_grow_fn());

    let entity = ecs.create_entity().unwrap();
    assert_eq!((entity.index, entity.generation), (2, 1));
    assert_eq!(ecs.get_capacity(), 4);
    assert_eq!(ecs.get_entity_count(), 3);
    assert!(ecs.is_valid(&entity));
    assert!(ecs.is_valid(&entities[0]));
    assert_eq!(ecs.get_component(&entities[1], NAME).unwrap(), b"two");
    assert!(!ecs.has_component(&entity, NAME));

    assert_eq!(ecs.create_entity().unwrap().index, 3);
    assert_eq!(ecs.create_entity().unwrap().index, 4);
    assert_eq!(ecs.get_capacity(), 8);
}

#[test]
fn policy_is_asked_only_when_the_store_is_full() {
    let mut ecs = ECS::new(5, 2);
    ecs.set_grow_fn(Some(Box::new(Never)));
    let first = ecs.create_entity().unwrap();
    ecs.create_entity().unwrap();
    ecs.destroy_entity(first);
    assert_eq!(ecs.create_entity().unwrap().index, 0);
    assert_eq!(ecs.get_capacity(), 2);
}

#[test]
fn policy_that_does_not_grow_leaves_the_store_full() {
    let (mut ecs, entities) = full_store(2);
    for answer in [0, 1, 2, usize::MAX] {
        ecs.set_grow_fn(Some(Box::new(Fixed(answer))));
        assert!(ecs.create_entity().is_none());
        assert!(!ecs.grow_capacity());
        assert_eq!(ecs.get_capacity(), 2);
        assert_eq!(ecs.get_entity_count(), 2);
        assert!(ecs.is_valid(&entities[0]));
    }
    ecs.set_grow_fn(Some(Box::new(Fixed(3))));
    assert_eq!(ecs.create_entity().unwrap().index, 2);
    assert_eq!(ecs.get_capacity(), 3);
}

#[test]
fn policy_can_be_removed() {
    let (mut ecs, _) = full_store(1);
    ecs.set_grow_fn(Some(Box::new(Double)));
    ecs.set_grow_fn(None);
    assert!(!ecs.has_grow_fn());
    assert!(ecs.create_entity().is_none());
}

#[test]
fn empty_store_grows_by_its_policy() {
    let mut ecs = ECS::new(5, 0);
    ecs.set_grow_fn(Some(Box::new(Fixed(2))));
    let entity = ecs.create_entity().unwrap();
    assert_eq!((entity.index, entity.generation), (0, 1));
    assert_eq!(ecs.get_capacity(), 2);
}

#[test]
fn creating_with_a_capacity_grows_only_a_full_store() {
    let mut ecs = ECS::new(5, 1);
    let first = ecs.create_entity_growing_to(10).unwrap();
    assert_eq!((first.index, first.generation), (0, 1));
    assert_eq!(ecs.get_capacity(), 1);

    let second = ecs.create_entity_growing_to(3).unwrap();
    assert_eq!((second.index, second.generation), (1, 1));
    assert_eq!(ecs.get_capacity(), 3);
    assert_eq!(ecs.get_entity_count(), 2);
    assert!(ecs.is_valid(&first));

    ecs.create_entity().unwrap();
    assert!(ecs.create_entity_growing_to(3).is_none());
    assert!(ecs.create_entity_growing_to(2).is_none());
    assert_eq!(ecs.get_capacity(), 3);
    assert_eq!(ecs.get_entity_count(), 3);
}

#[test]
fn store_of_one_doubles_on_the_second_creation() {
    let mut ecs = ECS::new(5, 1);
    ecs.set_grow_fn(Some(Box::new(Double)));
    let a = ecs.create_entity().unwrap();
    assert_eq!(ecs.get_capacity(), 1);

    let b = ecs.create_entity().unwrap();
    assert_eq!((b.index, b.generation), (1, 1));
    assert_eq!(ecs.get_capacity(), 2);
    assert_eq!(ecs.get_entity_count(), 2);
    assert!(ecs.is_valid(&a));
    assert!(ecs.is_valid(&b));
}

#[test]
fn creation_grows_to_the_answer_of_the_policy() {
    let (mut ecs, _) = full_store(3);
    ecs.set_grow_fn(Some(Box::new(Fixed(11))));
    let entity = ecs.create_entity().unwrap();
    assert_eq!((entity.index, entity.generation), (3, 1));
    assert_eq!(ecs.get_capacity(), 11);
    assert_eq!(ecs.get_array(NAME).length(), 11);
}
