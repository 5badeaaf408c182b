use entity_store::{Component, ComponentArray, ComponentInfo, Slot};

struct TestComponent(usize);

impl Component for TestComponent {}

fn payload(component: &TestComponent) -> [u8; std::mem::size_of::<usize>()] {
    component.0.to_ne_bytes()
}

fn small() -> ComponentInfo {
    ComponentInfo::from_layout(3, 2).unwrap()
}

#[test]
fn delete_index() {
    const LENGTH: usize = 32;
    let info = ComponentInfo::new::<TestComponent>();
    let mut array = ComponentArray::new(info, LENGTH);

    for index in 0..LENGTH {
        array.insert(index, &payload(&TestComponent(index)));
    }

    for index in 0..LENGTH {
        array.delete_index(index);
    }

    for index in 0..LENGTH {
        assert_eq!(array.get(index), Slot::Empty);
    }
}

#[test]
fn resize() {
    const STARTING_LENGTH: usize = 64;
    const RESIZED_LENGTH: usize = 128;
    let info = ComponentInfo::new::<TestComponent>();
    let mut array = ComponentArray::new(info, STARTING_LENGTH);

    for index in 0..STARTING_LENGTH {
        array.insert(index, &payload(&TestComponent(index)));
    }

    array.resize(RESIZED_LENGTH);

    for index in 0..RESIZED_LENGTH {
        let bytes = payload(&TestComponent(index));
        let component = if index < STARTING_LENGTH {
            Slot::Filled(&bytes[..])
        } else {
            Slot::Empty
        };
        assert_eq!(array.get(index), component);
    }
}

#[test]
fn new_column_is_zeroed() {
    let array = ComponentArray::new(small(), 5);
    assert_eq!(array.length(), 5);
    assert_eq!(array.component_info().stride, 4);
    assert_eq!(array.get_slice(), &[0u8; 20][..]);
    for index in 0..5 {
        assert!(!array.is_filled(index));
        assert_eq!(array.get(index), Slot::Empty);
    }
}

#[test]
fn column_without_slots() {
    let array = ComponentArray::new(small(), 0);
    assert_eq!(array.length(), 0);
    assert!(array.get_slice().is_empty());
}

#[test]
fn slot_is_a_tag_byte_and_the_payload() {
    let mut array = ComponentArray::new(small(), 3);
    let released = array.insert(1, &[7, 8, 9]);
    assert_eq!(released, Slot::Empty);
    assert_eq!(array.get_slice(), &[0, 0, 0, 0, 1, 7, 8, 9, 0, 0, 0, 0][..]);
    assert!(array.is_filled(1));
    assert!(!array.is_filled(0));
    assert!(!array.is_filled(2));
    assert_eq!(array.get(1), Slot::Filled(&[7u8, 8, 9][..]));
}

#[test]
fn insert_releases_what_the_slot_held() {
    let mut array = ComponentArray::new(small(), 2);
    assert_eq!(array.insert(0, &[1, 2, 3]), Slot::Empty);
    assert_eq!(array.insert(0, &[4, 5, 6]), Slot::Filled(vec![1, 2, 3]));
    assert_eq!(array.get(0), Slot::Filled(&[4u8, 5, 6][..]));
    assert_eq!(array.get(1), Slot::Empty);
}

#[test]
fn delete_index_zeroes_the_slot_and_releases_its_value() {
    let mut array = ComponentArray::new(small(), 3);
    array.insert(0, &[1, 2, 3]);
    array.insert(1, &[4, 5, 6]);
    array.insert(2, &[7, 8, 9]);
    assert_eq!(array.delete_index(1), Slot::Filled(vec![4, 5, 6]));
    assert_eq!(array.get_slice(), &[1, 1, 2, 3, 0, 0, 0, 0, 1, 7, 8, 9][..]);
    assert_eq!(array.delete_index(1), Slot::Empty);
    assert_eq!(array.get_slice(), &[1, 1, 2, 3, 0, 0, 0, 0, 1, 7, 8, 9][..]);
}

#[test]
fn resize_copies_the_bytes_and_zeroes_the_rest() {
    let mut array = ComponentArray::new(small(), 2);
    array.insert(1, &[7, 8, 9]);
    array.resize(4);
    assert_eq!(array.length(), 4);
    assert_eq!(array.get_slice(), &[0, 0, 0, 0, 1, 7, 8, 9, 0, 0, 0, 0, 0, 0, 0, 0][..]);
    assert_eq!(array.get(1), Slot::Filled(&[7u8, 8, 9][..]));
    assert_eq!(array.get(3), Slot::Empty);
    assert_eq!(array.insert(3, &[1, 1, 1]), Slot::Empty);
    assert_eq!(array.get(3), Slot::Filled(&[1u8, 1, 1][..]));
}

#[test]
fn get_mut_writes_in_place() {
    let mut array = ComponentArray::new(small(), 2);
    array.insert(1, &[7, 8, 9]);
    match array.get_mut(1) {
        Slot::Filled(bytes) => {
            assert_eq!(bytes.len(), 3);
            bytes[2] = 42;
        }
        Slot::Empty => panic!("the slot was filled"),
    }
    assert_eq!(array.get(1), Slot::Filled(&[7u8, 8, 42][..]));
    assert_eq!(array.get_mut(0), Slot::Empty);
    assert_eq!(array.get_slice(), &[0, 0, 0, 0, 1, 7, 8, 42][..]);
}

#[test]
fn clear_releases_every_value_once() {
    let mut array = ComponentArray::new(small(), 4);
    array.insert(3, &[3, 3, 3]);
    array.insert(0, &[1, 1, 1]);
    array.insert(2, &[2, 2, 2]);
    array.delete_index(2);
    let released = array.clear();
    assert_eq!(released, vec![vec![1u8, 1, 1], vec![3, 3, 3]]);
    assert_eq!(array.get_slice(), &[0u8; 16][..]);
    assert!(array.clear().is_empty());
}

#[test]
fn zero_sized_values_are_told_by_the_tag() {
    let info = ComponentInfo::from_layout(0, 1).unwrap();
    let mut array = ComponentArray::new(info, 3);
    assert_eq!(array.insert(1, &[]), Slot::Empty);
    assert_eq!(array.get_slice(), &[0u8, 1, 0][..]);
    assert_eq!(array.get(1), Slot::Filled(&[][..]));
    assert_eq!(array.get(0), Slot::Empty);
}
