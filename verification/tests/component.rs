use entity_store::{Component, ComponentInfo, ComponentRegistry, Slot};

struct Position {
    x: u32,
    y: u32,
}

impl Component for Position {}

struct Marker;

impl Component for Marker {}

struct Wide(u64, u8);

impl Component for Wide {}

#[test]
fn info_of_a_type() {
    let info = ComponentInfo::new::<Position>();
    assert_eq!(info.size, 8);
    assert_eq!(info.align, 4);
    assert_eq!(info.stride, 12);
    let position = Position { x: 1, y: 2 };
    assert_eq!(position.x + position.y, 3);
}

#[test]
fn info_of_a_zero_sized_type() {
    let info = ComponentInfo::new::<Marker>();
    assert_eq!(info.size, 0);
    assert_eq!(info.align, 1);
    assert_eq!(info.stride, 1);
}

#[test]
fn info_of_a_padded_type() {
    let info = ComponentInfo::new::<Wide>();
    assert_eq!(info.size, std::mem::size_of::<Wide>());
    assert_eq!(info.align, std::mem::align_of::<Wide>());
    assert_eq!(info.stride, info.size + info.align);
    let wide = Wide(1, 2);
    assert_eq!(wide.0 + wide.1 as u64, 3);
}

#[test]
fn stride_exact_values() {
    let cases: [(usize, usize, usize); 9] = [
        (0, 1, 1),
        (1, 1, 2),
        (3, 4, 4),
        (4, 4, 8),
        (7, 2, 8),
        (8, 8, 16),
        (15, 16, 16),
        (16, 16, 32),
        (5, 3, 6),
    ];
    for (size, align, stride) in cases {
        let info = ComponentInfo::from_layout(size, align).unwrap();
        assert_eq!(info.size, size);
        assert_eq!(info.align, align);
        assert_eq!(info.stride, stride);
    }
}

#[test]
fn stride_across_sizes_and_alignments() {
    for align in [1usize, 2, 4, 8, 16, 32, 64] {
        for size in 0usize..200 {
            let info = ComponentInfo::from_layout(size, align).unwrap();
            assert!(info.stride >= 1 + size);
            assert_eq!(info.stride % align, 0);
            assert!(info.stride <= size + align);
            let mut smallest = 0;
            while smallest < 1 + size {
                smallest += align;
            }
            assert_eq!(info.stride, smallest);
        }
    }
}

#[test]
fn layout_with_zero_alignment_is_refused() {
    assert!(ComponentInfo::from_layout(8, 0).is_none());
}

#[test]
fn layout_with_unaddressable_stride_is_refused() {
    assert!(ComponentInfo::from_layout(usize::MAX, 1).is_none());
    assert!(ComponentInfo::from_layout(usize::MAX - 1, 2).is_none());
    assert!(ComponentInfo::from_layout(usize::MAX - 1, 1).is_some());
}

#[test]
fn registry_keeps_the_order_of_registration() {
    let mut registry = ComponentRegistry::new();
    assert_eq!(registry.len(), 0);
    registry.register::<Position>(30);
    registry.register::<Marker>(10);
    registry.register_info(20, ComponentInfo::from_layout(3, 2).unwrap());
    assert_eq!(registry.len(), 3);
    let (id, info) = registry.entry(0);
    assert_eq!((id, info.size, info.stride), (30, 8, 12));
    let (id, info) = registry.entry(1);
    assert_eq!((id, info.size, info.stride), (10, 0, 1));
    let (id, info) = registry.entry(2);
    assert_eq!((id, info.size, info.stride), (20, 3, 4));
}

#[test]
fn registering_twice_keeps_the_first_metadata() {
    let mut registry = ComponentRegistry::new();
    registry.register::<Position>(5);
    registry.register::<Marker>(5);
    assert_eq!(registry.len(), 1);
    let (id, info) = registry.entry(0);
    assert_eq!(id, 5);
    assert_eq!(info.size, 8);
}

#[test]
fn slot_is_filled_and_as_option() {
    let filled = Slot::Filled(3u8);
    let empty: Slot<u8> = Slot::Empty;
    assert!(filled.is_filled());
    assert!(!empty.is_filled());
    assert_eq!(filled.as_option(), Some(&3u8));
    assert_eq!(empty.as_option(), None);
}

#[test]
fn slot_as_option_mut() {
    let mut slot = Slot::Filled(3u8);
    *slot.as_option_mut().unwrap() = 4;
    assert_eq!(slot, Slot::Filled(4u8));
    let mut empty: Slot<u8> = Slot::Empty;
    assert!(empty.as_option_mut().is_none());
    assert_eq!(empty, Slot::Empty);
}
