use tecs::archetype::{copy_bytes, Archetype};
use tecs::components::{Component, ComponentSet, ComponentsDefinition};
use tecs::layout::{align, compute_layout, TypeMetadata};
use tecs::signature::ComponentsMetadata;
use tecs::world::Ecs;

const POSITION: u64 = 10;
const VELOCITY: u64 = 20;
const RECTANGLE_SHAPE: u64 = 30;
const TAG: u64 = 40;
const MASS: u64 = 50;

fn pair(x: f32, y: f32) -> Vec<u8> {
    let mut bytes = x.to_ne_bytes().to_vec();
    bytes.extend_from_slice(&y.to_ne_bytes());
    bytes
}

fn position(x: f32, y: f32) -> Component {
    Component::new(POSITION, 4, pair(x, y)).unwrap()
}

fn velocity(x: f32, y: f32) -> Component {
    Component::new(VELOCITY, 4, pair(x, y)).unwrap()
}

fn rectangle_shape(width: f32, height: f32) -> Component {
    Component::new(RECTANGLE_SHAPE, 4, pair(width, height)).unwrap()
}

fn tag(value: u8) -> Component {
    Component::new(TAG, 1, vec![value]).unwrap()
}

fn mass(value: f64) -> Component {
    Component::new(MASS, 8, value.to_ne_bytes().to_vec()).unwrap()
}

fn position_velocity() -> ComponentsMetadata {
    ComponentsMetadata::from_types(&vec![
        TypeMetadata { component_type: POSITION, size: 8, align: 4 },
        TypeMetadata { component_type: VELOCITY, size: 8, align: 4 },
    ])
}

#[test]
pub fn ecs_new() {
    let ecs = Ecs::new();
    assert_eq!(ecs.entity_count(), 0);
}

#[test]
pub fn ecs_create_entity() {
    let mut ecs = Ecs::new();
    assert_eq!(ecs.entity_count(), 0);
    ecs.create_entity(ComponentSet::new().with(position(1.0, 1.5)).with(velocity(3.0, 0.5)));
    assert_eq!(ecs.entity_count(), 1);
    ecs.create_entity(ComponentSet::new().with(position(5.0, 8.5)).with(velocity(2.3, 1.4)));
    assert_eq!(ecs.entity_count(), 2);
}

#[test]
pub fn archetype_new() {
    let archetype = Archetype::new(position_velocity());
    assert_eq!(archetype.components_metadata().types_metadata.len(), 2);
}

#[test]
pub fn archetype_store() {
    let mut archetype = Archetype::new(position_velocity());
    let index = archetype.allocate_storage_for_entity(1);
    ComponentSet::new()
        .with(position(3f32, 5f32))
        .with(velocity(8f32, 6f32))
        .store_components(&mut archetype, index);
    assert_eq!(archetype.entity_count(), 1);

    let index = archetype.allocate_storage_for_entity(2);

    ComponentSet::new()
        .with(position(31f32, 8f32))
        .with(velocity(12f32, 5f32))
        .store_components(&mut archetype, index);
    assert_eq!(archetype.entity_count(), 2);

    assert_eq!(archetype.component_bytes(0, 0), pair(3f32, 5f32).as_slice());
    assert_eq!(archetype.component_bytes(1, 0), pair(8f32, 6f32).as_slice());
    assert_eq!(archetype.component_bytes(0, 1), pair(31f32, 8f32).as_slice());
    assert_eq!(archetype.component_bytes(1, 1), pair(12f32, 5f32).as_slice());
}

#[test]
pub fn align_rounds_up_to_the_next_multiple() {
    assert_eq!(align(0, 4), 0);
    assert_eq!(align(1, 4), 4);
    assert_eq!(align(4, 4), 4);
    assert_eq!(align(5, 4), 8);
    assert_eq!(align(13, 8), 16);
    assert_eq!(align(7, 1), 7);
    assert_eq!(align(9, 3), 9);
    assert_eq!(align(10, 3), 12);
    assert_eq!(align(usize::MAX - 3, 4), usize::MAX - 3);
}

#[test]
pub fn layout_pads_each_column_to_its_own_alignment() {
    let meta = vec![
        TypeMetadata { component_type: TAG, size: 1, align: 1 },
        TypeMetadata { component_type: POSITION, size: 8, align: 4 },
        TypeMetadata { component_type: MASS, size: 8, align: 8 },
    ];
    assert_eq!(compute_layout(&meta, 0), Some((vec![0, 0, 0], 0)));
    assert_eq!(compute_layout(&meta, 1), Some((vec![0, 4, 16], 24)));
    assert_eq!(compute_layout(&meta, 3), Some((vec![0, 4, 32], 56)));
    assert_eq!(compute_layout(&meta, 5), Some((vec![0, 8, 48], 88)));
    assert_eq!(compute_layout(&Vec::new(), 7), Some((Vec::new(), 0)));
}

#[test]
pub fn layout_that_does_not_fit_is_refused() {
    let meta = vec![
        TypeMetadata { component_type: POSITION, size: 8, align: 4 },
        TypeMetadata { component_type: MASS, size: 8, align: 8 },
    ];
    assert_eq!(compute_layout(&meta, usize::MAX / 8), None);
    assert_eq!(compute_layout(&meta, usize::MAX), None);
    let bytes = vec![TypeMetadata { component_type: TAG, size: 1, align: 1 }];
    assert_eq!(compute_layout(&bytes, usize::MAX), Some((vec![0], usize::MAX)));
    let padded = vec![
        TypeMetadata { component_type: TAG, size: 1, align: 1 },
        TypeMetadata { component_type: MASS, size: 0, align: 8 },
    ];
    assert_eq!(compute_layout(&padded, usize::MAX), None);
}

#[test]
pub fn capacity_doubles_from_one() {
    let mut archetype = Archetype::new(position_velocity());
    assert_eq!(archetype.capacity(), 0);
    let mut capacities = Vec::new();
    for id in 1..=9usize {
        assert!(archetype.can_reserve_slot());
        let index = archetype.allocate_storage_for_entity(id);
        assert_eq!(index, id - 1);
        capacities.push(archetype.capacity());
    }
    assert_eq!(capacities, vec![1, 2, 4, 4, 8, 8, 8, 8, 16]);
    assert_eq!(archetype.entity_count(), 9);
}

#[test]
pub fn growth_keeps_what_was_written() {
    let signature = ComponentsMetadata::from_types(&vec![
        TypeMetadata { component_type: TAG, size: 1, align: 1 },
        TypeMetadata { component_type: POSITION, size: 8, align: 4 },
        TypeMetadata { component_type: MASS, size: 8, align: 8 },
    ]);
    let mut archetype = Archetype::new(signature);
    for id in 0..17usize {
        let index = archetype.allocate_storage_for_entity(id + 1);
        ComponentSet::new()
            .with(mass(id as f64 * 0.5))
            .with(tag(id as u8))
            .with(position(id as f32, -(id as f32)))
            .store_components(&mut archetype, index);
        for earlier in 0..=id {
            assert_eq!(archetype.component_bytes(0, earlier), position(earlier as f32, -(earlier as f32)).bytes.as_slice());
            assert_eq!(archetype.component_bytes(1, earlier), [earlier as u8].as_slice());
            assert_eq!(archetype.component_bytes(2, earlier), (earlier as f64 * 0.5).to_ne_bytes().as_slice());
        }
    }
    assert_eq!(archetype.capacity(), 32);
}

#[test]
pub fn store_component_touches_one_slot_only() {
    let mut archetype = Archetype::new(position_velocity());
    for id in 1..=3usize {
        let index = archetype.allocate_storage_for_entity(id);
        archetype.store_component(&pair(id as f32, 0.0), 0, index);
        archetype.store_component(&pair(0.0, id as f32), 1, index);
    }
    archetype.store_component(&pair(7.0, 7.0), 1, 1);
    assert_eq!(archetype.component_bytes(0, 0), pair(1.0, 0.0).as_slice());
    assert_eq!(archetype.component_bytes(0, 1), pair(2.0, 0.0).as_slice());
    assert_eq!(archetype.component_bytes(0, 2), pair(3.0, 0.0).as_slice());
    assert_eq!(archetype.component_bytes(1, 0), pair(0.0, 1.0).as_slice());
    assert_eq!(archetype.component_bytes(1, 1), pair(7.0, 7.0).as_slice());
    assert_eq!(archetype.component_bytes(1, 2), pair(0.0, 3.0).as_slice());
}

#[test]
pub fn empty_signature_and_zero_sized_types_allocate_nothing() {
    let mut empty = Archetype::new(ComponentsMetadata::from_types(&Vec::new()));
    assert_eq!(empty.allocate_storage_for_entity(1), 0);
    assert_eq!(empty.allocate_storage_for_entity(2), 1);
    assert_eq!(empty.entity_count(), 2);

    let marker = ComponentsMetadata::from_types(&vec![TypeMetadata {
        component_type: TAG,
        size: 0,
        align: 1,
    }]);
    let mut markers = Archetype::new(marker);
    let index = markers.allocate_storage_for_entity(1);
    markers.store_component(&[], 0, index);
    assert!(markers.component_bytes(0, index).is_empty());
}

#[test]
pub fn copy_bytes_replaces_the_given_range() {
    let mut destination = vec![0u8, 1, 2, 3, 4, 5, 6, 7];
    copy_bytes(&[10, 11, 12, 13, 14], 1, &mut destination, 2, 3);
    assert_eq!(destination, vec![0, 1, 11, 12, 13, 5, 6, 7]);
    copy_bytes(&[9], 0, &mut destination, 7, 0);
    assert_eq!(destination, vec![0, 1, 11, 12, 13, 5, 6, 7]);
}

#[test]
pub fn signature_does_not_depend_on_the_order_of_construction() {
    let mut ecs = Ecs::new();
    let first = ecs.create_entity(ComponentSet::new().with(position(1.0, 2.0)).with(velocity(3.0, 4.0)));
    let second = ecs.create_entity(ComponentSet::new().with(velocity(7.0, 8.0)).with(position(5.0, 6.0)));
    let third = ecs.create_entity(
        ComponentSet::new()
            .with(position(0.0, 0.0))
            .with(rectangle_shape(2.0, 1.0)),
    );
    assert_eq!((first, second, third), (0, 1, 2));
    assert_eq!(ecs.archetype_count(), 2);
    assert_eq!(ecs.entity_count(), 3);

    let moving = ecs.archetype(&position_velocity()).unwrap();
    assert_eq!(moving.entity_count(), 2);
    assert_eq!(moving.component_bytes(0, 0), pair(1.0, 2.0).as_slice());
    assert_eq!(moving.component_bytes(1, 0), pair(3.0, 4.0).as_slice());
    assert_eq!(moving.component_bytes(0, 1), pair(5.0, 6.0).as_slice());
    assert_eq!(moving.component_bytes(1, 1), pair(7.0, 8.0).as_slice());

    let swapped = ComponentsMetadata::from_types(&vec![
        TypeMetadata { component_type: VELOCITY, size: 8, align: 4 },
        TypeMetadata { component_type: POSITION, size: 8, align: 4 },
        TypeMetadata { component_type: VELOCITY, size: 8, align: 4 },
    ]);
    assert!(swapped.same_signature(&position_velocity()));
    assert_eq!(ecs.find_archetype(&swapped), Some(0));

    let shapes = ComponentSet::new()
        .with(rectangle_shape(0.0, 0.0))
        .with(position(0.0, 0.0));
    assert_eq!(shapes.component_types(), vec![POSITION, RECTANGLE_SHAPE]);
    assert_eq!(ecs.find_archetype(&shapes.metadata()), Some(1));
    assert!(ecs.archetype(&ComponentsMetadata::from_types(&Vec::new())).is_none());
}

#[test]
pub fn component_set_replaces_a_value_of_the_same_type() {
    let set = ComponentSet::new()
        .with(position(1.0, 1.0))
        .with(tag(3))
        .with(position(2.0, 2.0));
    assert_eq!(set.len(), 2);
    let mut ecs = Ecs::new();
    assert!(ecs.can_create_entity(&set));
    ecs.create_entity(set);
    let metadata = ComponentsMetadata::from_types(&vec![
        TypeMetadata { component_type: TAG, size: 1, align: 1 },
        TypeMetadata { component_type: POSITION, size: 8, align: 4 },
    ]);
    assert_eq!(metadata.index_of(POSITION), Some(0));
    assert_eq!(metadata.index_of(TAG), Some(1));
    assert_eq!(metadata.index_of(MASS), None);
    let archetype = ecs.archetype(&metadata).unwrap();
    assert_eq!(archetype.component_bytes(0, 0), pair(2.0, 2.0).as_slice());
    assert_eq!(archetype.component_bytes(1, 0), [3u8].as_slice());
}

#[test]
pub fn component_without_alignment_is_refused() {
    assert!(Component::new(TAG, 0, vec![1]).is_none());
    let component = Component::new(TAG, 2, vec![1, 2, 3]).unwrap();
    assert_eq!(component.metadata.size, 3);
    assert_eq!(component.metadata.align, 2);
    assert_eq!(component.metadata.component_type, TAG);
}

#[test]
pub fn remove_slot_keeps_the_other_slots() {
    let mut archetype = Archetype::new(position_velocity());
    for id in 1..=4usize {
        let index = archetype.allocate_storage_for_entity(id);
        archetype.store_component(&pair(id as f32, 0.5), 0, index);
        archetype.store_component(&pair(-(id as f32), 1.5), 1, index);
    }
    archetype.remove_slot(1);
    assert_eq!(archetype.entity_count(), 3);
    assert_eq!(archetype.capacity(), 4);
    assert_eq!(
        (archetype.entity_at(0), archetype.entity_at(1), archetype.entity_at(2)),
        (1, 4, 3)
    );
    assert_eq!(archetype.component_bytes(0, 0), pair(1.0, 0.5).as_slice());
    assert_eq!(archetype.component_bytes(0, 1), pair(4.0, 0.5).as_slice());
    assert_eq!(archetype.component_bytes(1, 1), pair(-4.0, 1.5).as_slice());
    assert_eq!(archetype.component_bytes(0, 2), pair(3.0, 0.5).as_slice());
    assert_eq!(archetype.component_bytes(1, 2), pair(-3.0, 1.5).as_slice());
    archetype.remove_slot(2);
    archetype.remove_slot(0);
    assert_eq!(archetype.entity_count(), 1);
    assert_eq!(archetype.entity_at(0), 4);
    assert_eq!(archetype.component_bytes(1, 0), pair(-4.0, 1.5).as_slice());
    assert_eq!(archetype.find_entity(4), Some(0));
    assert_eq!(archetype.find_entity(1), None);
}

#[test]
pub fn copy_within_moves_a_range_inside_one_buffer() {
    let mut data = vec![0u8, 1, 2, 3, 4, 5, 6, 7];
    tecs::archetype::copy_within(&mut data, 5, 1, 3);
    assert_eq!(data, vec![0, 5, 6, 7, 4, 5, 6, 7]);
    tecs::archetype::copy_within(&mut data, 0, 4, 2);
    assert_eq!(data, vec![0, 5, 6, 7, 0, 5, 6, 7]);
}
