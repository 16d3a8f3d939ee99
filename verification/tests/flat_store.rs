use std::any::{Any, TypeId};
use std::collections::hash_map::DefaultHasher;
use std::hash::{Hash, Hasher};

use tecs::flat::{ComponentIter, ComponentIterMut, Ecs, EntityBuilder};

#[derive(Debug, PartialEq)]
struct Position {
    pub x: f32,
    pub y: f32,
}

#[derive(Debug, PartialEq)]
struct Speed {
    pub x: f32,
    pub y: f32,
}

#[derive(Debug, PartialEq)]
struct Health {
    pub health: f32,
}

#[derive(Debug, PartialEq)]
struct Burnable;

type Store = Ecs<Box<dyn Any>>;

fn key<T: 'static>() -> u64 {
    let mut hasher = DefaultHasher::new();
    TypeId::of::<T>().hash(&mut hasher);
    hasher.finish()
}

fn with<'a, T: Any>(builder: EntityBuilder<'a, Box<dyn Any>>, value: T) -> EntityBuilder<'a, Box<dyn Any>> {
    builder.with_component(key::<T>(), Box::new(value))
}

fn get<T: 'static>(ecs: &Store, id: usize) -> Option<&T> {
    ecs.component(key::<T>(), id)?.downcast_ref()
}

fn get_mut<T: 'static>(ecs: &mut Store, id: usize) -> Option<&mut T> {
    ecs.component_mut(key::<T>(), id)?.downcast_mut()
}

fn three_entities() -> Store {
    let mut ecs = Ecs::new();
    let builder = ecs.new_entity();
    let builder = with(builder, Position { x: 0.5, y: 2.3 });
    with(builder, Speed { x: 1.0, y: 2.0 }).build();

    let builder = ecs.new_entity();
    let builder = with(builder, Position { x: 0.0, y: 2.0 });
    with(builder, Health { health: 15.0 }).build();

    let builder = ecs.new_entity();
    let builder = with(builder, Position { x: 1.1, y: 2.5 });
    let builder = with(builder, Speed { x: 0.5, y: 1.3 });
    with(builder, Health { health: 12.0 }).build();
    ecs
}

#[test]
pub fn ecs_build_entity() {
    let mut ecs: Store = Ecs::new();
    ecs.new_entity().build();
}

#[test]
pub fn ecs_component() {
    let mut ecs: Store = Ecs::new();
    let builder = ecs.new_entity();
    let builder = with(builder, Position { x: 0.5, y: 2.3 });
    with(builder, Speed { x: 1.0, y: 4.0 }).build();

    assert_eq!(
        *get::<Position>(&ecs, 0).unwrap(),
        Position { x: 0.5, y: 2.3 }
    );
}

#[test]
pub fn ecs_component_mut() {
    let mut ecs: Store = Ecs::new();
    let builder = ecs.new_entity();
    let builder = with(builder, Position { x: 0.5, y: 2.3 });
    with(builder, Speed { x: 1.0, y: 4.0 }).build();

    assert_eq!(
        *get::<Position>(&ecs, 0).unwrap(),
        Position { x: 0.5, y: 2.3 }
    );

    get_mut::<Position>(&mut ecs, 0).unwrap().x = 100.0;
    get_mut::<Position>(&mut ecs, 0).unwrap().y = 976.5;

    assert_eq!(
        *get::<Position>(&ecs, 0).unwrap(),
        Position { x: 100.0, y: 976.5 }
    );
}

#[test]
pub fn component_iter() {
    let ecs = three_entities();

    assert_eq!(
        *ecs.component_iter(key::<Position>())
            .nth(0)
            .unwrap()
            .downcast_ref::<Position>()
            .unwrap(),
        Position { x: 0.5, y: 2.3 }
    );
    assert_eq!(
        *ecs.component_iter(key::<Position>())
            .nth(1)
            .unwrap()
            .downcast_ref::<Position>()
            .unwrap(),
        Position { x: 0.0, y: 2.0 }
    );
    assert_eq!(
        *ecs.component_iter(key::<Position>())
            .nth(2)
            .unwrap()
            .downcast_ref::<Position>()
            .unwrap(),
        Position { x: 1.1, y: 2.5 }
    );
}

#[test]
pub fn component_iter_mut() {
    let mut ecs = three_entities();

    let mut positions = ecs.component_iter_mut(key::<Position>());
    while let Some(position) = positions.next() {
        position.downcast_mut::<Position>().unwrap().y = 0.0;
    }

    assert_eq!(
        *get::<Position>(&ecs, 0).unwrap(),
        Position { x: 0.5, y: 0.0 }
    );
    assert_eq!(
        *get::<Position>(&ecs, 1).unwrap(),
        Position { x: 0.0, y: 0.0 }
    );
    assert_eq!(
        *get::<Position>(&ecs, 2).unwrap(),
        Position { x: 1.1, y: 0.0 }
    );
}

#[test]
pub fn ecs_remove_entity() {
    let mut ecs: Store = Ecs::new();
    let builder = ecs.new_entity();
    let builder = with(builder, Position { x: 0.5, y: 2.3 });
    with(builder, Speed { x: 1.0, y: 4.0 }).build();

    let builder = ecs.new_entity();
    let builder = with(builder, Position { x: 1.0, y: 2.3 });
    let builder = with(builder, Speed { x: 12.0, y: 42.0 });
    let builder = with(builder, Health { health: 100.0 });
    with(builder, Burnable).build();

    let builder = ecs.new_entity();
    let builder = with(builder, Position { x: 18.2, y: 4.5 });
    let builder = with(builder, Speed { x: 122.0, y: 12.0 });
    let builder = with(builder, Health { health: 95.0 });
    with(builder, Burnable).build();

    ecs.remove_entity(1);
    ecs.remove_entity(0);

    assert_eq!(ecs.new_entity().build(), 0);
    assert_eq!(
        with(ecs.new_entity(), Position { x: 15.0, y: 23.0 }).build(),
        1
    );
    assert_eq!(ecs.new_entity().build(), 3);

    for &i in [0usize, 3].iter() {
        assert!(get::<Position>(&ecs, i).is_none());
        assert!(get::<Speed>(&ecs, i).is_none());
        assert!(get::<Health>(&ecs, i).is_none());
        assert!(get::<Burnable>(&ecs, i).is_none());
    }

    assert!(get::<Position>(&ecs, 1).is_some());
}

#[test]
pub fn removed_entity_holds_nothing_and_its_id_comes_back() {
    let mut ecs = three_entities();
    assert_eq!(ecs.entity_count(), 3);
    ecs.remove_entity(2);
    assert_eq!(ecs.entity_count(), 2);
    assert!(get::<Position>(&ecs, 2).is_none());
    assert!(get::<Speed>(&ecs, 2).is_none());
    assert!(get::<Health>(&ecs, 2).is_none());
    assert_eq!(*get::<Position>(&ecs, 1).unwrap(), Position { x: 0.0, y: 2.0 });
    let id = with(ecs.new_entity(), Burnable).build();
    assert_eq!(id, 2);
    assert!(get::<Burnable>(&ecs, 2).is_some());
    assert!(get::<Position>(&ecs, 2).is_none());
    assert_eq!(ecs.next_entity_id(), 3);
}

#[test]
pub fn column_created_late_covers_every_identifier() {
    let mut ecs = three_entities();
    ecs.remove_entity(0);
    let id = with(ecs.new_entity(), Burnable).build();
    assert_eq!(id, 0);
    // The column of `Burnable` is new, yet removing the last entity finds a slot in it.
    ecs.remove_entity(2);
    assert!(get::<Burnable>(&ecs, 2).is_none());
    assert!(get::<Burnable>(&ecs, 0).is_some());
}

#[test]
pub fn last_component_of_a_type_wins() {
    let mut ecs: Store = Ecs::new();
    let builder = ecs.new_entity();
    let builder = with(builder, Health { health: 1.0 });
    let builder = with(builder, Speed { x: 1.0, y: 1.0 });
    let id = with(builder, Health { health: 2.0 }).build();
    assert_eq!(*get::<Health>(&ecs, id).unwrap(), Health { health: 2.0 });
    assert_eq!(*get::<Speed>(&ecs, id).unwrap(), Speed { x: 1.0, y: 1.0 });
}

#[test]
pub fn lookup_out_of_range_or_of_unknown_type_finds_nothing() {
    let mut ecs = three_entities();
    assert!(get::<Position>(&ecs, 3).is_none());
    assert!(get::<Position>(&ecs, usize::MAX).is_none());
    assert!(get::<Burnable>(&ecs, 0).is_none());
    assert!(get_mut::<Burnable>(&mut ecs, 0).is_none());
    assert!(get::<Health>(&ecs, 0).is_none());
}

#[test]
pub fn set_component_replaces_and_adds() {
    let mut ecs = three_entities();
    ecs.set_component(key::<Health>(), 0, Box::new(Health { health: 7.0 }));
    ecs.set_component(key::<Position>(), 0, Box::new(Position { x: 9.0, y: 9.0 }));
    assert_eq!(*get::<Health>(&ecs, 0).unwrap(), Health { health: 7.0 });
    assert_eq!(*get::<Position>(&ecs, 0).unwrap(), Position { x: 9.0, y: 9.0 });
    assert_eq!(*get::<Position>(&ecs, 1).unwrap(), Position { x: 0.0, y: 2.0 });
}

#[test]
pub fn iterator_skips_entities_without_the_type() {
    let ecs = three_entities();
    assert_eq!(ecs.component_iter(key::<Position>()).count(), 3);
    assert_eq!(ecs.component_iter(key::<Speed>()).count(), 2);
    assert_eq!(ecs.component_iter(key::<Health>()).count(), 2);
    assert_eq!(ecs.component_iter(key::<Burnable>()).count(), 0);
    let mut speeds: ComponentIter<Box<dyn Any>> = ComponentIter::new(&ecs, key::<Speed>());
    assert_eq!(
        *speeds.next().unwrap().downcast_ref::<Speed>().unwrap(),
        Speed { x: 1.0, y: 2.0 }
    );
    assert_eq!(
        *speeds.next().unwrap().downcast_ref::<Speed>().unwrap(),
        Speed { x: 0.5, y: 1.3 }
    );
    assert!(speeds.next().is_none());
    assert!(speeds.next().is_none());
    assert!(ecs.component_iter(key::<Speed>()).nth(2).is_none());
    assert!(ecs.component_iter(key::<Burnable>()).nth(0).is_none());
}

#[test]
pub fn mutable_iterator_reaches_only_present_components() {
    let mut ecs = three_entities();
    let mut count = 0;
    let mut healths: ComponentIterMut<Box<dyn Any>> = ComponentIterMut::new(&mut ecs, key::<Health>());
    while let Some(health) = healths.next() {
        health.downcast_mut::<Health>().unwrap().health += 1.0;
        count += 1;
    }
    assert_eq!(count, 2);
    assert!(get::<Health>(&ecs, 0).is_none());
    assert_eq!(*get::<Health>(&ecs, 1).unwrap(), Health { health: 16.0 });
    assert_eq!(*get::<Health>(&ecs, 2).unwrap(), Health { health: 13.0 });
    let mut none = ecs.component_iter_mut(key::<Burnable>());
    assert!(none.next().is_none());
}
