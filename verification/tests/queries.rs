use std::any::{Any, TypeId};
use std::collections::hash_map::DefaultHasher;
use std::hash::{Hash, Hasher};

use tecs::flat::{Ecs, EntityBuilder};
use tecs::query::{fetch, type_presence, zip_presence, Access, Imm, Mut, Queryable};

#[derive(Debug, PartialEq)]
struct Position {
    pub x: f32,
    pub y: f32,
}

#[derive(Debug, PartialEq)]
struct Speed {
    pub x: f32,
    pub y: f32,
}

#[derive(Debug, PartialEq)]
struct Health {
    pub health: f32,
}

#[derive(Debug, PartialEq)]
struct Burnable;

type Store = Ecs<Box<dyn Any>>;

fn key<T: 'static>() -> u64 {
    let mut hasher = DefaultHasher::new();
    TypeId::of::<T>().hash(&mut hasher);
    hasher.finish()
}

fn imm<T: 'static>() -> Imm {
    Imm { component_type: key::<T>() }
}

fn mutable<T: 'static>() -> Mut {
    Mut { component_type: key::<T>() }
}

fn with<'a, T: Any>(builder: EntityBuilder<'a, Box<dyn Any>>, value: T) -> EntityBuilder<'a, Box<dyn Any>> {
    builder.with_component(key::<T>(), Box::new(value))
}

fn get<T: 'static>(ecs: &Store, id: usize) -> Option<&T> {
    ecs.component(key::<T>(), id)?.downcast_ref()
}

fn scenario() -> Store {
    let mut ecs = Ecs::new();

    let builder = ecs.new_entity();
    let builder = with(builder, Position { x: 0.5, y: 2.3 });
    with(builder, Speed { x: 1.0, y: 4.0 }).build();

    let builder = ecs.new_entity();
    let builder = with(builder, Position { x: 1.0, y: 2.3 });
    let builder = with(builder, Speed { x: 12.0, y: 42.0 });
    let builder = with(builder, Health { health: 100.0 });
    with(builder, Burnable).build();

    let builder = ecs.new_entity();
    let builder = with(builder, Position { x: 18.2, y: 4.5 });
    let builder = with(builder, Speed { x: 122.0, y: 12.0 });
    let builder = with(builder, Health { health: 95.0 });
    with(builder, Burnable).build();

    ecs
}

#[test]
pub fn ecs_query() {
    let ecs = scenario();

    assert_eq!(fetch(&(mutable::<Position>(), imm::<Speed>()), &ecs).len(), 3);
    assert_eq!(fetch(&(mutable::<Position>(), imm::<Health>()), &ecs).len(), 2);
    assert_eq!(
        fetch(
            &(mutable::<Position>(), imm::<Health>(), imm::<Burnable>()),
            &ecs
        )
        .len(),
        2
    );

    let first = fetch(&(mutable::<Position>(), imm::<Speed>()), &ecs)[0];
    assert_eq!(
        (get::<Position>(&ecs, first), get::<Speed>(&ecs, first)),
        (
            Some(&Position { x: 0.5, y: 2.3 }),
            Some(&Speed { x: 1.0, y: 4.0 })
        )
    );
}

#[test]
pub fn query_yields_matching_entities_in_creation_order() {
    let ecs = scenario();
    assert_eq!(fetch(&(imm::<Position>(), imm::<Health>()), &ecs), vec![1, 2]);
    assert_eq!(fetch(&(imm::<Position>(),), &ecs), vec![0, 1, 2]);
    assert_eq!(fetch(&imm::<Position>(), &ecs), vec![0, 1, 2]);
    assert_eq!(fetch(&mutable::<Burnable>(), &ecs), vec![1, 2]);
}

#[test]
pub fn query_pairs_components_of_the_same_entity() {
    let ecs = scenario();
    let ids = fetch(&(imm::<Position>(), imm::<Health>()), &ecs);
    assert_eq!(
        (get::<Position>(&ecs, ids[0]), get::<Health>(&ecs, ids[0])),
        (
            Some(&Position { x: 1.0, y: 2.3 }),
            Some(&Health { health: 100.0 })
        )
    );
    assert_eq!(
        (get::<Position>(&ecs, ids[1]), get::<Health>(&ecs, ids[1])),
        (
            Some(&Position { x: 18.2, y: 4.5 }),
            Some(&Health { health: 95.0 })
        )
    );
}

#[test]
pub fn query_skips_an_entity_that_lacks_a_type_in_the_middle() {
    let mut ecs = scenario();
    let builder = ecs.new_entity();
    with(builder, Health { health: 1.0 }).build();
    let builder = ecs.new_entity();
    let builder = with(builder, Health { health: 2.0 });
    with(builder, Speed { x: 0.0, y: 0.0 }).build();
    assert_eq!(fetch(&(imm::<Speed>(), imm::<Health>()), &ecs), vec![1, 2, 4]);
    assert_eq!(fetch(&(imm::<Health>(), imm::<Speed>()), &ecs), vec![1, 2, 4]);
    assert_eq!(fetch(&imm::<Health>(), &ecs), vec![1, 2, 3, 4]);
    ecs.remove_entity(2);
    assert_eq!(fetch(&(imm::<Speed>(), imm::<Health>()), &ecs), vec![1, 4]);
}

#[test]
pub fn query_for_a_type_without_column_is_empty() {
    let ecs = scenario();
    assert!(fetch(&imm::<u8>(), &ecs).is_empty());
    assert!(fetch(&(imm::<Position>(), mutable::<u8>()), &ecs).is_empty());
    let empty: Store = Ecs::new();
    assert!(fetch(&imm::<Position>(), &empty).is_empty());
}

#[test]
pub fn requested_types_keep_the_order_of_the_request() {
    let query = (mutable::<Position>(), imm::<Health>(), imm::<Burnable>());
    assert_eq!(
        query.component_types(),
        vec![key::<Position>(), key::<Health>(), key::<Burnable>()]
    );
    assert_eq!(
        (imm::<Speed>(), mutable::<Position>()).component_types(),
        vec![key::<Speed>(), key::<Position>()]
    );
    assert_eq!((imm::<Speed>(),).component_types(), vec![key::<Speed>()]);
    assert_eq!(mutable::<Speed>().component_types(), vec![key::<Speed>()]);
}

#[test]
pub fn presence_columns_are_walked_in_lockstep() {
    assert_eq!(
        zip_presence(vec![true, true, false, false], vec![true, false, true, false]),
        vec![true, false, false, false]
    );
    assert_eq!(zip_presence(vec![true, true, true], vec![true]), vec![true]);
    assert_eq!(zip_presence(vec![true], vec![false, true, true]), vec![false]);
    assert_eq!(zip_presence(Vec::new(), vec![true]), Vec::<bool>::new());

    let ecs = scenario();
    assert_eq!(type_presence(&ecs, key::<Health>()), vec![false, true, true]);
    assert_eq!(type_presence(&ecs, key::<Position>()), vec![true, true, true]);
    assert_eq!(type_presence(&ecs, key::<u8>()), vec![false, false, false]);
    assert_eq!(
        (imm::<Position>(), imm::<Health>()).presence(&ecs),
        vec![false, true, true]
    );
}

#[test]
pub fn requests_of_four_to_eight_types() {
    let ecs = scenario();
    let four = (imm::<Position>(), imm::<Speed>(), imm::<Health>(), imm::<Burnable>());
    assert_eq!(fetch(&four, &ecs), vec![1, 2]);
    assert_eq!(
        four.component_types(),
        vec![key::<Position>(), key::<Speed>(), key::<Health>(), key::<Burnable>()]
    );
    let five = (
        imm::<Position>(),
        imm::<Speed>(),
        imm::<Health>(),
        imm::<Burnable>(),
        imm::<u8>(),
    );
    assert!(fetch(&five, &ecs).is_empty());
    let six = (
        imm::<Position>(),
        mutable::<Speed>(),
        imm::<Position>(),
        imm::<Position>(),
        imm::<Position>(),
        imm::<Position>(),
    );
    assert_eq!(fetch(&six, &ecs), vec![0, 1, 2]);
    assert_eq!(six.write_types(), vec![key::<Speed>()]);
    let seven = (
        imm::<Position>(),
        imm::<Speed>(),
        imm::<Position>(),
        imm::<Speed>(),
        imm::<Position>(),
        imm::<Speed>(),
        mutable::<Health>(),
    );
    assert_eq!(fetch(&seven, &ecs), vec![1, 2]);
    assert_eq!(seven.presence(&ecs), vec![false, true, true]);
    let eight = (
        imm::<Position>(),
        imm::<Speed>(),
        imm::<Health>(),
        imm::<Burnable>(),
        mutable::<Position>(),
        mutable::<Speed>(),
        mutable::<Health>(),
        mutable::<Burnable>(),
    );
    assert_eq!(fetch(&eight, &ecs), vec![1, 2]);
    assert_eq!(eight.component_types().len(), 8);
    assert_eq!(
        eight.write_types(),
        vec![key::<Position>(), key::<Speed>(), key::<Health>(), key::<Burnable>()]
    );
}

#[test]
pub fn request_as_a_list_of_any_length() {
    let mut ecs = scenario();
    let none: Vec<Access> = Vec::new();
    assert_eq!(fetch(&none, &ecs), vec![0, 1, 2]);
    assert!(none.component_types().is_empty());
    assert_eq!(none.presence(&ecs), vec![true, true, true]);

    let one = vec![Access::Imm(imm::<Health>())];
    assert_eq!(fetch(&one, &ecs), vec![1, 2]);

    let mut long: Vec<Access> = Vec::new();
    for _ in 0..10 {
        long.push(Access::Imm(imm::<Position>()));
        long.push(Access::Imm(imm::<Speed>()));
    }
    long.push(Access::Mut(mutable::<Burnable>()));
    assert_eq!(long.component_types().len(), 21);
    assert_eq!(long.write_types(), vec![key::<Burnable>()]);
    assert_eq!(fetch(&long, &ecs), vec![1, 2]);
    assert_eq!(
        fetch(&long, &ecs),
        fetch(&(imm::<Position>(), imm::<Speed>(), mutable::<Burnable>()), &ecs)
    );

    ecs.remove_entity(1);
    assert_eq!(fetch(&none, &ecs), vec![0, 2]);
    assert_eq!(fetch(&long, &ecs), vec![2]);
    let nested = vec![(imm::<Position>(), mutable::<Health>()), (imm::<Speed>(), mutable::<Burnable>())];
    assert_eq!(fetch(&nested, &ecs), vec![2]);
    assert_eq!(nested.write_types(), vec![key::<Health>(), key::<Burnable>()]);
}
