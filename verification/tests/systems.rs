use std::any::{Any, TypeId};
use std::collections::hash_map::DefaultHasher;
use std::hash::{Hash, Hasher};

use tecs::flat::{Ecs, EntityBuilder};
use tecs::query::{fetch, Access, Imm, Mut};
use tecs::system::{
    all_distinct, holds_type, is_exclusive, repeats_are_read_only, Runnable, System,
    SystemSchedule,
};

#[derive(Debug, PartialEq)]
struct Position {
    pub x: f32,
    pub y: f32,
}

#[derive(Debug, PartialEq)]
struct Speed {
    pub x: f32,
    pub y: f32,
}

#[derive(Debug, PartialEq)]
struct Health {
    pub health: f32,
}

#[derive(Debug, PartialEq)]
struct Burnable;

type Value = Box<dyn Any>;
type Store = Ecs<Value>;

fn key<T: 'static>() -> u64 {
    let mut hasher = DefaultHasher::new();
    TypeId::of::<T>().hash(&mut hasher);
    hasher.finish()
}

fn imm<T: 'static>() -> Imm {
    Imm { component_type: key::<T>() }
}

fn mutable<T: 'static>() -> Mut {
    Mut { component_type: key::<T>() }
}

fn with<'a, T: Any>(builder: EntityBuilder<'a, Value>, value: T) -> EntityBuilder<'a, Value> {
    builder.with_component(key::<T>(), Box::new(value))
}

fn get<T: 'static>(ecs: &Store, id: usize) -> Option<&T> {
    ecs.component(key::<T>(), id)?.downcast_ref()
}

fn scenario() -> Store {
    let mut ecs = Ecs::new();

    let builder = ecs.new_entity();
    let builder = with(builder, Position { x: 0.5, y: 2.3 });
    with(builder, Speed { x: 1.0, y: 4.0 }).build();

    let builder = ecs.new_entity();
    let builder = with(builder, Position { x: 1.0, y: 2.3 });
    let builder = with(builder, Speed { x: 12.0, y: 42.0 });
    let builder = with(builder, Health { health: 100.0 });
    with(builder, Burnable).build();

    let builder = ecs.new_entity();
    let builder = with(builder, Position { x: 18.2, y: 4.5 });
    let builder = with(builder, Speed { x: 122.0, y: 12.0 });
    let builder = with(builder, Health { health: 95.0 });
    with(builder, Burnable).build();

    ecs
}

fn heal(_row: Vec<&Value>) -> Vec<Value> {
    vec![Box::new(Health { health: 100.0 })]
}

fn teleport_to_origin(_row: Vec<&Value>) -> Vec<Value> {
    vec![Box::new(Position { x: 0.0, y: 0.0 })]
}

fn advance(row: Vec<&Value>) -> Vec<Value> {
    let position = row[0].downcast_ref::<Position>().unwrap();
    let speed = row[1].downcast_ref::<Speed>().unwrap();
    vec![Box::new(Position {
        x: position.x + speed.x,
        y: position.y + speed.y,
    })]
}

fn swap_and_burn(row: Vec<&Value>) -> Vec<Value> {
    let health = row[0].downcast_ref::<Health>().unwrap();
    let position = row[2].downcast_ref::<Position>().unwrap();
    vec![
        Box::new(Health { health: health.health - 10.0 }),
        Box::new(Position { x: position.y, y: position.x }),
    ]
}

fn nothing(_row: Vec<&Value>) -> Vec<Value> {
    Vec::new()
}

#[test]
pub fn ecs_system() {
    let mut ecs = scenario();

    let heal_system = System::new((mutable::<Health>(),), heal).unwrap();

    heal_system.run(&mut ecs);

    for id in fetch(&(imm::<Health>(),), &ecs) {
        assert_eq!(get::<Health>(&ecs, id).unwrap().health, 100.0);
    }
}

#[test]
pub fn ecs_system_schedule() {
    let mut ecs = scenario();

    let heal_system = System {
        query: (mutable::<Health>(),),
        function: heal,
    };

    let teleport_to_origin = System {
        query: (mutable::<Position>(),),
        function: teleport_to_origin,
    };

    let system_schedule: SystemSchedule<Value> = SystemSchedule {
        systems: vec![Box::new(heal_system), Box::new(teleport_to_origin)],
    };

    system_schedule.run(&mut ecs);

    let matched = fetch(&(imm::<Position>(), imm::<Health>()), &ecs);
    assert_eq!(matched, vec![1, 2]);
    for id in matched {
        let position = get::<Position>(&ecs, id).unwrap();
        let health = get::<Health>(&ecs, id).unwrap();
        assert_eq!(position.x, 0.0);
        assert_eq!(position.y, 0.0);
        assert_eq!(health.health, 100.0);
    }
    assert_eq!(*get::<Position>(&ecs, 0).unwrap(), Position { x: 0.0, y: 0.0 });
}

#[test]
pub fn system_reads_the_row_and_writes_only_what_it_asked_to_write() {
    let mut ecs = scenario();
    ecs.remove_entity(1);
    let system = System::new((mutable::<Position>(), imm::<Speed>()), advance).unwrap();
    system.run(&mut ecs);
    assert_eq!(*get::<Position>(&ecs, 0).unwrap(), Position { x: 1.5, y: 6.3 });
    assert_eq!(*get::<Position>(&ecs, 2).unwrap(), Position { x: 140.2, y: 16.5 });
    assert_eq!(*get::<Speed>(&ecs, 0).unwrap(), Speed { x: 1.0, y: 4.0 });
    assert_eq!(*get::<Speed>(&ecs, 2).unwrap(), Speed { x: 122.0, y: 12.0 });
    assert_eq!(*get::<Health>(&ecs, 2).unwrap(), Health { health: 95.0 });
    assert!(get::<Position>(&ecs, 1).is_none());
    assert_eq!(ecs.entity_count(), 2);
}

#[test]
pub fn system_with_two_write_accessors_stores_each_value_in_its_column() {
    let mut ecs = scenario();
    let system = System::new(
        (mutable::<Health>(), imm::<Burnable>(), mutable::<Position>()),
        swap_and_burn,
    )
    .unwrap();
    system.run(&mut ecs);
    assert_eq!(*get::<Position>(&ecs, 0).unwrap(), Position { x: 0.5, y: 2.3 });
    assert_eq!(*get::<Position>(&ecs, 1).unwrap(), Position { x: 2.3, y: 1.0 });
    assert_eq!(*get::<Position>(&ecs, 2).unwrap(), Position { x: 4.5, y: 18.2 });
    assert_eq!(*get::<Health>(&ecs, 1).unwrap(), Health { health: 90.0 });
    assert_eq!(*get::<Health>(&ecs, 2).unwrap(), Health { health: 85.0 });
    assert!(get::<Burnable>(&ecs, 1).is_some());
}

#[test]
pub fn system_that_opens_a_column_twice_is_refused() {
    assert!(System::new((mutable::<Health>(), mutable::<Health>()), nothing).is_none());
    assert!(System::new((mutable::<Health>(), imm::<Health>()), nothing).is_none());
    assert!(System::new((imm::<Health>(), mutable::<Speed>(), mutable::<Health>()), nothing).is_none());
    assert!(System::new((imm::<Health>(), imm::<Speed>(), imm::<Health>()), nothing).is_some());
    assert!(System::new((imm::<Health>(), mutable::<Speed>(), imm::<Health>()), heal).is_some());
    assert!(System::new((imm::<Health>(), imm::<Speed>()), nothing).is_some());
    assert!(System::new(mutable::<Health>(), heal).is_some());

    assert!(is_exclusive(&vec![1, 2, 3], &vec![3, 1]));
    assert!(!is_exclusive(&vec![1, 2, 3], &vec![4]));
    assert!(!is_exclusive(&vec![1, 2, 3], &vec![2, 2]));
    assert!(is_exclusive(&vec![1, 2, 1], &vec![]));
    assert!(is_exclusive(&vec![1, 2, 1], &vec![2]));
    assert!(!is_exclusive(&vec![1, 2, 1], &vec![1]));
    assert!(!is_exclusive(&vec![1, 2, 1], &vec![2, 1]));
    assert!(repeats_are_read_only(&vec![3, 4, 3, 5, 5], &vec![4]));
    assert!(!repeats_are_read_only(&vec![3, 4, 3, 5, 5], &vec![4, 5]));
    assert!(is_exclusive(&vec![], &vec![]));
    assert!(all_distinct(&vec![5, 6, 7]));
    assert!(!all_distinct(&vec![5, 6, 5]));
    assert!(holds_type(&vec![5, 6, 7], 7));
    assert!(!holds_type(&vec![5, 6, 7], 8));
}

#[test]
pub fn read_only_system_and_empty_schedule_change_nothing() {
    let mut ecs = scenario();
    let system = System::new((imm::<Position>(), imm::<Health>()), nothing).unwrap();
    system.run(&mut ecs);
    let schedule: SystemSchedule<Value> = SystemSchedule { systems: Vec::new() };
    schedule.run(&mut ecs);
    assert_eq!(*get::<Position>(&ecs, 1).unwrap(), Position { x: 1.0, y: 2.3 });
    assert_eq!(*get::<Health>(&ecs, 2).unwrap(), Health { health: 95.0 });
    assert_eq!(ecs.entity_count(), 3);
}

fn reset_health(_row: Vec<&Value>) -> Vec<Value> {
    vec![Box::new(Health { health: 1.0 })]
}

fn double_health(row: Vec<&Value>) -> Vec<Value> {
    let health = row[0].downcast_ref::<Health>().unwrap();
    vec![Box::new(Health { health: health.health * 2.0 + 1.0 })]
}

#[test]
pub fn schedule_runs_each_system_on_what_the_one_before_left() {
    let mut ecs = scenario();
    let schedule: SystemSchedule<Value> = SystemSchedule {
        systems: vec![
            Box::new(System::new((mutable::<Health>(),), reset_health).unwrap()),
            Box::new(System::new((mutable::<Health>(),), double_health).unwrap()),
        ],
    };
    schedule.run(&mut ecs);
    assert_eq!(*get::<Health>(&ecs, 1).unwrap(), Health { health: 3.0 });
    assert_eq!(*get::<Health>(&ecs, 2).unwrap(), Health { health: 3.0 });

    let mut ecs = scenario();
    let reversed: SystemSchedule<Value> = SystemSchedule {
        systems: vec![
            Box::new(System::new((mutable::<Health>(),), double_health).unwrap()),
            Box::new(System::new((mutable::<Health>(),), reset_health).unwrap()),
        ],
    };
    reversed.run(&mut ecs);
    assert_eq!(*get::<Health>(&ecs, 1).unwrap(), Health { health: 1.0 });
    assert_eq!(*get::<Health>(&ecs, 2).unwrap(), Health { health: 1.0 });

    let mut ecs = scenario();
    let twice: SystemSchedule<Value> = SystemSchedule {
        systems: vec![
            Box::new(System::new((mutable::<Health>(),), double_health).unwrap()),
            Box::new(System::new((mutable::<Health>(),), double_health).unwrap()),
        ],
    };
    twice.run(&mut ecs);
    assert_eq!(*get::<Health>(&ecs, 1).unwrap(), Health { health: 403.0 });
    assert_eq!(*get::<Health>(&ecs, 2).unwrap(), Health { health: 383.0 });
    assert!(get::<Health>(&ecs, 0).is_none());
}

fn speed_from_both_reads(row: Vec<&Value>) -> Vec<Value> {
    let first = row[0].downcast_ref::<Health>().unwrap();
    let second = row[2].downcast_ref::<Health>().unwrap();
    vec![Box::new(Speed { x: first.health, y: second.health })]
}

#[test]
pub fn type_read_twice_is_handed_over_twice() {
    let mut ecs = scenario();
    let system = System::new(
        (imm::<Health>(), mutable::<Speed>(), imm::<Health>()),
        speed_from_both_reads,
    )
    .unwrap();
    system.run(&mut ecs);
    assert_eq!(*get::<Speed>(&ecs, 0).unwrap(), Speed { x: 1.0, y: 4.0 });
    assert_eq!(*get::<Speed>(&ecs, 1).unwrap(), Speed { x: 100.0, y: 100.0 });
    assert_eq!(*get::<Speed>(&ecs, 2).unwrap(), Speed { x: 95.0, y: 95.0 });
    assert_eq!(*get::<Health>(&ecs, 2).unwrap(), Health { health: 95.0 });
}

#[test]
pub fn system_over_a_list_request() {
    let mut ecs = scenario();
    let request = vec![Access::Mut(mutable::<Position>()), Access::Imm(imm::<Speed>())];
    let system = System::new(request, advance).unwrap();
    system.run(&mut ecs);
    assert_eq!(*get::<Position>(&ecs, 0).unwrap(), Position { x: 1.5, y: 6.3 });
    assert_eq!(*get::<Position>(&ecs, 1).unwrap(), Position { x: 13.0, y: 44.3 });
    let twice = vec![Access::Mut(mutable::<Position>()), Access::Imm(imm::<Position>())];
    assert!(System::new(twice, advance).is_none());
}
