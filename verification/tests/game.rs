use goosberry::ecs::entity::Entity;
use goosberry::ecs::game::Game;
use goosberry::ecs::world::World;
use std::time::Duration;
use std::time::Instant;
use tuple_unpack::TupleUnpack;

#[derive(Debug)]
struct Foo {
    x: i32,
}

#[derive(Debug)]
struct Bar {
    x: i32,
}

fn some_system(world: &World) {
    for mut entity in world.query_mut(&<(Foo, Bar)>::unpack_types()) {
        if let Some(foo) = entity.entity_mut().get_components_mut::<Foo>().into_iter().next() {
            foo.x += 1;
        }
        if let Some(bar) = entity.entity_mut().get_components_mut::<Bar>().into_iter().next() {
            bar.x += 1;
        }
        entity.release();
    }
}

fn foo_and_bar(world: &World) -> (i32, i32) {
    let view = world.query_from(&<(Foo, Bar)>::unpack_types(), 0).unwrap();
    let foo = view.entity().get_component::<Foo>().unwrap().x;
    let bar = view.entity().get_component::<Bar>().unwrap().x;
    view.release();
    (foo, bar)
}

fn wait(duration: Duration) {
    let started = Instant::now();
    while started.elapsed() < duration {}
}

fn one_entity_world() -> World {
    let mut entity = Entity::default();
    entity.add_component(Foo { x: 0 });
    entity.add_component(Bar { x: 0 });
    let mut world = World::default();
    world.add_entity(entity);
    world
}

#[test]
fn test_ecs() {
    let foo = Foo { x: 0 };
    let bar = Bar { x: 0 };
    let mut entity = Entity::default();
    entity.add_component(foo);
    entity.add_component(bar);
    let mut world = World::default();
    world.add_entity(entity);
    let mut game = Game::new(world);
    game.add_system(some_system);
    let mut total_time = Duration::new(0, 0);
    let mut frames = 0;
    let mut lowest = Duration::new(0, 0);
    let mut highest = Duration::new(u64::MAX, 0);
    loop {
        game.update();
        total_time += game.delta_time;
        frames += 1;
        if game.delta_time > lowest {
            lowest = game.delta_time;
        }
        if game.delta_time < highest {
            highest = game.delta_time;
        }
        if total_time > Duration::new(5, 0) {
            break;
        }
    }
    println!(
        "Average: {}, lowest: {}, highest: {}, elapsed: {:?}",
        1_000_000_000 / (total_time.as_nanos() / frames),
        1_000_000_000 / lowest.as_nanos(),
        1_000_000_000 / highest.as_nanos(),
        total_time,
    );
}

#[test]
fn new_game_has_no_systems_and_no_delta() {
    let game = Game::new(one_entity_world());
    assert_eq!(game.system_count(), 0);
    assert_eq!(game.delta_time, Duration::new(0, 0));
    assert_eq!(game.world.len(), 1);
}

#[test]
fn add_system_appends() {
    let mut game = Game::new(World::default());
    game.add_system(some_system);
    assert_eq!(game.system_count(), 1);
    game.add_system(|_world: &World| {});
    assert_eq!(game.system_count(), 2);
    assert_eq!(game.delta_time, Duration::new(0, 0));
}

#[test]
fn update_without_systems_advances_the_delta() {
    let mut game = Game::new(World::default());
    let started = Instant::now();
    wait(Duration::from_millis(5));
    game.update();
    let first = game.delta_time;
    assert!(first >= Duration::from_millis(5));
    assert!(first <= started.elapsed() + Duration::from_millis(5));
    wait(Duration::from_millis(5));
    game.update();
    assert!(game.delta_time >= Duration::from_millis(5));
    assert!(game.delta_time <= started.elapsed());
    assert_eq!(game.system_count(), 0);
    assert_eq!(game.world.len(), 0);
}

#[test]
fn one_update_increments_both_components() {
    let mut game = Game::new(one_entity_world());
    game.add_system(some_system);
    game.update();
    assert_eq!(foo_and_bar(&game.world), (1, 1));
}

#[test]
fn every_update_runs_every_system_once() {
    let mut game = Game::new(one_entity_world());
    game.add_system(some_system);
    game.add_system(some_system);
    game.update();
    assert_eq!(foo_and_bar(&game.world), (2, 2));
    game.update();
    game.update();
    assert_eq!(foo_and_bar(&game.world), (6, 6));
    assert_eq!(game.system_count(), 2);
}

fn increment_foo(world: &World) {
    for mut view in world.query_mut(&<(Foo,)>::unpack_types()) {
        view.entity_mut().get_component_mut::<Foo>().unwrap().x += 1;
        view.release();
    }
}

fn copy_foo_into_bar(world: &World) {
    for mut view in world.query_mut(&<(Foo,)>::unpack_types()) {
        let seen = view.entity().get_component::<Foo>().unwrap().x;
        assert_eq!(seen, 1);
        view.entity_mut().get_component_mut::<Bar>().unwrap().x = seen * 10;
        view.release();
    }
}

#[test]
fn a_later_system_sees_what_an_earlier_one_wrote() {
    let mut game = Game::new(one_entity_world());
    game.add_system(increment_foo);
    game.add_system(copy_foo_into_bar);
    game.update();
    assert_eq!(foo_and_bar(&game.world), (1, 10));
}

#[test]
fn systems_run_in_the_order_of_registration() {
    let mut game = Game::new(one_entity_world());
    game.add_system(|world: &World| {
        for mut view in world.query_mut(&<(Foo,)>::unpack_types()) {
            view.entity_mut().get_component_mut::<Foo>().unwrap().x += 3;
            view.release();
        }
    });
    game.add_system(|world: &World| {
        for mut view in world.query_mut(&<(Foo,)>::unpack_types()) {
            view.entity_mut().get_component_mut::<Foo>().unwrap().x *= 2;
            view.release();
        }
    });
    game.update();
    assert_eq!(foo_and_bar(&game.world), (6, 0));
    game.update();
    assert_eq!(foo_and_bar(&game.world), (18, 0));
}

#[test]
fn run_systems_leaves_timing_alone() {
    let mut game = Game::new(one_entity_world());
    game.add_system(some_system);
    game.run_systems();
    assert_eq!(foo_and_bar(&game.world), (1, 1));
    assert_eq!(game.delta_time, Duration::new(0, 0));
}

#[test]
fn end_frame_records_the_delta() {
    let mut game = Game::new(one_entity_world());
    game.add_system(some_system);
    game.end_frame(Duration::new(1, 500), Instant::now());
    assert_eq!(game.delta_time, Duration::new(1, 500));
    assert_eq!(foo_and_bar(&game.world), (0, 0));
    wait(Duration::from_millis(2));
    game.update();
    assert!(game.delta_time >= Duration::from_millis(2));
    assert!(game.delta_time < Duration::new(1, 500));
}

#[test]
fn getters_agree_with_the_fields() {
    let mut game = Game::new(one_entity_world());
    game.end_frame(Duration::new(2, 0), Instant::now());
    assert_eq!(game.delta_time(), Duration::new(2, 0));
    assert_eq!(game.delta_time(), game.delta_time);
    assert_eq!(game.world().len(), 1);
}
