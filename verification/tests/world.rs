use goosberry::ecs::entity::Entity;
use goosberry::ecs::world::World;
use std::any::TypeId;
use tuple_unpack::TupleUnpack;

#[derive(Debug, PartialEq)]
struct A {
    value: i32,
}

#[derive(Debug, PartialEq)]
struct B {
    value: i32,
}

#[derive(Debug, PartialEq)]
struct C {
    value: i32,
}

fn three_entities() -> World {
    let mut e1 = Entity::default();
    e1.add_component(A { value: 1 });
    e1.add_component(B { value: 1 });
    let mut e2 = Entity::default();
    e2.add_component(B { value: 2 });
    let mut e3 = Entity::default();
    e3.add_component(C { value: 3 });
    let mut world = World::default();
    world.add_entity(e1);
    world.add_entity(e2);
    world.add_entity(e3);
    world
}

fn positions(world: &World, types: &[TypeId]) -> Vec<usize> {
    let mut found = Vec::new();
    for view in world.query(types) {
        found.push(view.position());
        view.release();
    }
    found
}

fn positions_mut(world: &World, types: &[TypeId]) -> Vec<usize> {
    let mut found = Vec::new();
    for view in world.query_mut(types) {
        found.push(view.position());
        view.release();
    }
    found
}

#[test]
fn default_world_is_empty() {
    let world = World::default();
    assert_eq!(world.len(), 0);
    assert!(world.query(&<(A,)>::unpack_types()).is_empty());
    assert!(world.query_mut(&<(A,)>::unpack_types()).is_empty());
    assert!(world.query_from(&<(A,)>::unpack_types(), 0).is_none());
    assert!(world.query_mut_from(&<(A,)>::unpack_types(), 0).is_none());
}

#[test]
fn add_entity_appends() {
    let mut world = World::default();
    world.add_entity(Entity::default());
    assert_eq!(world.len(), 1);
    world.add_entity(Entity::default());
    assert_eq!(world.len(), 2);
}

#[test]
fn query_matches_any_of_the_types() {
    let world = three_entities();
    assert_eq!(positions(&world, &<(A,)>::unpack_types()), vec![0]);
    assert_eq!(positions(&world, &<(B,)>::unpack_types()), vec![0, 1]);
    assert_eq!(positions(&world, &<(A, B)>::unpack_types()), vec![0, 1]);
    assert_eq!(positions(&world, &<(C,)>::unpack_types()), vec![2]);
    assert_eq!(positions(&world, &<(A, C)>::unpack_types()), vec![0, 2]);
    assert_eq!(positions(&world, &<(A, B, C)>::unpack_types()), vec![0, 1, 2]);
    assert_eq!(positions(&world, &<(String,)>::unpack_types()), Vec::<usize>::new());
    assert_eq!(positions(&world, &[]), Vec::<usize>::new());
}

#[test]
fn query_mut_matches_any_of_the_types() {
    let world = three_entities();
    assert_eq!(positions_mut(&world, &<(A,)>::unpack_types()), vec![0]);
    assert_eq!(positions_mut(&world, &<(B,)>::unpack_types()), vec![0, 1]);
    assert_eq!(positions_mut(&world, &<(A, B)>::unpack_types()), vec![0, 1]);
    assert_eq!(positions_mut(&world, &<(String,)>::unpack_types()), Vec::<usize>::new());
    assert_eq!(positions_mut(&world, &[]), Vec::<usize>::new());
}

#[test]
fn query_views_show_their_entities() {
    let world = three_entities();
    let views = world.query(&<(B,)>::unpack_types());
    assert_eq!(views.len(), 2);
    assert_eq!(views[0].position(), 0);
    assert_eq!(views[0].entity().get_component::<B>(), Some(&B { value: 1 }));
    assert_eq!(views[0].entity().get_component::<A>(), Some(&A { value: 1 }));
    assert_eq!(views[1].position(), 1);
    assert_eq!(views[1].entity().get_component::<B>(), Some(&B { value: 2 }));
    assert_eq!(views[1].entity().get_component::<A>(), None);
    for view in views {
        view.release();
    }
}

#[test]
fn shared_views_of_one_entity_can_be_held_together() {
    let world = three_entities();
    let first = world.query(&<(A,)>::unpack_types());
    let second = world.query(&<(A, B)>::unpack_types());
    assert_eq!(first.len(), 1);
    assert_eq!(second.len(), 2);
    for view in first {
        view.release();
    }
    for view in second {
        view.release();
    }
    assert_eq!(positions_mut(&world, &<(A,)>::unpack_types()), vec![0]);
}

#[test]
fn a_write_through_query_mut_is_seen_by_the_next_query() {
    let world = three_entities();
    for mut view in world.query_mut(&<(B,)>::unpack_types()) {
        view.entity_mut().get_component_mut::<B>().unwrap().value += 10;
        view.release();
    }
    let views = world.query(&<(B,)>::unpack_types());
    assert_eq!(views.len(), 2);
    assert_eq!(views[0].entity().get_component::<B>(), Some(&B { value: 11 }));
    assert_eq!(views[0].entity().get_component::<A>(), Some(&A { value: 1 }));
    assert_eq!(views[1].entity().get_component::<B>(), Some(&B { value: 12 }));
    for view in views {
        view.release();
    }
}

#[test]
fn a_component_added_through_query_mut_is_found_by_the_next_query() {
    let world = three_entities();
    assert_eq!(positions(&world, &<(A,)>::unpack_types()), vec![0]);
    for mut view in world.query_mut(&<(C,)>::unpack_types()) {
        view.entity_mut().add_component(A { value: 30 });
        assert_eq!(view.entity().len(), 2);
        view.release();
    }
    assert_eq!(positions(&world, &<(A,)>::unpack_types()), vec![0, 2]);
}

#[test]
fn add_entity_after_a_query_shows_only_in_later_queries() {
    let mut world = three_entities();
    let before = positions(&world, &<(B,)>::unpack_types());
    assert_eq!(before, vec![0, 1]);
    let mut added = Entity::default();
    added.add_component(B { value: 4 });
    world.add_entity(added);
    assert_eq!(before, vec![0, 1]);
    assert_eq!(positions(&world, &<(B,)>::unpack_types()), vec![0, 1, 3]);
    let mut other = Entity::default();
    other.add_component(C { value: 5 });
    world.add_entity(other);
    assert_eq!(positions(&world, &<(B,)>::unpack_types()), vec![0, 1, 3]);
    assert_eq!(positions(&world, &<(C,)>::unpack_types()), vec![2, 4]);
}

#[test]
fn query_from_steps_through_the_matches() {
    let world = three_entities();
    let types = <(B, C)>::unpack_types();
    let mut found = Vec::new();
    let mut start = 0;
    while let Some(view) = world.query_from(&types, start) {
        found.push(view.position());
        start = view.position() + 1;
        view.release();
    }
    assert_eq!(found, vec![0, 1, 2]);
    assert!(world.query_from(&types, 3).is_none());
    assert!(world.query_from(&types, 100).is_none());
    let only_c = world.query_from(&<(C,)>::unpack_types(), 0).unwrap();
    assert_eq!(only_c.position(), 2);
    assert_eq!(only_c.entity().get_component::<C>(), Some(&C { value: 3 }));
    only_c.release();
    assert!(world.query_from(&<(A,)>::unpack_types(), 1).is_none());
}

#[test]
fn query_mut_from_locks_only_the_match() {
    let world = three_entities();
    let mut view = world.query_mut_from(&<(B,)>::unpack_types(), 1).unwrap();
    assert_eq!(view.position(), 1);
    view.entity_mut().get_component_mut::<B>().unwrap().value = 20;
    let after = world.query_mut_from(&<(C,)>::unpack_types(), 2).unwrap();
    assert_eq!(after.position(), 2);
    after.release();
    view.release();
    assert!(world.query_mut_from(&<(B,)>::unpack_types(), 2).is_none());
    assert!(world.query_mut_from(&<(B,)>::unpack_types(), 100).is_none());
    let views = world.query(&<(B,)>::unpack_types());
    assert_eq!(views[1].entity().get_component::<B>(), Some(&B { value: 20 }));
    for view in views {
        view.release();
    }
}

#[test]
fn exclusive_view_reads_what_it_wrote() {
    let world = three_entities();
    let mut view = world.query_mut_from(&<(A,)>::unpack_types(), 0).unwrap();
    assert_eq!(view.position(), 0);
    view.entity_mut().get_component_mut::<A>().unwrap().value = 9;
    assert_eq!(view.entity().get_component::<A>(), Some(&A { value: 9 }));
    view.release();
}

fn needs_send_and_sync<T: Send + Sync>() {}

#[test]
fn world_and_entity_can_be_shared_between_threads() {
    needs_send_and_sync::<Entity>();
    needs_send_and_sync::<World>();
}
