use goosberry::ecs::entity::Entity;
use std::any::TypeId;
use tuple_unpack::TupleUnpack;

#[derive(Debug, PartialEq)]
struct Foo {
    x: i32,
}

#[derive(Debug, PartialEq)]
struct Bar {
    x: i32,
}

#[derive(Debug, PartialEq)]
struct Baz;

fn foo_bar_foo() -> Entity {
    let mut entity = Entity::default();
    entity.add_component(Foo { x: 1 });
    entity.add_component(Bar { x: 2 });
    entity.add_component(Foo { x: 3 });
    entity
}

#[test]
fn default_entity_is_empty() {
    let entity = Entity::default();
    assert_eq!(entity.len(), 0);
    assert!(entity.get_component::<Foo>().is_none());
    assert!(entity.get_components::<Foo>().is_empty());
    assert!(entity.filter_typeid(TypeId::of::<Foo>()).is_empty());
    assert_eq!(entity.position(TypeId::of::<Foo>()), None);
    assert_eq!(entity.type_at(0), None);
    assert!(!entity.has_any(&[TypeId::of::<Foo>()]));
}

#[test]
fn add_component_appends() {
    let mut entity = Entity::default();
    entity.add_component(Foo { x: 7 });
    assert_eq!(entity.len(), 1);
    assert_eq!(entity.type_at(0), Some(TypeId::of::<Foo>()));
    entity.add_component(Bar { x: 8 });
    assert_eq!(entity.len(), 2);
    assert_eq!(entity.type_at(0), Some(TypeId::of::<Foo>()));
    assert_eq!(entity.type_at(1), Some(TypeId::of::<Bar>()));
    assert_eq!(entity.type_at(2), None);
    assert_eq!(entity.get_component::<Foo>(), Some(&Foo { x: 7 }));
}

#[test]
fn get_component_returns_the_first_inserted() {
    let mut entity = Entity::default();
    entity.add_component(Foo { x: 1 });
    entity.add_component(Foo { x: 2 });
    assert_eq!(entity.get_component::<Foo>(), Some(&Foo { x: 1 }));
}

#[test]
fn get_component_skips_other_types() {
    let mut entity = Entity::default();
    entity.add_component(Bar { x: 5 });
    entity.add_component(Foo { x: 1 });
    entity.add_component(Foo { x: 2 });
    assert_eq!(entity.get_component::<Foo>(), Some(&Foo { x: 1 }));
    assert_eq!(entity.get_component::<Bar>(), Some(&Bar { x: 5 }));
    assert_eq!(entity.get_component::<Baz>(), None);
}

#[test]
fn get_components_yields_every_match_in_order_each_time() {
    let entity = foo_bar_foo();
    let first = entity.get_components::<Foo>();
    assert_eq!(first, vec![&Foo { x: 1 }, &Foo { x: 3 }]);
    let second = entity.get_components::<Foo>();
    assert_eq!(second, vec![&Foo { x: 1 }, &Foo { x: 3 }]);
    assert_eq!(first.len(), 2);
    assert_eq!(entity.get_components::<Bar>(), vec![&Bar { x: 2 }]);
    assert!(entity.get_components::<Baz>().is_empty());
}

#[test]
fn get_component_mut_writes_the_first_match() {
    let mut entity = foo_bar_foo();
    entity.get_component_mut::<Foo>().unwrap().x = 10;
    assert_eq!(entity.get_components::<Foo>(), vec![&Foo { x: 10 }, &Foo { x: 3 }]);
    assert_eq!(entity.get_component::<Bar>(), Some(&Bar { x: 2 }));
    assert!(entity.get_component_mut::<Baz>().is_none());
    assert_eq!(entity.len(), 3);
}

#[test]
fn get_components_mut_writes_every_match() {
    let mut entity = foo_bar_foo();
    for foo in entity.get_components_mut::<Foo>() {
        foo.x += 100;
    }
    assert_eq!(entity.get_components::<Foo>(), vec![&Foo { x: 101 }, &Foo { x: 103 }]);
    assert_eq!(entity.get_component::<Bar>(), Some(&Bar { x: 2 }));
    assert_eq!(entity.get_components_mut::<Foo>().len(), 2);
    assert!(entity.get_components_mut::<Baz>().is_empty());
    assert_eq!(entity.type_at(0), Some(TypeId::of::<Foo>()));
    assert_eq!(entity.type_at(1), Some(TypeId::of::<Bar>()));
    assert_eq!(entity.type_at(2), Some(TypeId::of::<Foo>()));
}

#[test]
fn position_is_the_earliest_of_its_type() {
    let entity = foo_bar_foo();
    assert_eq!(entity.position(TypeId::of::<Foo>()), Some(0));
    assert_eq!(entity.position(TypeId::of::<Bar>()), Some(1));
    assert_eq!(entity.position(TypeId::of::<Baz>()), None);
}

#[test]
fn filter_typeid_lists_positions_in_order() {
    let entity = foo_bar_foo();
    assert_eq!(entity.filter_typeid(TypeId::of::<Foo>()), vec![0, 2]);
    assert_eq!(entity.filter_typeid(TypeId::of::<Bar>()), vec![1]);
    assert_eq!(entity.filter_typeid(TypeId::of::<Baz>()), Vec::<usize>::new());
    assert_eq!(entity.filter_typeid(TypeId::of::<Foo>()), vec![0, 2]);
}

#[test]
fn has_any_asks_for_any_of_the_types() {
    let entity = foo_bar_foo();
    assert!(entity.has_any(&<(Foo,)>::unpack_types()));
    assert!(entity.has_any(&<(Foo, Bar)>::unpack_types()));
    assert!(entity.has_any(&<(Baz, Bar)>::unpack_types()));
    assert!(entity.has_any(&<(Baz, Foo, Baz)>::unpack_types()));
    assert!(!entity.has_any(&<(Baz,)>::unpack_types()));
    assert!(!entity.has_any(&[]));
}

#[test]
fn component_at_reads_by_position_and_type() {
    let entity = foo_bar_foo();
    assert_eq!(entity.component_at::<Foo>(0), Some(&Foo { x: 1 }));
    assert_eq!(entity.component_at::<Bar>(1), Some(&Bar { x: 2 }));
    assert_eq!(entity.component_at::<Foo>(2), Some(&Foo { x: 3 }));
    assert_eq!(entity.component_at::<Bar>(0), None);
    assert_eq!(entity.component_at::<Foo>(3), None);
}

#[test]
fn component_at_mut_leaves_the_entity_alone_when_the_type_is_wrong() {
    let mut entity = foo_bar_foo();
    assert!(entity.component_at_mut::<Bar>(0).is_none());
    assert!(entity.component_at_mut::<Foo>(3).is_none());
    assert_eq!(entity.get_components::<Foo>(), vec![&Foo { x: 1 }, &Foo { x: 3 }]);
    entity.component_at_mut::<Foo>(2).unwrap().x = 30;
    assert_eq!(entity.get_components::<Foo>(), vec![&Foo { x: 1 }, &Foo { x: 30 }]);
    assert_eq!(entity.get_component::<Bar>(), Some(&Bar { x: 2 }));
}
