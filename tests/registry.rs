use enco::components::ComponentHash;
use enco::custom_errors::WorldError;
use enco::world::World;
use std::any::TypeId;

struct Node(i32);
struct Connector(i32);
struct Label(String);

#[test]
fn ids_start_at_zero_and_increase() {
    let mut world = World::new();
    let a = world.create_entity().done();
    let b = world.create_entity().with(Node(5)).done();
    world.delete_entity(&b).unwrap();
    let c = world.create_entity().done();
    assert_eq!((a, b, c), (0, 1, 2));
}

#[test]
fn finishing_without_starting_skips_an_id() {
    let mut world = World::new();
    let a = world.done();
    let b = world.create_entity().done();
    assert_eq!((a, b), (0, 1));
    assert_eq!(world.num_entities(), 1);
    assert!(matches!(world.num_components(&a), Err(WorldError::ElementDoesNotExist)));
}

#[test]
fn count_follows_creation_and_deletion() {
    let mut world = World::new();
    let a = world.create_entity().done();
    let b = world.create_entity().done();
    let c = world.create_entity().done();
    assert_eq!(world.num_entities(), 3);
    world.delete_entity(&b).unwrap();
    assert_eq!(world.num_entities(), 2);
    world.delete_entity(&a).unwrap();
    world.delete_entity(&c).unwrap();
    assert_eq!(world.num_entities(), 0);
}

#[test]
fn restarted_creation_keeps_one_element() {
    let mut world = World::new();
    world.create_entity().with(Node(1));
    let a = world.create_entity().done();
    assert_eq!(a, 0);
    assert_eq!(world.num_entities(), 1);
    assert_eq!(world.num_components(&a).unwrap(), 0);
}

#[test]
fn attach_twice_replaces() {
    let mut world = World::new();
    let a = world.create_entity().with(Node(1)).with(Node(2)).done();
    assert_eq!(world.num_components(&a).unwrap(), 1);
    assert_eq!(world.get_entity_component::<Node>(&a).unwrap().0, 2);
}

#[test]
fn add_then_get_returns_value_and_second_add_fails() {
    let mut world = World::new();
    let a = world.create_entity().done();
    world.add_component(&a, Label(String::from("root"))).unwrap();
    assert_eq!(world.get_entity_component::<Label>(&a).unwrap().0, "root");
    let again = world.add_component(&a, Label(String::from("other")));
    match again {
        Err(WorldError::ElementAlreadyHasComponent(k)) => assert_eq!(k, TypeId::of::<Label>()),
        _ => panic!("second add was not refused"),
    }
    assert_eq!(world.get_entity_component::<Label>(&a).unwrap().0, "root");
    assert_eq!(world.num_components(&a).unwrap(), 1);
}

#[test]
fn remove_then_absent_and_second_remove_fails() {
    let mut world = World::new();
    let a = world.create_entity().with(Node(3)).with(Connector(4)).done();
    world.delete_component::<Node>(&a).unwrap();
    assert!(world.get_entity_component::<Node>(&a).is_none());
    assert_eq!(world.get_entity_component::<Connector>(&a).unwrap().0, 4);
    match world.delete_component::<Node>(&a) {
        Err(WorldError::ElementDoesNotHaveComponent(k)) => assert_eq!(k, TypeId::of::<Node>()),
        _ => panic!("second remove was not refused"),
    }
}

#[test]
fn delete_element_removes_it_everywhere() {
    let mut world = World::new();
    let a = world.create_entity().with(Node(1)).done();
    let b = world.create_entity().with(Node(2)).done();
    world.delete_entity(&a).unwrap();
    assert_eq!(world.iter(), vec![b]);
    assert!(matches!(world.num_components(&a), Err(WorldError::ElementDoesNotExist)));
    assert!(matches!(world.delete_entity(&a), Err(WorldError::ElementDoesNotExist)));
    assert!(world.get_entity_component::<Node>(&a).is_none());
    assert!(world.get_entity_component_mut::<Node>(&a).is_none());
}

#[test]
fn missing_element_is_refused() {
    let mut world = World::new();
    let a = world.create_entity().done();
    let ghost_id = a + 7;
    assert!(matches!(world.add_component(&ghost_id, Node(1)), Err(WorldError::ElementDoesNotExist)));
    assert!(matches!(world.delete_component::<Node>(&ghost_id), Err(WorldError::ElementDoesNotExist)));
    assert!(matches!(world.num_components(&ghost_id), Err(WorldError::ElementDoesNotExist)));
    assert!(matches!(world.delete_entity(&ghost_id), Err(WorldError::ElementDoesNotExist)));
}

#[test]
fn query_scenario_with_mixed_components() {
    let mut world = World::new();
    let a = world.create_entity().with(Node(1)).done();
    let b = world.create_entity().with(Node(2)).with(Connector(1)).done();
    let mut values: Vec<i32> = world.query::<Node>().iter().map(|n| n.0).collect();
    values.sort();
    assert_eq!(values, vec![1, 2]);
    assert_eq!(world.num_components(&b).unwrap(), 2);
    assert!(world.delete_component::<Node>(&b).is_ok());
    assert!(matches!(
        world.delete_component::<Node>(&b),
        Err(WorldError::ElementDoesNotHaveComponent(_))
    ));
    world.delete_component::<Connector>(&b).unwrap();
    assert_eq!(world.num_components(&b).unwrap(), 0);
    assert_eq!(world.num_components(&a).unwrap(), 1);
}

#[test]
fn query_skips_elements_without_the_type() {
    let mut world = World::new();
    let a = world.create_entity().with(Node(1)).done();
    let b = world.create_entity().with(Connector(2)).done();
    let c = world.create_entity().with(Node(3)).with(Connector(4)).done();
    assert_eq!(world.holders(&TypeId::of::<Node>()), vec![a, c]);
    assert_eq!(world.holders(&TypeId::of::<Connector>()), vec![b, c]);
    assert_eq!(world.holders(&TypeId::of::<Label>()), Vec::<usize>::new());
    assert_eq!(world.query::<Connector>().len(), 2);
    assert_eq!(world.query::<Label>().len(), 0);
}

#[test]
fn query_mut_adds_ten_to_each() {
    let mut world = World::new();
    world.create_entity().with(Node(1)).done();
    world.create_entity().with(Connector(9)).done();
    world.create_entity().with(Node(2)).done();
    world.create_entity().with(Node(3)).done();
    for n in world.query_mut::<Node>() {
        n.0 += 10;
    }
    let mut values: Vec<i32> = world.query::<Node>().iter().map(|n| n.0).collect();
    values.sort();
    assert_eq!(values, vec![11, 12, 13]);
    assert_eq!(world.query::<Connector>()[0].0, 9);
}

#[test]
fn mutation_is_seen_by_later_lookups() {
    let mut world = World::new();
    let a = world.create_entity().with(Node(1)).done();
    world.get_entity_component_mut::<Node>(&a).unwrap().0 = 40;
    assert_eq!(world.get_entity_component::<Node>(&a).unwrap().0, 40);
    assert_eq!(world.query::<Node>()[0].0, 40);
}

#[test]
fn reads_do_not_change_values() {
    let mut world = World::new();
    let a = world.create_entity().with(Node(1)).done();
    let b = world.create_entity().with(Node(2)).done();
    let first: Vec<i32> = world.query::<Node>().iter().map(|n| n.0).collect();
    assert_eq!(world.get_entity_component::<Node>(&a).unwrap().0, 1);
    assert_eq!(world.get_entity_component::<Node>(&b).unwrap().0, 2);
    let second: Vec<i32> = world.query::<Node>().iter().map(|n| n.0).collect();
    assert_eq!(first, second);
    assert_eq!(world.num_entities(), 2);
}

#[test]
fn iter_lists_live_ids_in_order() {
    let mut world = World::new();
    for _ in 0..5 {
        world.create_entity().done();
    }
    world.delete_entity(&2).unwrap();
    assert_eq!(world.iter(), vec![0, 1, 3, 4]);
}

#[test]
fn component_set_by_key() {
    let mut set = ComponentHash::new();
    let node = TypeId::of::<Node>();
    let connector = TypeId::of::<Connector>();
    assert_eq!(set.len(), 0);
    assert!(!set.contains_key(&node));
    assert!(!set.remove(&node));
    assert!(set.get(&connector).is_none());
    assert!(set.get_mut(&connector).is_none());
    let mut world = World::new();
    let a = world.create_entity().with(Node(1)).done();
    assert_eq!(world.holders(&connector), Vec::<usize>::new());
    assert_eq!(world.holders(&node), vec![a]);
}
