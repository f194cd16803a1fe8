use amar_engine::bundle::Bundle;
use amar_engine::error::ECSError;
use amar_engine::types::{ArchetypeId, EntityId, RawComponent, TypeKey};
use amar_engine::world::World;

const POSITION: TypeKey = 1;
const HEALTH: TypeKey = 2;
const MISSING: TypeKey = 3;
const SCORE: TypeKey = 10;

#[derive(Debug, Clone, PartialEq)]
enum Value {
    Position(i32, i32),
    Health(u32),
    Score(u32),
}

fn bundle(parts: Vec<(TypeKey, Value)>) -> Bundle<Value> {
    Bundle::new(parts.into_iter().map(|(t, v)| RawComponent::new(t, v)).collect()).unwrap()
}

fn entity_at(index: u32) -> EntityId {
    let mut entity = EntityId::default();
    for _ in 0..index {
        entity.next();
    }
    entity
}

fn score(v: &Value) -> u32 {
    match v {
        Value::Score(s) => *s,
        _ => panic!("not a score"),
    }
}

#[test]
fn spawn_read_and_mutate_components() {
    let mut world: World<Value> = World::default();
    let entity = world
        .spawn(bundle(vec![(POSITION, Value::Position(1, 2)), (HEALTH, Value::Health(100))]))
        .unwrap();

    assert_eq!(world.get_component(entity, POSITION).unwrap(), &Value::Position(1, 2));
    assert_eq!(world.get_component(entity, HEALTH).unwrap(), &Value::Health(100));
    assert!(world.has_component(entity, POSITION));
    assert!(!world.has_component(entity, MISSING));

    if let Value::Position(x, _) = world.get_component_mut(entity, POSITION).unwrap() {
        *x = 9;
    }
    assert_eq!(world.get_component(entity, POSITION).unwrap(), &Value::Position(9, 2));
}

#[test]
fn adding_and_removing_component_preserves_existing_data() {
    let mut world: World<Value> = World::default();

    let entity = world.spawn(bundle(vec![(POSITION, Value::Position(3, 4))])).unwrap();
    world.add_component(entity, RawComponent::new(HEALTH, Value::Health(75))).unwrap();
    assert_eq!(world.get_component(entity, POSITION).unwrap(), &Value::Position(3, 4));
    assert_eq!(world.get_component(entity, HEALTH).unwrap(), &Value::Health(75));

    let removed = world.remove_component(entity, HEALTH).unwrap();
    assert_eq!(removed, Value::Health(75));
    assert!(world.has_component(entity, POSITION));
    assert!(!world.has_component(entity, HEALTH));
}

#[test]
fn despawn_rejects_entity_and_reuses_storage_without_aliasing() {
    let mut world: World<Value> = World::default();

    let first = world.spawn(bundle(vec![(POSITION, Value::Position(1, 1))])).unwrap();
    let second = world.spawn(bundle(vec![(POSITION, Value::Position(2, 2))])).unwrap();

    world.despawn(first).unwrap();
    assert!(!world.has_component(first, POSITION));
    assert_eq!(world.get_component(second, POSITION).unwrap(), &Value::Position(2, 2));
    assert!(matches!(world.despawn(first), Err(ECSError::InvalidEntityId(_))));

    world.spawn(bundle(vec![(POSITION, Value::Position(3, 3))])).unwrap();
    let reused_storage_entity = entity_at(2);
    assert_eq!(
        world.get_component(reused_storage_entity, POSITION).unwrap(),
        &Value::Position(3, 3)
    );
    assert_eq!(world.get_component(second, POSITION).unwrap(), &Value::Position(2, 2));
}

#[test]
fn resources_can_be_inserted_overwritten_and_mutated() {
    let mut world: World<Value> = World::default();
    assert!(!world.has_resource(SCORE));
    assert!(world.get_resource(SCORE).is_none());

    world.insert_resource(SCORE, Value::Score(10));
    assert!(world.has_resource(SCORE));
    assert_eq!(score(world.get_resource(SCORE).unwrap()), 10);

    *world.get_resource_mut(SCORE).unwrap() = Value::Score(20);
    assert_eq!(score(world.get_resource(SCORE).unwrap()), 20);
    world.insert_resource(SCORE, Value::Score(30));
    assert_eq!(score(world.get_resource(SCORE).unwrap()), 30);
}

#[test]
fn spawned_entities_get_increasing_ids() {
    let mut world: World<Value> = World::new();
    let a = world.spawn(bundle(vec![(HEALTH, Value::Health(1))])).unwrap();
    let b = world.spawn(bundle(vec![(POSITION, Value::Position(0, 0))])).unwrap();
    world.despawn(a).unwrap();
    let c = world.spawn(bundle(vec![(HEALTH, Value::Health(3))])).unwrap();
    assert_eq!(a, EntityId(0));
    assert_eq!(b, EntityId(1));
    assert_eq!(c, EntityId(2));
    assert!(!world.has_component(a, HEALTH));
    assert_eq!(world.get_component(c, HEALTH).unwrap(), &Value::Health(3));
}

#[test]
fn bundle_order_does_not_matter() {
    let mut world: World<Value> = World::new();
    let a = world
        .spawn(bundle(vec![(HEALTH, Value::Health(5)), (POSITION, Value::Position(1, 1))]))
        .unwrap();
    let b = world
        .spawn(bundle(vec![(POSITION, Value::Position(2, 2)), (HEALTH, Value::Health(6))]))
        .unwrap();
    assert_eq!(world.get_component(a, HEALTH).unwrap(), &Value::Health(5));
    assert_eq!(world.get_component(b, POSITION).unwrap(), &Value::Position(2, 2));
    assert_eq!(world.get_component(b, HEALTH).unwrap(), &Value::Health(6));
}

#[test]
fn bundle_with_repeated_type_is_refused() {
    let b = Bundle::new(vec![
        RawComponent::new(HEALTH, Value::Health(1)),
        RawComponent::new(HEALTH, Value::Health(2)),
    ]);
    assert!(b.is_none());
}

#[test]
fn errors_on_unknown_entity() {
    let mut world: World<Value> = World::new();
    let ghost = EntityId(7);
    assert!(matches!(world.get_component(ghost, POSITION), Err(ECSError::InvalidEntityId(EntityId(7)))));
    assert!(matches!(world.get_component_mut(ghost, POSITION), Err(ECSError::InvalidEntityId(_))));
    assert!(matches!(
        world.add_component(ghost, RawComponent::new(HEALTH, Value::Health(1))),
        Err(ECSError::InvalidEntityId(_))
    ));
    assert!(matches!(world.remove_component(ghost, HEALTH), Err(ECSError::InvalidEntityId(_))));
    assert!(matches!(world.despawn(ghost), Err(ECSError::InvalidEntityId(_))));
    assert!(!world.has_component(ghost, POSITION));
}

#[test]
fn errors_on_component_present_or_absent() {
    let mut world: World<Value> = World::new();
    let e = world.spawn(bundle(vec![(POSITION, Value::Position(0, 1))])).unwrap();
    assert!(matches!(
        world.add_component(e, RawComponent::new(POSITION, Value::Position(5, 5))),
        Err(ECSError::ComponentExistInArchetype(POSITION, _))
    ));
    assert_eq!(world.get_component(e, POSITION).unwrap(), &Value::Position(0, 1));
    assert!(matches!(
        world.remove_component(e, HEALTH),
        Err(ECSError::ComponentAbscentFromArchetype(HEALTH, _))
    ));
    assert!(matches!(
        world.get_component(e, HEALTH),
        Err(ECSError::ComponentAbscentFromArchetype(HEALTH, _))
    ));
}

#[test]
fn add_then_remove_restores_entity_and_leaves_others() {
    let mut world: World<Value> = World::new();
    let e = world.spawn(bundle(vec![(POSITION, Value::Position(3, 3))])).unwrap();
    let other = world.spawn(bundle(vec![(POSITION, Value::Position(4, 4))])).unwrap();
    world.add_component(e, RawComponent::new(HEALTH, Value::Health(9))).unwrap();
    assert!(!world.has_component(other, HEALTH));
    assert_eq!(world.remove_component(e, HEALTH).unwrap(), Value::Health(9));
    assert_eq!(world.get_component(e, POSITION).unwrap(), &Value::Position(3, 3));
    assert_eq!(world.get_component(other, POSITION).unwrap(), &Value::Position(4, 4));
    // A second entity can take the same way through the archetypes.
    world.add_component(other, RawComponent::new(HEALTH, Value::Health(1))).unwrap();
    assert_eq!(world.get_component(other, HEALTH).unwrap(), &Value::Health(1));
    assert_eq!(world.remove_component(other, POSITION).unwrap(), Value::Position(4, 4));
    assert!(!world.has_component(other, POSITION));
}

#[test]
fn archetype_edges_are_reused() {
    let mut world: World<Value> = World::new();
    let e = world.spawn(bundle(vec![(POSITION, Value::Position(0, 0))])).unwrap();
    let a0 = ArchetypeId(0);
    let a1 = world.add_to_archetype(a0, HEALTH).unwrap();
    assert_eq!(a1, ArchetypeId(1));
    assert_eq!(world.add_to_archetype(a0, HEALTH).unwrap(), a1);
    assert_eq!(world.remove_from_archetype(a1, HEALTH).unwrap(), a0);
    assert!(matches!(world.add_to_archetype(ArchetypeId(42), HEALTH), Err(ECSError::ArchetypeNotFound(ArchetypeId(42)))));
    assert!(matches!(
        world.add_to_archetype(a0, POSITION),
        Err(ECSError::ComponentExistInArchetype(POSITION, ArchetypeId(0)))
    ));
    assert!(matches!(
        world.remove_from_archetype(a0, HEALTH),
        Err(ECSError::ComponentAbscentFromArchetype(HEALTH, ArchetypeId(0)))
    ));
    assert_eq!(world.get_component(e, POSITION).unwrap(), &Value::Position(0, 0));
    // the cached neighbours were reused: the next new archetype takes the
    // identifier after the ones used up by the refused calls
    let fresh = world.add_to_archetype(a1, SCORE).unwrap();
    assert_eq!(fresh, ArchetypeId(4));
    assert_eq!(world.remove_from_archetype(fresh, SCORE).unwrap(), a1);
}

#[test]
fn resources_do_not_touch_entities() {
    let mut world: World<Value> = World::new();
    let e = world.spawn(bundle(vec![(SCORE, Value::Score(1))])).unwrap();
    world.insert_resource(SCORE, Value::Score(2));
    assert_eq!(world.get_component(e, SCORE).unwrap(), &Value::Score(1));
    assert_eq!(score(world.get_resource(SCORE).unwrap()), 2);
    assert!(world.get_resource_mut(HEALTH).is_none());
}

#[test]
fn entity_and_archetype_ids_advance() {
    let mut e = EntityId(5);
    let prev = e.next();
    assert_eq!(prev, EntityId(5));
    assert_eq!(e, EntityId(6));
    let mut a = ArchetypeId::default();
    assert_eq!(a.next(), ArchetypeId(0));
    assert_eq!(a, ArchetypeId(1));
}
