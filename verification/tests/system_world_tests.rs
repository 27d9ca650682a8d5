use flywheel_ecs::Archetype;
use flywheel_ecs::Behavior;
use flywheel_ecs::Entity;
use flywheel_ecs::EntityManager;
use flywheel_ecs::Manager;
use flywheel_ecs::NoopBehavior;
use flywheel_ecs::System;
use flywheel_ecs::World;

const HEALTH: u64 = 1;
const ARMOR: u64 = 2;

/// A behavior that checks the membership list it is handed.
struct Expect(Vec<Entity>);

impl Behavior<u8> for Expect {
    fn on_run(&self, _manager: &mut Manager<u8>, entities: &Vec<Entity>) {
        assert_eq!(entities.len(), self.0.len());
        for entity in &self.0 {
            assert!(entities.contains(entity));
        }
        for entity in entities {
            assert!(self.0.contains(entity));
        }
    }
}

fn bits(ids: &[usize]) -> Archetype {
    let mut archetype = Archetype::new(None);
    for id in ids {
        archetype.insert(*id);
    }
    archetype
}

fn system_setup(expect: Expect) -> System<Expect> {
    let mut system = System::new(bits(&[0, 1]), bits(&[2]), expect);
    let e = |id| Entity::new(id);
    system.evaluate(e(0), &bits(&[]));
    system.evaluate(e(1), &bits(&[0, 1, 2]));
    system.evaluate(e(2), &bits(&[0, 1]));
    system.evaluate(e(3), &bits(&[0, 1, 3]));
    system
}

#[test]
fn evaluate_remove_run() {
    let e = |id| Entity::new(id);
    system_setup(Expect(vec![e(2), e(3)])).run(&mut Manager::new());
    let mut system = system_setup(Expect(vec![e(3)]));
    system.evaluate(e(2), &bits(&[]));
    system.run(&mut Manager::new());
    let mut system = system_setup(Expect(vec![e(2)]));
    system.evaluate(e(3), &bits(&[0, 1, 2]));
    system.run(&mut Manager::new());
    let mut system = system_setup(Expect(vec![]));
    system.remove(e(2));
    system.remove(e(3));
    system.run(&mut Manager::new());
}

#[test]
fn spawn_destroy_spawn_reuses_id() {
    let mut entity_manager = EntityManager::new();
    let first = entity_manager.spawn();
    let removed = entity_manager.destroy(first);
    assert_eq!(removed, vec![first]);
    let second = entity_manager.spawn();
    assert_eq!(second.id(), first.id());
    let record = entity_manager.get(second).unwrap();
    assert!(record.parent().is_none());
    assert!(record.children().is_empty());
    for bit in 0..64 {
        assert!(!record.archetype().has(bit));
    }
}

#[test]
fn add_component_marks_ownership() {
    let mut manager: Manager<u8> = Manager::new();
    let e0 = manager.spawn_entity();
    let e1 = manager.spawn_entity();
    assert!(manager.add_component(HEALTH, e0, 1).is_ok());
    assert!(manager.has_component(HEALTH, e0));
    assert!(!manager.has_component(HEALTH, e1));
    // a duplicate add is rejected and returns the component
    assert_eq!(manager.add_component(HEALTH, e0, 9), Err(9));
    assert_eq!(manager.component(HEALTH, e0), Some(&1));
}

#[test]
fn remove_component_empties_pool() {
    let mut manager: Manager<u8> = Manager::new();
    let e0 = manager.spawn_entity();
    assert!(manager.add_component(HEALTH, e0, 1).is_ok());
    manager.remove_component(HEALTH, e0);
    assert!(!manager.has_component(HEALTH, e0));
    assert!(manager.all_component(HEALTH).is_empty());
    assert!(manager.component_owners(HEALTH).is_empty());
}

#[test]
fn bind_breaks_cycles() {
    let mut entity_manager = EntityManager::new();
    let e0 = entity_manager.spawn();
    let e1 = entity_manager.spawn();
    entity_manager.bind(e0, e1);
    entity_manager.bind(e1, e0);
    assert_eq!(entity_manager.get(e0).unwrap().parent(), Some(e1));
    assert!(entity_manager.get(e0).unwrap().children().is_empty());
    assert!(entity_manager.get(e1).unwrap().parent().is_none());
    assert_eq!(entity_manager.get(e1).unwrap().children(), [e0]);
}

#[test]
fn destroy_entity_destroys_subtree() {
    let mut manager: Manager<u8> = Manager::new();
    let parent = manager.spawn_entity();
    let child1 = manager.spawn_entity();
    let child2 = manager.spawn_entity();
    manager.entities.bind(parent, child1);
    manager.entities.bind(parent, child2);
    assert!(manager.add_component(HEALTH, child1, 3).is_ok());
    manager.destroy_entity(parent);
    assert!(!manager.is_entity_alive(parent));
    assert!(!manager.is_entity_alive(child1));
    assert!(!manager.is_entity_alive(child2));
    assert!(manager.all_component(HEALTH).is_empty());
    // the destroyed ids are eligible for reuse
    let mut reused = vec![
        manager.spawn_entity().id(),
        manager.spawn_entity().id(),
        manager.spawn_entity().id(),
    ];
    reused.sort();
    assert_eq!(reused, vec![parent.id(), child1.id(), child2.id()]);
}

#[test]
fn world_keeps_membership_in_sync() {
    let mut world: World<u8, NoopBehavior> = World::new();
    let required_bit = world.manager_mut().component_id_or_register(HEALTH);
    let excluded_bit = world.manager_mut().component_id_or_register(ARMOR);
    let system = System::new(bits(&[required_bit]), bits(&[excluded_bit]), NoopBehavior);
    world.add_system(system);
    let entity = world.manager_mut().spawn_entity();
    assert!(world.manager_mut().add_component(HEALTH, entity, 5).is_ok());
    world.run();
    assert!(world.systems[0].dense.contains(&entity));
    assert!(world.manager_mut().add_component(ARMOR, entity, 7).is_ok());
    world.run();
    assert!(!world.systems[0].dense.contains(&entity));
    // destroying the entity evicts it as well
    assert!(world.manager_mut().add_component(HEALTH, Entity::new(9), 5).is_err());
    world.manager_mut().remove_component(ARMOR, entity);
    world.run();
    assert!(world.systems[0].dense.contains(&entity));
    world.manager_mut().destroy_entity(entity);
    world.run();
    assert!(world.systems[0].dense.is_empty());
}

#[test]
fn world_resources_are_singletons() {
    let mut resources: flywheel_ecs::ResourceManager<i32> = flywheel_ecs::ResourceManager::new();
    assert!(resources.insert(HEALTH, 41).is_none());
    assert_eq!(resources.insert(HEALTH, 42), Some(41));
    assert_eq!(resources.get(HEALTH), Some(&42));
}
