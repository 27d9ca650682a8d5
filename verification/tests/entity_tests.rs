use flywheel_ecs::Entity;
use flywheel_ecs::EntityData;
use flywheel_ecs::EntityManager;

#[test]
fn entity_id() {
    assert_eq!(Entity::new(5).id(), 5);
}

fn owner0() -> Entity {
    Entity::new(0)
}

fn parent1() -> Entity {
    Entity::new(1)
}

fn child2() -> Entity {
    Entity::new(2)
}

fn child3() -> Entity {
    Entity::new(3)
}

fn entity4() -> Entity {
    Entity::new(4)
}

fn data_setup() -> EntityData {
    let mut entity_data = EntityData::new(owner0());
    assert!(entity_data.set_parent(Some(parent1())).is_ok());
    assert!(entity_data.insert_child(child2()).is_ok());
    assert!(entity_data.insert_child(child3()).is_ok());
    entity_data
}

#[test]
fn entity_data_owner() {
    assert_eq!(data_setup().owner(), owner0());
}

#[test]
fn archetype() {
    assert!(data_setup().archetype().dirty());
}

#[test]
fn archetype_mut() {
    assert!(data_setup().archetype_mut().dirty());
}

#[test]
fn parent() {
    assert_eq!(data_setup().parent(), Some(parent1()));
}

#[test]
fn set_parent() {
    let mut entity_data = data_setup();
    assert!(entity_data.set_parent(Some(owner0())).is_err());
    assert_eq!(entity_data.parent(), Some(parent1()));
    assert!(entity_data.set_parent(Some(entity4())).is_ok());
    assert_eq!(entity_data.parent(), Some(entity4()));
    assert!(entity_data.set_parent(Some(child2())).is_err());
    assert_eq!(entity_data.parent(), Some(entity4()));
    entity_data.remove_child(child2());
    assert!(entity_data.set_parent(Some(child2())).is_ok());
    assert_eq!(entity_data.parent(), Some(child2()));
}

#[test]
fn insert_child() {
    let mut entity_data = data_setup();
    assert!(entity_data.insert_child(owner0()).is_err());
    assert!(!entity_data.has_child(owner0()));
    assert!(entity_data.insert_child(entity4()).is_ok());
    assert!(entity_data.has_child(entity4()));
    assert!(entity_data.insert_child(parent1()).is_err());
    assert!(!entity_data.has_child(parent1()));
    assert!(entity_data.set_parent(None).is_ok());
    assert!(entity_data.insert_child(parent1()).is_ok());
    assert!(entity_data.has_child(parent1()));
}

#[test]
fn has_child() {
    let entity_data = data_setup();
    assert!(entity_data.has_child(child2()));
    assert!(entity_data.has_child(child3()));
    assert!(!entity_data.has_child(entity4()));
}

#[test]
fn children() {
    let entity_data = data_setup();
    assert_eq!(entity_data.children().len(), 2);
    assert!(entity_data.children().contains(&child2()));
    assert!(entity_data.children().contains(&child3()));
}

#[test]
fn remove_child() {
    let mut entity_data = data_setup();
    entity_data.remove_child(entity4());
    assert!(entity_data.has_child(child2()));
    entity_data.remove_child(child2());
    assert!(!entity_data.has_child(child2()));
    entity_data.remove_child(child2());
    assert!(entity_data.has_child(child3()));
    entity_data.remove_child(child3());
    assert!(!entity_data.has_child(child3()));
    entity_data.remove_child(child3());
    entity_data.remove_child(entity4());
}

#[test]
fn entity_data_clear() {
    let mut entity_data = data_setup();
    entity_data.clear();
    assert_eq!(entity_data.owner(), owner0());
    assert!(entity_data.archetype().dirty());
    assert!(entity_data.parent().is_none());
    assert!(!entity_data.has_child(child2()));
    assert!(!entity_data.has_child(child3()));
    assert!(entity_data.children().is_empty());
}

#[test]
fn bind() {
    let mut entity_manager = EntityManager::new();
    let entity0 = entity_manager.spawn();
    entity_manager.bind(entity0, entity0);
    assert!(entity_manager.get(entity0).unwrap().parent().is_none());
    assert!(entity_manager.get(entity0).unwrap().children().is_empty());

    let mut entity_manager = EntityManager::new();
    let entity0 = entity_manager.spawn();
    let entity1 = entity_manager.spawn();
    entity_manager.bind(entity0, entity1);
    assert!(entity_manager.get(entity0).unwrap().parent().is_none());
    assert_eq!(entity_manager.get(entity0).unwrap().children(), [entity1]);
    assert_eq!(entity_manager.get(entity1).unwrap().parent(), Some(entity0));
    assert!(entity_manager.get(entity1).unwrap().children().is_empty());
    entity_manager.bind(entity1, entity0);
    assert_eq!(entity_manager.get(entity0).unwrap().parent(), Some(entity1));
    assert!(entity_manager.get(entity0).unwrap().children().is_empty());
    assert!(entity_manager.get(entity1).unwrap().parent().is_none());
    assert_eq!(entity_manager.get(entity1).unwrap().children(), [entity0]);

    let mut entity_manager = EntityManager::new();
    let entity0 = entity_manager.spawn();
    let entity1 = entity_manager.spawn();
    let entity2 = entity_manager.spawn();
    entity_manager.bind(entity0, entity1);
    entity_manager.bind(entity1, entity2);
    assert!(entity_manager.get(entity0).unwrap().parent().is_none());
    assert_eq!(entity_manager.get(entity0).unwrap().children(), [entity1]);
    assert_eq!(entity_manager.get(entity1).unwrap().parent(), Some(entity0));
    assert_eq!(entity_manager.get(entity1).unwrap().children(), [entity2]);
    assert_eq!(entity_manager.get(entity2).unwrap().parent(), Some(entity1));
    assert!(entity_manager.get(entity2).unwrap().children().is_empty());
    entity_manager.bind(entity2, entity0);
    assert_eq!(entity_manager.get(entity0).unwrap().parent(), Some(entity2));
    assert_eq!(entity_manager.get(entity0).unwrap().children(), [entity1]);
    assert_eq!(entity_manager.get(entity1).unwrap().parent(), Some(entity0));
    assert!(entity_manager.get(entity1).unwrap().children().is_empty());
    assert!(entity_manager.get(entity2).unwrap().parent().is_none());
    assert_eq!(entity_manager.get(entity2).unwrap().children(), [entity0]);
}
