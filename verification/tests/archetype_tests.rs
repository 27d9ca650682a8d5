use flywheel_ecs::Archetype;
use flywheel_ecs::Entity;

fn setup() -> Archetype {
    let owner = Entity::new(0);
    let mut archetype = Archetype::new(Some(owner));
    assert!(!archetype.dirty());
    assert!(!archetype.insert(0));
    assert!(archetype.dirty());
    archetype.flush();
    assert!(!archetype.dirty());
    assert!(!archetype.insert(1));
    assert!(archetype.dirty());
    archetype.flush();
    assert!(!archetype.dirty());
    archetype
}

#[test]
fn archetype_owner() {
    assert_eq!(setup().owner(), Some(Entity::new(0)));
}

#[test]
fn archetype_insert() {
    let mut archetype = setup();
    assert!(archetype.insert(0));
    assert!(!archetype.dirty());
    assert!(archetype.has(0));
    assert!(archetype.insert(1));
    assert!(!archetype.dirty());
    assert!(archetype.has(1));
    assert!(!archetype.insert(64));
    assert!(archetype.dirty());
    assert!(archetype.has(64));
}

#[test]
fn archetype_has() {
    let archetype = setup();
    for i in 0..2 {
        assert!(archetype.has(i));
    }
    for i in 2..=64 {
        assert!(!archetype.has(i));
    }
}

#[test]
fn has_common_with() {
    let mut archetype = setup();
    let other = setup();
    assert!(archetype.has_common_with(&other));
    assert!(other.has_common_with(&archetype));
    archetype.clear();
    assert!(!archetype.has_common_with(&other));
    assert!(!other.has_common_with(&archetype));
    assert!(!archetype.insert(0));
    assert!(archetype.has_common_with(&other));
    assert!(other.has_common_with(&archetype));
}

#[test]
fn is_subset_of() {
    let mut archetype = setup();
    let other = setup();
    assert!(archetype.is_subset_of(&other));
    assert!(other.is_subset_of(&archetype));
    archetype.insert(64);
    assert!(!archetype.is_subset_of(&other));
    assert!(other.is_subset_of(&archetype));
}

#[test]
fn is_superset_of() {
    let mut archetype = setup();
    let other = setup();
    assert!(archetype.is_superset_of(&other));
    assert!(other.is_superset_of(&archetype));
    archetype.insert(64);
    assert!(archetype.is_superset_of(&other));
    assert!(!other.is_superset_of(&archetype));
}

#[test]
fn archetype_remove() {
    let mut archetype = setup();
    assert!(!archetype.remove(64));
    assert!(!archetype.dirty());
    assert!(archetype.has(0));
    assert!(archetype.remove(0));
    assert!(archetype.dirty());
    archetype.flush();
    assert!(!archetype.has(0));
    assert!(!archetype.remove(0));
    assert!(!archetype.dirty());
    assert!(archetype.has(1));
    assert!(archetype.remove(1));
    assert!(archetype.dirty());
    archetype.flush();
    assert!(!archetype.has(1));
    assert!(!archetype.remove(1));
    assert!(!archetype.dirty());
    assert!(!archetype.remove(64));
    assert!(!archetype.dirty());
}

#[test]
fn archetype_clear() {
    let mut archetype = setup();
    archetype.clear();
    assert!(archetype.dirty());
    for i in 0..=64 {
        assert!(!archetype.has(i));
    }
}

#[test]
fn eq() {
    let mut archetype = setup();
    let other = setup();
    assert!(archetype == other);
    assert!(other == archetype);
    assert!(!archetype.insert(64));
    assert!(archetype != other);
    assert!(other != archetype);
    assert!(archetype.remove(64));
    assert!(archetype == other);
    assert!(other == archetype);
}
