use flywheel_ecs::ResourceManager;

const BYTE: u64 = 8;
const SHORT: u64 = 16;
const WORD: u64 = 32;

fn setup() -> ResourceManager<i32> {
    let mut resource_manager = ResourceManager::new();
    assert!(resource_manager.insert(BYTE, 8).is_none());
    assert!(resource_manager.insert(SHORT, 16).is_none());
    resource_manager
}

#[test]
fn resource_manager_insert() {
    let mut resource_manager = setup();
    let value = 8 * 3;
    assert_eq!(resource_manager.insert(BYTE, value), Some(8));
    assert_eq!(resource_manager.get(BYTE), Some(&value));
    let value = 16 * 3;
    assert_eq!(resource_manager.insert(SHORT, value), Some(16));
    assert_eq!(resource_manager.get(SHORT), Some(&value));
    assert!(resource_manager.insert(WORD, 32).is_none());
    assert_eq!(resource_manager.get(WORD), Some(&32));
}

#[test]
fn resource_manager_has() {
    let resource_manager = setup();
    assert!(resource_manager.has(BYTE));
    assert!(resource_manager.has(SHORT));
    assert!(!resource_manager.has(WORD));
}

#[test]
fn resource_manager_get() {
    let resource_manager = setup();
    assert_eq!(resource_manager.get(BYTE), Some(&8));
    assert_eq!(resource_manager.get(SHORT), Some(&16));
    assert!(resource_manager.get(WORD).is_none());
}

#[test]
fn resource_manager_get_mut() {
    let mut resource_manager = setup();
    assert_eq!(resource_manager.get_mut(BYTE), Some(&mut 8));
    assert_eq!(resource_manager.get_mut(SHORT), Some(&mut 16));
    assert!(resource_manager.get_mut(WORD).is_none());
}

#[test]
fn resource_manager_remove() {
    let mut resource_manager = setup();
    assert!(resource_manager.remove(WORD).is_none());
    assert_eq!(resource_manager.get(BYTE), Some(&8));
    assert_eq!(resource_manager.remove(BYTE), Some(8));
    assert!(!resource_manager.has(BYTE));
    assert!(resource_manager.remove(BYTE).is_none());
    assert_eq!(resource_manager.get(SHORT), Some(&16));
    assert_eq!(resource_manager.remove(SHORT), Some(16));
    assert!(!resource_manager.has(SHORT));
    assert!(resource_manager.remove(SHORT).is_none());
    assert!(resource_manager.remove(WORD).is_none());
}

#[test]
fn resource_manager_clear() {
    let mut resource_manager = setup();
    resource_manager.clear();
    assert!(!resource_manager.has(BYTE));
    assert!(!resource_manager.has(SHORT));
}
