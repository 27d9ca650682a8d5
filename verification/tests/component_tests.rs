use flywheel_ecs::AnyComponentPool;
use flywheel_ecs::ComponentManager;
use flywheel_ecs::ComponentPool;
use flywheel_ecs::Entity;

#[derive(Debug, Eq, PartialEq, Copy, Clone)]
enum Comp {
    Health(u8),
    Damage(u8),
    Shield(u8),
}

const HEALTH: u64 = 10;
const DAMAGE: u64 = 20;
const SHIELD: u64 = 30;

fn e0() -> Entity {
    Entity::new(0)
}

fn e1() -> Entity {
    Entity::new(1)
}

fn e2() -> Entity {
    Entity::new(2)
}

fn pool_setup() -> ComponentPool<usize> {
    let mut component_pool = ComponentPool::new_with_initial(e0(), e0().id());
    assert!(component_pool.insert(e1(), e1().id()).is_none());
    component_pool
}

#[test]
fn component_pool_new() {
    let component_pool: ComponentPool<usize> = ComponentPool::new();
    assert!(component_pool.all().is_empty());
    assert!(component_pool.owners().is_empty());
}

#[test]
fn component_pool_insert() {
    let mut component_pool = pool_setup();
    let value = e0().id() + 3;
    assert_eq!(component_pool.insert(e0(), value), Some(e0().id()));
    assert_eq!(component_pool.get(e0()), Some(&value));
    let value = e1().id() + 3;
    assert_eq!(component_pool.insert(e1(), value), Some(e1().id()));
    assert_eq!(component_pool.get(e1()), Some(&value));
    assert!(component_pool.insert(e2(), e2().id()).is_none());
    assert_eq!(component_pool.get(e2()), Some(&e2().id()));
}

#[test]
fn component_pool_has() {
    let component_pool = pool_setup();
    assert!(component_pool.has(e0()));
    assert!(component_pool.has(e1()));
    assert!(!component_pool.has(e2()));
}

#[test]
fn component_pool_get() {
    let component_pool = pool_setup();
    assert_eq!(component_pool.get(e0()), Some(&e0().id()));
    assert_eq!(component_pool.get(e1()), Some(&e1().id()));
    assert!(component_pool.get(e2()).is_none());
}

#[test]
fn component_pool_get_mut() {
    let mut component_pool = pool_setup();
    assert_eq!(component_pool.get_mut(e0()), Some(&mut e0().id()));
    assert_eq!(component_pool.get_mut(e1()), Some(&mut e1().id()));
    assert!(component_pool.get_mut(e2()).is_none());
}

#[test]
fn component_pool_all() {
    let component_pool = pool_setup();
    assert_eq!(component_pool.all().len(), 2);
    assert!(component_pool.all().contains(&e0().id()));
    assert!(component_pool.all().contains(&e1().id()));
}

#[test]
fn component_pool_all_mut() {
    let mut component_pool = pool_setup();
    assert_eq!(component_pool.all_mut().len(), 2);
    assert!(component_pool.all_mut().contains(&e0().id()));
    assert!(component_pool.all_mut().contains(&e1().id()));
}

#[test]
fn component_pool_remove() {
    let mut component_pool = pool_setup();
    assert!(component_pool.remove(e2()).is_none());
    assert_eq!(component_pool.get(e0()), Some(&e0().id()));
    assert_eq!(component_pool.remove(e0()), Some(e0().id()));
    assert!(!component_pool.has(e0()));
    assert!(component_pool.remove(e0()).is_none());
    assert_eq!(component_pool.get(e1()), Some(&e1().id()));
    assert_eq!(component_pool.remove(e1()), Some(e1().id()));
    assert!(!component_pool.has(e1()));
    assert!(component_pool.remove(e1()).is_none());
    assert!(component_pool.remove(e2()).is_none());

    let mut component_pool = pool_setup();
    assert!(component_pool.remove(e2()).is_none());
    assert_eq!(component_pool.get(e1()), Some(&e1().id()));
    assert_eq!(component_pool.remove(e1()), Some(e1().id()));
    assert!(!component_pool.has(e1()));
    assert!(component_pool.remove(e1()).is_none());
    assert_eq!(component_pool.get(e0()), Some(&e0().id()));
    assert_eq!(component_pool.remove(e0()), Some(e0().id()));
    assert!(!component_pool.has(e0()));
    assert!(component_pool.remove(e0()).is_none());
    assert!(component_pool.remove(e2()).is_none());
}

#[test]
fn component_pool_owners() {
    let component_pool = pool_setup();
    assert_eq!(component_pool.owners().len(), 2);
    assert!(component_pool.owners().contains(&e0()));
    assert!(component_pool.owners().contains(&e1()));
}

#[test]
fn component_pool_destroy() {
    let mut component_pool = pool_setup();
    component_pool.destroy(e2());
    assert_eq!(component_pool.get(e0()), Some(&e0().id()));
    component_pool.destroy(e0());
    assert!(!component_pool.has(e0()));
    component_pool.destroy(e0());
    assert_eq!(component_pool.get(e1()), Some(&e1().id()));
    component_pool.destroy(e1());
    assert!(!component_pool.has(e1()));
    component_pool.destroy(e1());
    component_pool.destroy(e2());

    let mut component_pool = pool_setup();
    component_pool.destroy(e2());
    assert_eq!(component_pool.get(e1()), Some(&e1().id()));
    component_pool.destroy(e1());
    assert!(!component_pool.has(e1()));
    component_pool.destroy(e1());
    assert_eq!(component_pool.get(e0()), Some(&e0().id()));
    component_pool.destroy(e0());
    assert!(!component_pool.has(e0()));
    component_pool.destroy(e0());
    component_pool.destroy(e2());
}

#[test]
fn component_pool_clear() {
    let mut component_pool = pool_setup();
    component_pool.clear();
    assert!(!component_pool.has(e0()));
    assert!(!component_pool.has(e1()));
    assert!(component_pool.all().is_empty());
    assert!(component_pool.owners().is_empty());
}

fn manager_setup() -> ComponentManager<Comp> {
    let mut component_manager = ComponentManager::new();
    assert!(component_manager.insert(HEALTH, e0(), Comp::Health(1)).is_none());
    assert!(component_manager.insert(DAMAGE, e0(), Comp::Damage(2)).is_none());
    assert!(component_manager.insert(HEALTH, e1(), Comp::Health(4)).is_none());
    assert!(component_manager.insert(DAMAGE, e1(), Comp::Damage(5)).is_none());
    component_manager
}

#[test]
fn component_manager_id() {
    let component_manager = manager_setup();
    assert_eq!(component_manager.id(HEALTH).unwrap(), 0);
    assert_eq!(component_manager.id(DAMAGE).unwrap(), 1);
    assert!(component_manager.id(SHIELD).is_none());
}

#[test]
fn register() {
    let mut component_manager = manager_setup();
    assert_eq!(component_manager.register(HEALTH), 0);
    assert_eq!(component_manager.register(DAMAGE), 1);
    assert_eq!(component_manager.register(SHIELD), 2);
}

#[test]
fn component_manager_insert() {
    let mut component_manager = manager_setup();

    let value = 1 * 10;
    assert_eq!(
        component_manager.insert(HEALTH, e0(), Comp::Health(value)),
        Some(Comp::Health(1))
    );
    assert_eq!(component_manager.get(HEALTH, e0()), Some(&Comp::Health(value)));
    let value = 2 * 10;
    assert_eq!(
        component_manager.insert(DAMAGE, e0(), Comp::Damage(value)),
        Some(Comp::Damage(2))
    );
    assert_eq!(component_manager.get(DAMAGE, e0()), Some(&Comp::Damage(value)));
    assert!(component_manager.insert(SHIELD, e0(), Comp::Shield(3)).is_none());
    assert_eq!(component_manager.get(SHIELD, e0()), Some(&Comp::Shield(3)));
    let value = 4 * 10;
    assert_eq!(
        component_manager.insert(HEALTH, e1(), Comp::Health(value)),
        Some(Comp::Health(4))
    );
    assert_eq!(component_manager.get(HEALTH, e1()), Some(&Comp::Health(value)));
    let value = 5 * 10;
    assert_eq!(
        component_manager.insert(DAMAGE, e1(), Comp::Damage(value)),
        Some(Comp::Damage(5))
    );
    assert_eq!(component_manager.get(DAMAGE, e1()), Some(&Comp::Damage(value)));
    assert!(component_manager.insert(SHIELD, e1(), Comp::Shield(6)).is_none());
    assert_eq!(component_manager.get(SHIELD, e1()), Some(&Comp::Shield(6)));
    assert!(component_manager.insert(HEALTH, e2(), Comp::Health(7)).is_none());
    assert_eq!(component_manager.get(HEALTH, e2()), Some(&Comp::Health(7)));
    assert!(component_manager.insert(DAMAGE, e2(), Comp::Damage(8)).is_none());
    assert_eq!(component_manager.get(DAMAGE, e2()), Some(&Comp::Damage(8)));
    assert!(component_manager.insert(SHIELD, e2(), Comp::Shield(9)).is_none());
    assert_eq!(component_manager.get(SHIELD, e2()), Some(&Comp::Shield(9)));
}

#[test]
fn component_manager_has() {
    let component_manager = manager_setup();
    assert!(component_manager.has(HEALTH, e0()));
    assert!(component_manager.has(DAMAGE, e0()));
    assert!(!component_manager.has(SHIELD, e0()));
    assert!(component_manager.has(HEALTH, e1()));
    assert!(component_manager.has(DAMAGE, e1()));
    assert!(!component_manager.has(SHIELD, e1()));
    assert!(!component_manager.has(HEALTH, e2()));
    assert!(!component_manager.has(DAMAGE, e2()));
    assert!(!component_manager.has(SHIELD, e2()));
}

#[test]
fn component_manager_get() {
    let component_manager = manager_setup();
    assert_eq!(component_manager.get(HEALTH, e0()), Some(&Comp::Health(1)));
    assert_eq!(component_manager.get(DAMAGE, e0()), Some(&Comp::Damage(2)));
    assert!(component_manager.get(SHIELD, e0()).is_none());
    assert_eq!(component_manager.get(HEALTH, e1()), Some(&Comp::Health(4)));
    assert_eq!(component_manager.get(DAMAGE, e1()), Some(&Comp::Damage(5)));
    assert!(component_manager.get(SHIELD, e1()).is_none());
    assert!(component_manager.get(HEALTH, e2()).is_none());
    assert!(component_manager.get(DAMAGE, e2()).is_none());
    assert!(component_manager.get(SHIELD, e2()).is_none());
}

#[test]
fn component_manager_get_mut() {
    let mut component_manager = manager_setup();
    assert_eq!(component_manager.get_mut(HEALTH, e0()), Some(&mut Comp::Health(1)));
    assert_eq!(component_manager.get_mut(DAMAGE, e0()), Some(&mut Comp::Damage(2)));
    assert!(component_manager.get_mut(SHIELD, e0()).is_none());
    assert_eq!(component_manager.get_mut(HEALTH, e1()), Some(&mut Comp::Health(4)));
    assert_eq!(component_manager.get_mut(DAMAGE, e1()), Some(&mut Comp::Damage(5)));
    assert!(component_manager.get_mut(SHIELD, e1()).is_none());
    assert!(component_manager.get_mut(HEALTH, e2()).is_none());
    assert!(component_manager.get_mut(DAMAGE, e2()).is_none());
    assert!(component_manager.get_mut(SHIELD, e2()).is_none());
}

#[test]
fn component_manager_all() {
    let component_manager = manager_setup();
    assert_eq!(component_manager.all(HEALTH).len(), 2);
    assert!(component_manager.all(HEALTH).contains(&Comp::Health(1)));
    assert!(component_manager.all(HEALTH).contains(&Comp::Health(4)));
    assert_eq!(component_manager.all(DAMAGE).len(), 2);
    assert!(component_manager.all(DAMAGE).contains(&Comp::Damage(2)));
    assert!(component_manager.all(DAMAGE).contains(&Comp::Damage(5)));
    assert!(component_manager.all(SHIELD).is_empty());
}

#[test]
fn component_manager_all_mut() {
    let mut component_manager = manager_setup();
    assert_eq!(component_manager.all_mut(HEALTH).len(), 2);
    assert!(component_manager.all_mut(HEALTH).contains(&Comp::Health(1)));
    assert!(component_manager.all_mut(HEALTH).contains(&Comp::Health(4)));
    assert_eq!(component_manager.all_mut(DAMAGE).len(), 2);
    assert!(component_manager.all_mut(DAMAGE).contains(&Comp::Damage(2)));
    assert!(component_manager.all_mut(DAMAGE).contains(&Comp::Damage(5)));
    assert!(component_manager.all_mut(SHIELD).is_empty());
}

#[test]
fn component_manager_remove() {
    let mut component_manager = manager_setup();
    assert!(component_manager.remove(HEALTH, e2()).is_none());
    assert!(component_manager.remove(DAMAGE, e2()).is_none());
    assert!(component_manager.remove(SHIELD, e2()).is_none());
    assert_eq!(component_manager.get(HEALTH, e0()), Some(&Comp::Health(1)));
    assert_eq!(component_manager.get(DAMAGE, e0()), Some(&Comp::Damage(2)));
    assert!(!component_manager.has(SHIELD, e0()));
    assert_eq!(component_manager.remove(HEALTH, e0()), Some(Comp::Health(1)));
    assert_eq!(component_manager.remove(DAMAGE, e0()), Some(Comp::Damage(2)));
    assert!(component_manager.remove(SHIELD, e0()).is_none());
    assert!(!component_manager.has(HEALTH, e0()));
    assert!(!component_manager.has(DAMAGE, e0()));
    assert!(!component_manager.has(SHIELD, e0()));
    assert!(component_manager.remove(HEALTH, e0()).is_none());
    assert!(component_manager.remove(DAMAGE, e0()).is_none());
    assert!(component_manager.remove(SHIELD, e0()).is_none());
    assert_eq!(component_manager.get(HEALTH, e1()), Some(&Comp::Health(4)));
    assert_eq!(component_manager.get(DAMAGE, e1()), Some(&Comp::Damage(5)));
    assert!(!component_manager.has(SHIELD, e1()));
    assert_eq!(component_manager.remove(HEALTH, e1()), Some(Comp::Health(4)));
    assert_eq!(component_manager.remove(DAMAGE, e1()), Some(Comp::Damage(5)));
    assert!(component_manager.remove(SHIELD, e1()).is_none());
    assert!(!component_manager.has(HEALTH, e1()));
    assert!(!component_manager.has(DAMAGE, e1()));
    assert!(!component_manager.has(SHIELD, e1()));
    assert!(component_manager.remove(HEALTH, e1()).is_none());
    assert!(component_manager.remove(DAMAGE, e1()).is_none());
    assert!(component_manager.remove(SHIELD, e1()).is_none());
    assert!(component_manager.remove(HEALTH, e2()).is_none());
    assert!(component_manager.remove(DAMAGE, e2()).is_none());
    assert!(component_manager.remove(SHIELD, e2()).is_none());
}

#[test]
fn component_manager_owners() {
    let component_manager = manager_setup();
    assert_eq!(component_manager.owners(HEALTH).len(), 2);
    assert!(component_manager.owners(HEALTH).contains(&e0()));
    assert!(component_manager.owners(HEALTH).contains(&e1()));
    assert_eq!(component_manager.owners(DAMAGE).len(), 2);
    assert!(component_manager.owners(DAMAGE).contains(&e0()));
    assert!(component_manager.owners(DAMAGE).contains(&e1()));
    assert!(component_manager.owners(SHIELD).is_empty());
}

#[test]
fn component_manager_destroy() {
    let mut component_manager = manager_setup();
    component_manager.destroy(e2());
    assert_eq!(component_manager.get(HEALTH, e0()), Some(&Comp::Health(1)));
    assert_eq!(component_manager.get(DAMAGE, e0()), Some(&Comp::Damage(2)));
    assert!(!component_manager.has(SHIELD, e0()));
    component_manager.destroy(e0());
    assert!(!component_manager.has(HEALTH, e0()));
    assert!(!component_manager.has(DAMAGE, e0()));
    assert!(!component_manager.has(SHIELD, e0()));
    component_manager.destroy(e0());
    assert_eq!(component_manager.get(HEALTH, e1()), Some(&Comp::Health(4)));
    assert_eq!(component_manager.get(DAMAGE, e1()), Some(&Comp::Damage(5)));
    assert!(!component_manager.has(SHIELD, e1()));
    component_manager.destroy(e1());
    assert!(!component_manager.has(HEALTH, e1()));
    assert!(!component_manager.has(DAMAGE, e1()));
    assert!(!component_manager.has(SHIELD, e1()));
    component_manager.destroy(e1());
    component_manager.destroy(e2());
}

#[test]
fn component_manager_clear() {
    let mut component_manager = manager_setup();
    component_manager.clear();
    assert!(component_manager.all(HEALTH).is_empty());
    assert!(component_manager.all(DAMAGE).is_empty());
    assert!(component_manager.all(SHIELD).is_empty());
}
