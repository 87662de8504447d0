use charbs::capability::{AccessError, Res, TypeKey};
use charbs::state::State;

#[test]
fn store_add_and_has() {
    let mut store: State<String> = State::new();
    let key = TypeKey::new(1);

    assert!(!store.has(key));

    store.add(key, String::from("a"));

    assert!(store.has(key));
}

#[test]
fn store_replaces_value() {
    let mut store: State<String> = State::new();
    let key = TypeKey::new(1);

    store.add(key, String::from("a"));
    store.add(key, String::from("b"));

    assert!(store.has(key));
    assert_eq!(store.get(Res::new(key)), Ok(&String::from("b")));

    // later adds replace: a single entry remains
    let entries = store.drain();
    assert_eq!(entries.len(), 1);
    assert!(!store.has(key));
}

#[test]
fn store_get_missing_resource() {
    let store: State<String> = State::new();
    let key = TypeKey::new(1);

    assert_eq!(
        store.get(Res::new(key)),
        Err(AccessError::MissingResource(key))
    );
}

#[test]
fn store_get_mut_writes_in_place() {
    let mut store: State<u32> = State::new();
    let key = TypeKey::new(1);
    store.add(key, 41);

    assert!(store.has(key));
    *store.get_mut(charbs::capability::ResMut::new(key)) += 1;

    assert_eq!(store.get(Res::new(key)), Ok(&42));
}

#[test]
fn store_merge_moves_everything() {
    let mut a: State<u32> = State::new();
    let mut b: State<u32> = State::new();

    a.add(TypeKey::new(1), 10);
    a.add(TypeKey::new(2), 20);
    b.add(TypeKey::new(2), 200);
    b.add(TypeKey::new(3), 300);

    a.merge(&mut b);

    // b's entries all moved over, collisions resolved in b's favor
    assert_eq!(a.get(Res::new(TypeKey::new(1))), Ok(&10));
    assert_eq!(a.get(Res::new(TypeKey::new(2))), Ok(&200));
    assert_eq!(a.get(Res::new(TypeKey::new(3))), Ok(&300));

    // b is empty afterwards
    assert!(!b.has(TypeKey::new(2)));
    assert!(!b.has(TypeKey::new(3)));
    assert_eq!(b.drain().len(), 0);
}

#[test]
fn store_drain_yields_entries_in_order() {
    let mut store: State<u32> = State::new();
    store.add(TypeKey::new(1), 10);
    store.add(TypeKey::new(2), 20);

    let entries = store.drain();

    assert_eq!(entries, vec![(TypeKey::new(1), 10), (TypeKey::new(2), 20)]);
    assert!(!store.has(TypeKey::new(1)));
}

#[test]
fn store_all_exposes_entries() {
    let mut store: State<u32> = State::new();
    store.add(TypeKey::new(1), 10);

    assert_eq!(store.all().len(), 1);
    assert_eq!(store.all()[0].key, TypeKey::new(1));
    assert_eq!(store.all()[0].value, 10);

    store.all_mut()[0].value = 11;
    assert_eq!(store.get(Res::new(TypeKey::new(1))), Ok(&11));
}
