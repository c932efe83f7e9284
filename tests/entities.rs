use doom_engine::component::ComponentTable;
use doom_engine::entity::{EntityError, EntityStore};

#[test]
fn removing_middle_child_leaves_two_children() {
    let mut store = EntityStore::new();
    let mut transforms: ComponentTable<u32> = ComponentTable::new();
    let root = store.add_root("root");
    let a = store.add(root, "a").unwrap();
    let b = store.add(root, "b").unwrap();
    let c = store.add(root, "c").unwrap();
    for (e, v) in [(a, 1u32), (b, 2), (c, 3)] {
        transforms.attach(&store, e, v).unwrap();
    }
    assert_eq!(store.remove(b), Ok(vec![b]));
    transforms.retain_live(&store);
    let kids = store.children_of(root);
    assert_eq!(kids.len(), 2);
    assert_eq!(kids, vec![a, c]);
    assert_eq!(transforms.get(b), None);
    assert_eq!(transforms.get(a), Some(&1));
    assert_eq!(transforms.get(c), Some(&3));
}

#[test]
fn removing_root_clears_components_of_whole_subtree() {
    let mut store = EntityStore::new();
    let mut table: ComponentTable<&str> = ComponentTable::new();
    let root = store.add_root("root");
    let x = store.add(root, "x").unwrap();
    let y = store.add(x, "y").unwrap();
    let z = store.add(y, "z").unwrap();
    let other = store.add_root("other");
    for e in [root, x, y, z, other] {
        table.attach(&store, e, "data").unwrap();
    }
    let removed = store.remove(root).unwrap();
    assert_eq!(removed[0], root);
    assert_eq!(removed.len(), 4);
    table.retain_live(&store);
    for e in [root, x, y, z] {
        assert!(!store.contains(e));
        assert!(!table.contains(e));
    }
    assert!(table.contains(other));
    assert_eq!(store.len(), 1);
}

#[test]
fn adding_under_unknown_parent_fails() {
    let mut store = EntityStore::new();
    let root = store.add_root("root");
    store.remove(root).unwrap();
    assert_eq!(store.add(root, "child"), Err(EntityError::UnknownParent));
    assert_eq!(store.remove(root), Err(EntityError::UnknownEntity));
}

#[test]
fn attaching_to_removed_entity_fails_and_upsert_replaces() {
    let mut store = EntityStore::new();
    let mut table: ComponentTable<u8> = ComponentTable::new();
    let e = store.add_root("e");
    assert_eq!(table.attach(&store, e, 1), Ok(None));
    assert_eq!(table.attach(&store, e, 2), Ok(Some(1)));
    assert_eq!(table.get(e), Some(&2));
    store.remove(e).unwrap();
    assert_eq!(table.attach(&store, e, 3), Err(EntityError::UnknownEntity));
}

#[test]
fn stale_component_does_not_answer_for_reused_slot() {
    let mut store = EntityStore::new();
    let mut table: ComponentTable<u8> = ComponentTable::new();
    let old = store.add_root("old");
    table.attach(&store, old, 5).unwrap();
    store.remove(old).unwrap();
    let new = store.add_root("new");
    assert_eq!(new.slot(), old.slot());
    assert_eq!(table.get(new), None);
    assert_eq!(table.detach(old), Some(5));
    assert_eq!(table.detach(old), None);
}

#[test]
fn parent_links_are_reported() {
    let mut store = EntityStore::new();
    let root = store.add_root("root");
    let kid = store.add(root, "kid").unwrap();
    assert_eq!(store.parent_of(kid), Some(root));
    assert_eq!(store.parent_of(root), None);
    assert_eq!(store.children_of(kid), vec![]);
}
