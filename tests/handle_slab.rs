use doom_engine::handle::HandleSlab;

#[test]
fn insert_then_get_returns_value() {
    let mut slab: HandleSlab<u32> = HandleSlab::new();
    let a = slab.insert(10);
    let b = slab.insert(20);
    assert_eq!(slab.get(a), Some(&10));
    assert_eq!(slab.get(b), Some(&20));
    assert_eq!(slab.len(), 2);
}

#[test]
fn removed_handle_stays_invalid_after_slot_reuse() {
    let mut slab: HandleSlab<u32> = HandleSlab::new();
    let a = slab.insert(1);
    let b = slab.insert(2);
    assert_eq!(slab.remove(a), Some(1));
    assert_eq!(slab.get(a), None);
    let c = slab.insert(3);
    assert_eq!(c.slot(), a.slot());
    assert_ne!(c, a);
    assert_eq!(slab.get(a), None);
    assert!(!slab.contains(a));
    assert_eq!(slab.get(c), Some(&3));
    assert_eq!(slab.get(b), Some(&2));
    assert_eq!(slab.remove(a), None);
    assert_eq!(slab.len(), 2);
}

#[test]
fn insertion_reuses_lowest_free_slot() {
    let mut slab: HandleSlab<u8> = HandleSlab::new();
    let h0 = slab.insert(0);
    let h1 = slab.insert(1);
    let h2 = slab.insert(2);
    slab.remove(h2);
    slab.remove(h0);
    let n = slab.insert(9);
    assert_eq!(n.slot(), h0.slot());
    let m = slab.insert(8);
    assert_eq!(m.slot(), h2.slot());
    let k = slab.insert(7);
    assert_eq!(k.slot(), 3);
    assert_eq!(slab.get(h1), Some(&1));
}

#[test]
fn handles_follow_insertion_order_of_live_entries() {
    let mut slab: HandleSlab<&str> = HandleSlab::new();
    let a = slab.insert("a");
    let b = slab.insert("b");
    let c = slab.insert("c");
    slab.remove(b);
    let d = slab.insert("d");
    assert_eq!(slab.handles(), vec![a, c, d]);
}

#[test]
fn replace_and_get_mut_change_value_in_place() {
    let mut slab: HandleSlab<u32> = HandleSlab::new();
    let a = slab.insert(5);
    assert_eq!(slab.replace(a, 6), Some(5));
    if let Some(v) = slab.get_mut(a) {
        *v += 1;
    }
    assert_eq!(slab.get(a), Some(&7));
    slab.remove(a);
    assert_eq!(slab.replace(a, 1), None);
    assert!(slab.get_mut(a).is_none());
}
