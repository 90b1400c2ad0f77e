use kagura::arena::Arena;
use kagura::instance::InstanceRef;

#[test]
fn replaced_instance_references_go_stale() {
    let mut a: Arena<&str> = Arena::new();
    let r = a.insert("first");
    let other = a.insert("other");
    assert_eq!(a.get(r), Some(&"first"));
    let m = a.replace(r, "second").unwrap();
    assert_eq!(m, InstanceRef { slot: r.slot, generation: 1 });
    assert!(!a.is_live(r));
    assert_eq!(a.get(r), None);
    assert_eq!(a.take(r), None);
    assert_eq!(a.get(m), Some(&"second"));
    assert_eq!(a.get(other), Some(&"other"));
    assert!(a.replace(r, "third").is_none());
}

#[test]
fn taken_instance_is_exclusive_until_restored() {
    let mut a: Arena<u32> = Arena::new();
    let r = a.insert(5);
    let v = a.take(r).unwrap();
    assert!(!a.is_live(r));
    assert_eq!(a.take(r), None);
    a.restore(r, v + 1);
    assert_eq!(a.get(r), Some(&6));
}

#[test]
fn unknown_slot_is_not_live() {
    let a: Arena<u32> = Arena::new();
    assert!(!a.is_live(InstanceRef { slot: 3, generation: 0 }));
}
