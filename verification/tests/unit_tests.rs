use arc_gc::arc::{GCArc, GCRef, GCWrapper};
use arc_gc::gc::GC;
use arc_gc::heaped_object::GCHeapedObject;
use arc_gc::node::GCNode;

#[test]
fn test_heaped_object_counts_and_mark() {
    let mut cell: GCHeapedObject<u32> = GCHeapedObject::new(41);
    assert_eq!(cell.strong_ref(), 1);
    assert_eq!(cell.weak_ref(), 0);
    assert!(!cell.is_marked());
    assert!(!cell.is_dropped());

    cell.mark();
    assert!(cell.is_marked());
    cell.unmark();
    assert!(!cell.is_marked());

    assert_eq!(*cell.as_ref(), 41);
    *cell.as_mut() = 42;
    assert_eq!(*cell.as_ref(), 42);
}

#[test]
fn test_wrapper_value_access() {
    let mut w: GCWrapper<i64> = GCWrapper::new(5);
    assert_eq!(*w.value(), 5);
    *w.value_mut() = 6;
    assert_eq!(*w.value(), 6);
}

#[test]
fn test_memory_threshold_getters() {
    let mut gc: GC<GCNode> = GC::new();
    assert_eq!(gc.memory_threshold(), None);
    gc.set_memory_threshold(Some(4096));
    assert_eq!(gc.memory_threshold(), Some(4096));
    gc.set_memory_threshold(None);
    assert_eq!(gc.memory_threshold(), None);
}

#[test]
fn test_handle_access_and_uniqueness() {
    let mut gc: GC<GCNode> = GC::new();
    let h = GCArc::new(&mut gc, GCNode::new(12));

    // Unique: mutable access is granted.
    assert!(h.try_as_mut(&mut gc).is_some());
    h.get_mut(&mut gc).value = 13;
    assert_eq!(h.as_ref(&gc).value, 13);

    // A second strong handle forfeits uniqueness.
    let h2 = h.clone_in(&mut gc);
    assert_eq!(h.strong_ref(&gc), 2);
    assert!(h.try_as_mut(&mut gc).is_none());
    h2.release(&mut gc);

    // A weak handle forfeits uniqueness just the same: it could be
    // upgraded behind the borrow's back.
    let w = h.as_weak(&mut gc);
    assert_eq!(h.weak_ref(&gc), 1);
    assert!(h.try_as_mut(&mut gc).is_none());
    w.release(&mut gc);

    assert!(h.try_as_mut(&mut gc).is_some());
    h.release(&mut gc);
}

#[test]
fn test_ptr_eq() {
    let mut gc: GC<GCNode> = GC::new();
    let a = GCArc::new(&mut gc, GCNode::new(1));
    let b = GCArc::new(&mut gc, GCNode::new(1));
    let a2 = a.clone_in(&mut gc);

    assert!(GCArc::ptr_eq(&a, &a2));
    assert!(!GCArc::ptr_eq(&a, &b));

    a2.release(&mut gc);
    a.release(&mut gc);
    b.release(&mut gc);
}

#[test]
fn test_replace_payload_returns_old() {
    let mut gc: GC<GCNode> = GC::new();
    let h = GCArc::new(&mut gc, GCNode::new(30));
    let old = gc.replace_payload(&h, GCNode::new(31));
    assert_eq!(old.value, 30);
    assert_eq!(h.as_ref(&gc).value, 31);
    h.release(&mut gc);
}

#[test]
fn test_detach_of_unattached_handle() {
    let mut gc: GC<GCNode> = GC::new();
    let h = GCArc::new(&mut gc, GCNode::new(1));
    assert!(!gc.detach(&h));
    h.release(&mut gc);
}
