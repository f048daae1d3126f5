use arc_gc::arc::{GCArc, GCArcWeak, GCRef};
use arc_gc::gc::GC;
use arc_gc::node::GCNode;

fn add_edge(gc: &mut GC<GCNode>, from: &GCArc, to: GCArcWeak) {
    let mut node = gc.replace_payload(from, GCNode::new(0));
    node.add_child(to);
    gc.replace_payload(from, node);
}

/// Cells A, B and C, with weak edges from A to B and to C.  After the
/// external handles on B and C are given back, both stay reachable from
/// the root A, so a collection keeps all three registered.
#[test]
fn test_simple_acyclic_graph() {
    let mut gc: GC<GCNode> = GC::new();

    let a = GCArc::new(&mut gc, GCNode::new(1));
    let b = GCArc::new(&mut gc, GCNode::new(2));
    let c = GCArc::new(&mut gc, GCNode::new(3));

    let wb = b.as_weak(&mut gc);
    let wc = c.as_weak(&mut gc);
    add_edge(&mut gc, &a, wb);
    add_edge(&mut gc, &a, wc);

    gc.attach(&a);
    gc.attach(&b);
    gc.attach(&c);

    b.release(&mut gc);
    c.release(&mut gc);

    gc.collect();

    // A is a root; B and C hang from it by weak edges.
    assert_eq!(gc.object_count(), 3);
    assert!(wb.is_valid(&gc));
    assert!(wc.is_valid(&gc));
    assert_eq!(a.as_ref(&gc).value, 1);

    a.release(&mut gc);
    gc.collect();
    assert_eq!(gc.object_count(), 0);
}

/// Cells A (with a weak edge to B) and D, all externally released:
/// nothing is a root any longer, so the heap set empties and all three
/// payloads are dropped.
#[test]
fn test_unreachable_standalone() {
    let mut gc: GC<GCNode> = GC::new();

    let a = GCArc::new(&mut gc, GCNode::new(1));
    let b = GCArc::new(&mut gc, GCNode::new(2));
    let d = GCArc::new(&mut gc, GCNode::new(4));

    let wa = a.as_weak(&mut gc);
    let wb = b.as_weak(&mut gc);
    let wd = d.as_weak(&mut gc);
    add_edge(&mut gc, &a, wb);

    gc.attach(&a);
    gc.attach(&b);
    gc.attach(&d);

    a.release(&mut gc);
    b.release(&mut gc);
    d.release(&mut gc);

    gc.collect();

    assert_eq!(gc.object_count(), 0);
    assert!(!wa.is_valid(&gc));
    assert!(!wb.is_valid(&gc));
    assert!(!wd.is_valid(&gc));
}

/// A two-cell cycle with no external owner is reclaimed whole.
#[test]
fn test_cycle_collected() {
    let mut gc: GC<GCNode> = GC::new();

    let x = GCArc::new(&mut gc, GCNode::new(1));
    let y = GCArc::new(&mut gc, GCNode::new(2));

    let wx = x.as_weak(&mut gc);
    let wy = y.as_weak(&mut gc);
    add_edge(&mut gc, &x, wy);
    add_edge(&mut gc, &y, wx);

    gc.attach(&x);
    gc.attach(&y);

    x.release(&mut gc);
    y.release(&mut gc);

    gc.collect();

    assert_eq!(gc.object_count(), 0);
    assert!(!wx.is_valid(&gc));
    assert!(!wy.is_valid(&gc));
}

/// A registered cell with a surviving external handle is a root: a
/// collection keeps it, and its payload is untouched.
#[test]
fn test_root_preserved_by_external_handle() {
    let mut gc: GC<GCNode> = GC::new();

    let r = gc.create(GCNode::new(7));
    assert_eq!(gc.object_count(), 1);

    gc.collect();

    assert_eq!(gc.object_count(), 1);
    assert_eq!(r.as_ref(&gc).value, 7);
    r.release(&mut gc);
}

/// Once the last strong handle on a cell is gone, its payload is
/// dropped; an upgrade then answers absent, releasing the last weak
/// handle does not abort, and the header goes away with it.
#[test]
fn test_weak_upgrade_after_drop() {
    let mut gc: GC<GCNode> = GC::new();

    let q = GCArc::new(&mut gc, GCNode::new(5));
    let w = q.as_weak(&mut gc);

    // Payload is live: the upgrade succeeds and is counted.
    let strong_again = w.upgrade(&mut gc).unwrap();
    assert_eq!(strong_again.strong_ref(&gc), 2);
    strong_again.release(&mut gc);

    q.release(&mut gc);

    // The payload is gone; the header remains for the weak handle.
    assert!(!w.is_valid(&gc));
    assert!(w.upgrade(&mut gc).is_none());
    assert_eq!(w.weak_ref(&gc), 1);

    // Releasing the last weak handle frees the header.
    let observer = w;
    w.release(&mut gc);
    assert_eq!(observer.weak_ref(&gc), 0);
    assert_eq!(observer.strong_ref(&gc), 0);
    assert!(observer.upgrade(&mut gc).is_none());
}

/// Upgrade answers absent at most from the moment the payload dies:
/// after an absent answer it never answers present again.
#[test]
fn test_upgrade_monotonic() {
    let mut gc: GC<GCNode> = GC::new();

    let h = GCArc::new(&mut gc, GCNode::new(3));
    let w = h.as_weak(&mut gc);
    h.release(&mut gc);

    assert!(w.upgrade(&mut gc).is_none());

    // Further allocation never revives the dead cell.
    let other = GCArc::new(&mut gc, GCNode::new(4));
    assert!(w.upgrade(&mut gc).is_none());
    other.release(&mut gc);
    assert!(w.upgrade(&mut gc).is_none());
    w.release(&mut gc);
}

/// A cell whose payload holds a weak edge to its own cell is traversed
/// exactly once per cycle: the collection terminates and keeps it while
/// it is a root.
#[test]
fn test_self_reference() {
    let mut gc: GC<GCNode> = GC::new();

    let s = gc.create(GCNode::new(9));
    let ws = s.as_weak(&mut gc);
    add_edge(&mut gc, &s, ws);

    gc.collect();
    assert_eq!(gc.object_count(), 1);
    assert!(ws.is_valid(&gc));

    s.release(&mut gc);
    gc.collect();
    assert_eq!(gc.object_count(), 0);
    assert!(!ws.is_valid(&gc));
}

/// A collection over an empty heap set is a no-op and triggers no
/// division-by-zero in the threshold arithmetic.
#[test]
fn test_empty_collector() {
    let mut gc: GC<GCNode> = GC::new();
    gc.collect();
    assert_eq!(gc.object_count(), 0);
    assert_eq!(gc.allocated_memory(), 0);
}

/// `attach` followed by `detach` of the same handle restores the
/// registration count and the allocated-bytes estimate.
#[test]
fn test_attach_detach_round_trip() {
    // A large percentage keeps the automatic trigger quiet.
    let mut gc: GC<GCNode> = GC::new_with_percentage(1000);

    let h = GCArc::new(&mut gc, GCNode::new(11));
    let allocated_before = gc.allocated_memory();
    assert_eq!(h.strong_ref(&gc), 1);

    gc.attach(&h);
    assert_eq!(h.strong_ref(&gc), 2);
    assert_eq!(gc.object_count(), 1);
    assert!(gc.allocated_memory() > allocated_before);

    assert!(gc.detach(&h));
    assert_eq!(h.strong_ref(&gc), 1);
    assert_eq!(gc.object_count(), 0);
    assert_eq!(gc.allocated_memory(), allocated_before);

    // A second detach finds nothing.
    assert!(!gc.detach(&h));
    h.release(&mut gc);
}

/// The memory trigger: with a byte threshold configured, an `attach`
/// past the threshold runs a collection on its own, without an explicit
/// `collect` call.
#[test]
fn test_memory_threshold_trigger() {
    let mut gc: GC<GCNode> = GC::new_with_memory_threshold(1024);

    let mut handles: Vec<GCArc> = Vec::new();
    while gc.allocated_memory() < 1024 {
        handles.push(gc.create(GCNode::new(0)));
    }

    // Make one registered cell garbage, then attach once more: the
    // memory trigger must sweep the garbage during the attach.
    let victim = handles.pop().unwrap();
    let w = victim.as_weak(&mut gc);
    victim.release(&mut gc);
    assert!(w.is_valid(&gc));

    let count_before = gc.object_count();
    let extra = gc.create(GCNode::new(1));

    assert!(!w.is_valid(&gc), "the memory trigger must have collected");
    assert_eq!(gc.object_count(), count_before);

    extra.release(&mut gc);
    while let Some(h) = handles.pop() {
        h.release(&mut gc);
    }
    gc.detach_all();
    assert_eq!(gc.object_count(), 0);
    assert_eq!(gc.allocated_memory(), 0);
}

/// `get_all` hands out one counted strong handle per registration.
#[test]
fn test_get_all() {
    let mut gc: GC<GCNode> = GC::new_with_percentage(1000);
    let a = gc.create(GCNode::new(1));
    let b = gc.create(GCNode::new(2));

    let all = gc.get_all();
    assert_eq!(all.len(), 2);
    assert_eq!(a.strong_ref(&gc), 3);
    assert_eq!(b.strong_ref(&gc), 3);
    assert!(GCArc::ptr_eq(&all[0], &a));
    assert!(GCArc::ptr_eq(&all[1], &b));

    for h in all {
        h.release(&mut gc);
    }
    assert_eq!(a.strong_ref(&gc), 2);
    a.release(&mut gc);
    b.release(&mut gc);
}

/// Discarding a collector drains its heap set: registrations give their
/// strong references back and solely registered cells die.
#[test]
fn test_detach_all() {
    let mut gc: GC<GCNode> = GC::new_with_percentage(1000);
    let kept = gc.create(GCNode::new(1));
    let doomed = gc.create(GCNode::new(2));
    let wd = doomed.as_weak(&mut gc);
    doomed.release(&mut gc);

    gc.detach_all();

    assert_eq!(gc.object_count(), 0);
    assert_eq!(gc.allocated_memory(), 0);
    assert_eq!(kept.strong_ref(&gc), 1);
    assert!(!wd.is_valid(&gc));
    kept.release(&mut gc);
}
