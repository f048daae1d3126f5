use arc_gc::arc::{GCArc, GCArcWeak, GCRef};
use arc_gc::gc::GC;
use arc_gc::node::GCNode;

/// Append one weak edge to the payload of `from`, leaving the rest of the
/// payload as it was.
fn add_edge(gc: &mut GC<GCNode>, from: &GCArc, to: GCArcWeak) {
    let mut node = gc.replace_payload(from, GCNode::new(0));
    node.add_child(to);
    gc.replace_payload(from, node);
}

#[test]
fn test_gc() {
    let mut gc: GC<GCNode> = GC::new_with_percentage(20);
    {
        let obj1 = gc.create(GCNode::new(0));
        let weak_ref = obj1.as_weak(&mut gc);
        // The payload points back at its own cell.
        add_edge(&mut gc, &obj1, weak_ref);
        println!("GC object count before collection: {}", gc.object_count());
        obj1.release(&mut gc);
    }
    gc.collect();
    println!("GC completed, all objects should be dropped now.");
}

#[test]
fn test_memory_threshold_gc() {
    // A small memory threshold (1 KiB) so the memory trigger fires.
    let mut gc: GC<GCNode> = GC::new_with_memory_threshold(1024);

    println!("Initial allocated memory: {} bytes", gc.allocated_memory());

    let mut objects: Vec<GCArc> = Vec::new();
    for i in 0..50 {
        let obj = gc.create(GCNode::new(i));
        objects.push(obj);

        println!(
            "After creating object {}: allocated={} bytes, object_count={}",
            i + 1,
            gc.allocated_memory(),
            gc.object_count()
        );

        if gc.allocated_memory() > 1024 {
            break;
        }
    }

    println!(
        "Before collection: allocated={} bytes, object_count={}",
        gc.allocated_memory(),
        gc.object_count()
    );

    // Give the external handles back, so the objects become garbage.
    while let Some(h) = objects.pop() {
        h.release(&mut gc);
    }

    gc.collect();

    println!(
        "After collection: allocated={} bytes, object_count={}",
        gc.allocated_memory(),
        gc.object_count()
    );
}

#[test]
fn test_combined_thresholds_gc() {
    // Both triggers at once: 50% growth or 2 KiB.
    let mut gc: GC<GCNode> = GC::new_with_thresholds(50, 2048);

    println!("Testing combined thresholds: 50% or 2KB");

    let obj1 = gc.create(GCNode::new(0));

    println!("Memory threshold: {:?}", gc.memory_threshold());
    println!("Allocated memory: {} bytes", gc.allocated_memory());
    println!("Object count: {}", gc.object_count());

    // Keep the handle so the object is not reclaimed.
    let _keep_ref = obj1;
}

#[test]
fn test_advanced_gc_with_cycles() {
    let mut gc: GC<GCNode> = GC::new();

    let node1 = GCArc::new(&mut gc, GCNode::new(1));
    let node2 = GCArc::new(&mut gc, GCNode::new(2));
    let node3 = GCArc::new(&mut gc, GCNode::new(3));
    let node4 = GCArc::new(&mut gc, GCNode::new(4));

    // Weak handles both build the graph and observe liveness later.
    let w1 = node1.as_weak(&mut gc);
    let w2 = node2.as_weak(&mut gc);
    let w3 = node3.as_weak(&mut gc);
    let w4 = node4.as_weak(&mut gc);

    // A cycle 1 -> 2 -> 3 -> 1, and 4 -> 1 from outside the cycle.
    add_edge(&mut gc, &node1, w2);
    add_edge(&mut gc, &node2, w3);
    add_edge(&mut gc, &node3, w1);
    add_edge(&mut gc, &node4, w1);

    // Registration keeps the nodes out of eager reclamation.
    gc.attach(&node1);
    gc.attach(&node2);
    gc.attach(&node3);
    gc.attach(&node4);

    // Give back the external handles on nodes 1 to 3.
    node1.release(&mut gc);
    node2.release(&mut gc);
    node3.release(&mut gc);

    // Node 4 still has an external handle, so everything it reaches stays.
    gc.collect();
    assert_eq!(w1.is_valid(&gc), true, "node 1 must not be collected");
    assert_eq!(w2.is_valid(&gc), true, "node 2 must not be collected");
    assert_eq!(w3.is_valid(&gc), true, "node 3 must not be collected");
    assert_eq!(w4.is_valid(&gc), true, "node 4 must not be collected");
    assert_eq!(
        node4.strong_ref(&gc),
        2,
        "node 4 must be held twice: one local handle, one heap-set registration"
    );

    // Give node 4 back too; now the whole graph is garbage.
    node4.release(&mut gc);
    gc.collect();
    assert_eq!(w1.is_valid(&gc), false, "node 1 must be collected");
    assert_eq!(w2.is_valid(&gc), false, "node 2 must be collected");
    assert_eq!(w3.is_valid(&gc), false, "node 3 must be collected");
    assert_eq!(w4.is_valid(&gc), false, "node 4 must be collected");
}

#[test]
fn test_gc_memory_leak_detection() {
    let mut gc: GC<GCNode> = GC::new();

    let leaked_weak;
    {
        let leaked_node = GCArc::new(&mut gc, GCNode::new(999));
        leaked_weak = leaked_node.as_weak(&mut gc);

        gc.attach(&leaked_node);

        // The only external strong handle goes away here.
        leaked_node.release(&mut gc);
    }

    gc.collect();

    assert_eq!(
        leaked_weak.is_valid(&gc),
        false,
        "the leaked node must be collected"
    );
}

#[test]
fn test_gc_simple_collection() {
    let mut gc: GC<GCNode> = GC::new();

    let root = GCArc::new(&mut gc, GCNode::new(1));
    let node2 = GCArc::new(&mut gc, GCNode::new(2));
    let node3 = GCArc::new(&mut gc, GCNode::new(3));

    // The root's payload references both children.
    let w2 = node2.as_weak(&mut gc);
    let w3 = node3.as_weak(&mut gc);
    add_edge(&mut gc, &root, w2);
    add_edge(&mut gc, &root, w3);

    gc.attach(&root);

    assert_eq!(root.as_ref(&gc).value, 1);
    assert_eq!(node2.as_ref(&gc).value, 2);
    assert_eq!(node3.as_ref(&gc).value, 3);

    // The root still has an external handle, so nothing is reclaimed.
    gc.collect();

    assert_eq!(root.as_ref(&gc).value, 1);
    assert_eq!(node2.as_ref(&gc).value, 2);
    assert_eq!(node3.as_ref(&gc).value, 3);

    root.release(&mut gc);
    node2.release(&mut gc);
    node3.release(&mut gc);
}

#[test]
fn test_gc_unreachable_collection() {
    let mut gc: GC<GCNode> = GC::new();

    let root = GCArc::new(&mut gc, GCNode::new(1));
    let node2 = GCArc::new(&mut gc, GCNode::new(2));
    let node3 = GCArc::new(&mut gc, GCNode::new(3));
    let unreachable_node = GCArc::new(&mut gc, GCNode::new(4));

    let w2 = node2.as_weak(&mut gc);
    let w3 = node3.as_weak(&mut gc);
    add_edge(&mut gc, &root, w2);
    add_edge(&mut gc, &root, w3);

    gc.attach(&root);
    gc.attach(&unreachable_node);

    gc.collect();

    assert_eq!(root.as_ref(&gc).value, 1);
    assert_eq!(node2.as_ref(&gc).value, 2);
    assert_eq!(node3.as_ref(&gc).value, 3);

    root.release(&mut gc);
    node2.release(&mut gc);
    node3.release(&mut gc);
    unreachable_node.release(&mut gc);
}

#[test]
fn test_gc_cyclic_references() {
    let mut gc: GC<GCNode> = GC::new();

    let root = GCArc::new(&mut gc, GCNode::new(1));
    let node2 = GCArc::new(&mut gc, GCNode::new(2));
    let node3 = GCArc::new(&mut gc, GCNode::new(3));

    // node2 and node3 reference each other.
    let w2 = node2.as_weak(&mut gc);
    let w3 = node3.as_weak(&mut gc);
    add_edge(&mut gc, &node2, w3);
    add_edge(&mut gc, &node3, w2);

    gc.attach(&root);
    gc.attach(&node2);

    assert_eq!(root.as_ref(&gc).value, 1);
    assert_eq!(node2.as_ref(&gc).value, 2);
    assert_eq!(node3.as_ref(&gc).value, 3);

    gc.collect();

    assert_eq!(node2.as_ref(&gc).value, 2);
    assert_eq!(node3.as_ref(&gc).value, 3);

    root.release(&mut gc);
    node2.release(&mut gc);
    node3.release(&mut gc);
}

#[test]
fn test_gc_list() {
    let mut gc: GC<GCNode> = GC::new();

    let int1 = GCArc::new(&mut gc, GCNode::new(1));
    let int2 = GCArc::new(&mut gc, GCNode::new(2));
    let int3 = GCArc::new(&mut gc, GCNode::new(3));

    let list = GCArc::new(&mut gc, GCNode::new(0));

    // The list holds weak references to the three integers.
    let w1 = int1.as_weak(&mut gc);
    let w2 = int2.as_weak(&mut gc);
    let w3 = int3.as_weak(&mut gc);
    add_edge(&mut gc, &list, w1);
    add_edge(&mut gc, &list, w2);
    add_edge(&mut gc, &list, w3);

    gc.attach(&int1);
    gc.attach(&int2);
    gc.attach(&int3);
    gc.attach(&list);

    // Everything is externally held; nothing may be reclaimed.
    gc.collect();
    assert_eq!(gc.object_count(), 4);

    // int1 stays: the list still reaches it through a weak edge.
    int1.release(&mut gc);
    gc.collect();
    assert_eq!(gc.object_count(), 4);

    // Without the list, int1 becomes unreachable as well.
    list.release(&mut gc);
    gc.collect();
    assert_eq!(gc.object_count(), 2);

    int2.release(&mut gc);
    int3.release(&mut gc);
    gc.collect();
    assert_eq!(gc.object_count(), 0);
}
