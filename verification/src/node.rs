use vstd::prelude::*;
use std::collections::VecDeque;
use crate::arc::GCArcWeak;
use crate::traceable::GCTraceable;

verus! {

/// A ready-made traceable payload: a value together with its outgoing
/// weak edges, enough to build arbitrary object graphs on a collector.
pub struct GCNode {
    pub value: i64,
    pub children: Vec<GCArcWeak>,
}

impl GCNode {
    pub fn new(value: i64) -> (r: GCNode)
        ensures
            r.value == value,
            r.children@ == Seq::<GCArcWeak>::empty(),
    {
        GCNode { value, children: Vec::new() }
    }

    /// Add one outgoing weak edge.
    pub fn add_child(&mut self, child: GCArcWeak)
        ensures
            final(self).children@ == old(self).children@.push(child),
            final(self).value == old(self).value,
    {
        self.children.push(child);
    }
}

impl GCTraceable for GCNode {
    open spec fn edges(&self) -> Seq<GCArcWeak> {
        self.children@
    }

    fn collect(&self, queue: &mut VecDeque<GCArcWeak>) {
        let ghost q0 = queue@;
        let mut i: usize = 0;
        while i < self.children.len()
            invariant
                i <= self.children.len(),
                queue@ == q0 + self.children@.take(i as int),
            decreases self.children.len() - i,
        {
            proof {
                assert(self.children@.take(i as int + 1) =~= self.children@.take(i as int).push(
                    self.children@[i as int],
                ));
            }
            queue.push_back(self.children[i]);
            i += 1;
        }
        proof {
            assert(self.children@.take(self.children@.len() as int) =~= self.children@);
        }
    }
}

} // verus!
