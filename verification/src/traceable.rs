use vstd::prelude::*;
use std::collections::VecDeque;
use crate::arc::GCArcWeak;

verus! {

/// The capability every managed payload supplies: enumerate the weak
/// handles for every cell this payload directly references.
///
/// Edges between managed objects must be weak: the collector observes the
/// graph through them without perturbing strong counts, which would
/// otherwise make every object look externally owned.
pub trait GCTraceable {
    /// The outgoing weak edges of this payload, as the collector sees them.
    spec fn edges(&self) -> Seq<GCArcWeak>;

    /// Push one weak handle per outgoing edge onto the caller's queue.
    fn collect(&self, queue: &mut VecDeque<GCArcWeak>)
        ensures
            final(queue)@ == old(queue)@ + self.edges(),
    ;
}

} // verus!
