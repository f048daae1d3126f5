use vstd::prelude::*;
use crate::gc::{alloc_view, lemma_wf_alloc, lemma_wf_update, GC, GCCellState};
use crate::heaped_object::{GCHeapedObject, RC_LIMIT};
use crate::traceable::GCTraceable;
use std::collections::VecDeque;

verus! {

/// What a cell's payload slot stores: the user value together with the
/// number of collector registrations currently holding this cell.
pub struct GCWrapper<T> {
    pub(crate) value: T,
    pub(crate) attached_gc_count: usize,
}

impl<T> GCWrapper<T> {
    pub open(crate) spec fn spec_value(&self) -> T {
        self.value
    }

    pub open(crate) spec fn spec_attached(&self) -> nat {
        self.attached_gc_count as nat
    }

    pub fn new(value: T) -> (r: Self)
        ensures
            r.spec_value() == value,
            r.spec_attached() == 0,
    {
        Self { value, attached_gc_count: 0 }
    }

    pub fn value(&self) -> (r: &T)
        ensures
            *r == self.spec_value(),
    {
        &self.value
    }

    pub fn value_mut(&mut self) -> (r: &mut T)
        ensures
            *r == old(self).spec_value(),
            final(self).spec_value() == *final(r),
            final(self).spec_attached() == old(self).spec_attached(),
    {
        &mut self.value
    }

    pub(crate) fn replace_value(&mut self, value: T) -> (r: T)
        ensures
            r == old(self).spec_value(),
            final(self).spec_value() == value,
            final(self).spec_attached() == old(self).spec_attached(),
    {
        let mut v = value;
        core::mem::swap(&mut self.value, &mut v);
        v
    }

    pub(crate) fn attached(&self) -> (r: usize)
        ensures
            r == self.spec_attached(),
    {
        self.attached_gc_count
    }

    pub(crate) fn inc_attached(&mut self)
        requires
            old(self).spec_attached() < RC_LIMIT,
        ensures
            final(self).spec_attached() == old(self).spec_attached() + 1,
            final(self).spec_value() == old(self).spec_value(),
    {
        self.attached_gc_count = self.attached_gc_count + 1;
    }

    pub(crate) fn dec_attached(&mut self)
        requires
            old(self).spec_attached() >= 1,
        ensures
            final(self).spec_attached() == old(self).spec_attached() - 1,
            final(self).spec_value() == old(self).spec_value(),
    {
        self.attached_gc_count = self.attached_gc_count - 1;
    }
}

/// An owning handle on a cell of a collector's heap.  Each live `GCArc`
/// accounts for one unit of the cell's strong count; releasing it gives
/// that unit back.  It deliberately has no `Clone`: duplicating an owning
/// handle without adjusting the count would falsify the accounting.
pub struct GCArc {
    pub(crate) id: usize,
}

/// A non-owning reference to a cell: an index that can be copied freely
/// and later upgraded to a strong handle while the payload is still live.
/// The weak count of a cell tracks the handles registered through
/// `as_weak`, not every copy of the index.
#[derive(Clone, Copy)]
pub struct GCArcWeak {
    pub(crate) id: usize,
}

impl GCArc {
    pub open(crate) spec fn spec_id(&self) -> int {
        self.id as int
    }

    /// True when both handles designate the same cell of a collector's
    /// heap; this is how the collector detects re-attachment.
    pub fn ptr_eq(a: &GCArc, b: &GCArc) -> (r: bool)
        ensures
            r == (a.spec_id() == b.spec_id()),
    {
        a.id == b.id
    }

    /// Allocate a fresh cell holding `obj` on `gc`'s heap and return its
    /// first strong handle.
    pub fn new<T: GCTraceable>(gc: &mut GC<T>, obj: T) -> (h: GCArc)
        requires
            old(gc).wf(),
        ensures
            final(gc).wf(),
            final(gc)@ == alloc_view(old(gc)@, obj),
            h.spec_id() == old(gc)@.cells.len(),
    {
        let id = gc.cells.len();
        gc.cells.push(Some(GCHeapedObject::new(GCWrapper::new(obj))));
        proof {
            assert(gc@ =~= alloc_view(old(gc)@, obj));
            lemma_wf_alloc(old(gc)@, obj);
        }
        GCArc { id }
    }

    /// A further strong handle on the same cell; the strong count rises
    /// by one.
    pub fn clone_in<T: GCTraceable>(&self, gc: &mut GC<T>) -> (h: GCArc)
        requires
            old(gc).wf(),
            old(gc)@.live(self.spec_id()),
            old(gc)@.strong_of(self.spec_id()) < RC_LIMIT,
        ensures
            final(gc).wf(),
            final(gc)@ == old(gc)@.with_cell(
                self.spec_id(),
                old(gc)@.strong_added(self.spec_id()),
            ),
            h.spec_id() == self.spec_id(),
    {
        match &mut gc.cells[self.id] {
            Some(c) => {
                c.inc_strong();
            },
            None => {},
        }
        proof {
            assert(old(gc)@.cell_ok(self.spec_id()));
            assert(gc@ =~= old(gc)@.with_cell(self.spec_id(), old(gc)@.strong_added(self.spec_id())));
            lemma_wf_update(old(gc)@, self.spec_id(), old(gc)@.strong_added(self.spec_id()));
        }
        GCArc { id: self.id }
    }

    /// A weak handle on the same cell; the weak count rises by one.
    pub fn as_weak<T: GCTraceable>(&self, gc: &mut GC<T>) -> (w: GCArcWeak)
        requires
            old(gc).wf(),
            old(gc)@.live(self.spec_id()),
            old(gc)@.weak_of(self.spec_id()) < RC_LIMIT,
        ensures
            final(gc).wf(),
            final(gc)@ == old(gc)@.with_cell(
                self.spec_id(),
                old(gc)@.weak_added(self.spec_id()),
            ),
            w.spec_id() == self.spec_id(),
    {
        match &mut gc.cells[self.id] {
            Some(c) => {
                c.inc_weak();
            },
            None => {},
        }
        proof {
            assert(old(gc)@.cell_ok(self.spec_id()));
            assert(gc@ =~= old(gc)@.with_cell(self.spec_id(), old(gc)@.weak_added(self.spec_id())));
            lemma_wf_update(old(gc)@, self.spec_id(), old(gc)@.weak_added(self.spec_id()));
        }
        GCArcWeak { id: self.id }
    }

    /// Give this strong handle back.  If it carried the last strong
    /// reference, the payload is dropped now; if no weak reference
    /// remains either, the cell's header goes away with it.
    ///
    /// A caller's own handle always stands apart from the heap set's
    /// registrations, which is what the precondition records.
    pub fn release<T: GCTraceable>(self, gc: &mut GC<T>)
        requires
            old(gc).wf(),
            old(gc)@.live(self.spec_id()),
            old(gc)@.strong_of(self.spec_id()) > old(gc)@.attached_of(self.spec_id()),
        ensures
            final(gc).wf(),
            final(gc)@ == old(gc)@.with_cell(
                self.spec_id(),
                old(gc)@.strong_released(self.spec_id()),
            ),
    {
        let mut free_header = false;
        match &mut gc.cells[self.id] {
            Some(c) => {
                c.dec_strong();
                if c.strong_ref() == 0 {
                    c.drop_value();
                    if c.weak_ref() == 0 {
                        free_header = true;
                    }
                }
            },
            None => {},
        }
        if free_header {
            gc.cells.set(self.id, None);
        }
        proof {
            assert(old(gc)@.cell_ok(self.spec_id()));
            assert(gc@ =~= old(gc)@.with_cell(self.spec_id(), old(gc)@.strong_released(self.spec_id())));
            lemma_wf_update(old(gc)@, self.spec_id(), old(gc)@.strong_released(self.spec_id()));
        }
    }

    /// Shared access to the payload.  It always succeeds while a strong
    /// handle exists.
    pub fn as_ref<'a, T: GCTraceable>(&self, gc: &'a GC<T>) -> (r: &'a T)
        requires
            gc.wf(),
            gc@.live(self.spec_id()),
        ensures
            gc@.cell(self.spec_id()).payload == Some(*r),
    {
        match &gc.cells[self.id] {
            Some(c) => {
                proof {
                    assert(gc@.cell_ok(self.spec_id()));
                }
                c.as_ref().value()
            },
            None => vstd::pervasive::unreached(),
        }
    }

    /// Exclusive access to the payload, available exactly when this is
    /// the only strong handle and no weak handle exists: a live weak
    /// handle could otherwise be upgraded behind the borrow's back.
    /// Replacing the payload preserves the collector's well-formedness;
    /// `lemma_wf_payload_replaced` states so.
    pub fn try_as_mut<'a, T: GCTraceable>(&self, gc: &'a mut GC<T>) -> (r: Option<&'a mut T>)
        requires
            old(gc).wf(),
            old(gc)@.live(self.spec_id()),
        ensures
            match r {
                Some(v) => {
                    &&& old(gc)@.strong_of(self.spec_id()) == 1
                    &&& old(gc)@.weak_of(self.spec_id()) == 0
                    &&& old(gc)@.cell(self.spec_id()).payload == Some(*v)
                    &&& final(gc)@ == old(gc)@.with_cell(
                        self.spec_id(),
                        Some(
                            GCCellState {
                                payload: Some(*final(v)),
                                ..old(gc)@.cell(self.spec_id())
                            },
                        ),
                    )
                },
                None => {
                    &&& !(old(gc)@.strong_of(self.spec_id()) == 1 && old(gc)@.weak_of(
                        self.spec_id(),
                    ) == 0)
                    &&& final(gc)@ == old(gc)@
                },
            },
    {
        proof {
            assert(old(gc)@.cell_ok(self.spec_id()));
        }
        match &mut gc.cells[self.id] {
            Some(c) => {
                if c.strong_ref() == 1 && c.weak_ref() == 0 {
                    Some(c.as_mut().value_mut())
                } else {
                    None
                }
            },
            None => None,
        }
    }

    /// Exclusive access to the payload, under the same uniqueness
    /// condition as `try_as_mut`; asking for it without uniqueness is a
    /// programmer error, excluded here rather than detected at run time.
    pub fn get_mut<'a, T: GCTraceable>(&self, gc: &'a mut GC<T>) -> (r: &'a mut T)
        requires
            old(gc).wf(),
            old(gc)@.live(self.spec_id()),
            old(gc)@.strong_of(self.spec_id()) == 1,
            old(gc)@.weak_of(self.spec_id()) == 0,
        ensures
            old(gc)@.cell(self.spec_id()).payload == Some(*r),
            final(gc)@ == old(gc)@.with_cell(
                self.spec_id(),
                Some(GCCellState { payload: Some(*final(r)), ..old(gc)@.cell(self.spec_id()) }),
            ),
    {
        proof {
            assert(old(gc)@.cell_ok(self.spec_id()));
        }
        match &mut gc.cells[self.id] {
            Some(c) => c.as_mut().value_mut(),
            None => vstd::pervasive::unreached(),
        }
    }

    /// Hand the payload's outgoing weak edges to `queue`.
    pub(crate) fn collect<T: GCTraceable>(
        &self,
        gc: &GC<T>,
        queue: &mut VecDeque<GCArcWeak>,
    )
        requires
            gc.wf(),
            gc@.live(self.spec_id()),
        ensures
            final(queue)@ == old(queue)@ + gc@.cell(self.spec_id()).payload->0.edges(),
    {
        self.as_ref(gc).collect(queue);
    }
}

impl GCArcWeak {
    pub open(crate) spec fn spec_id(&self) -> int {
        self.id as int
    }

    /// Race-free promotion to a strong handle: it succeeds exactly while
    /// the payload is live, and refuses when the strong count stands at
    /// its overflow guard, rather than risk a wrapped count.
    pub fn upgrade<T: GCTraceable>(&self, gc: &mut GC<T>) -> (r: Option<GCArc>)
        requires
            old(gc).wf(),
        ensures
            final(gc).wf(),
            match r {
                Some(h) => {
                    &&& old(gc)@.live(self.spec_id())
                    &&& old(gc)@.strong_of(self.spec_id()) < RC_LIMIT
                    &&& h.spec_id() == self.spec_id()
                    &&& final(gc)@ == old(gc)@.with_cell(
                        self.spec_id(),
                        old(gc)@.strong_added(self.spec_id()),
                    )
                },
                None => {
                    &&& !(old(gc)@.live(self.spec_id()) && old(gc)@.strong_of(self.spec_id())
                        < RC_LIMIT)
                    &&& final(gc)@ == old(gc)@
                },
            },
    {
        if self.id >= gc.cells.len() {
            return None;
        }
        let mut upgraded = false;
        match &mut gc.cells[self.id] {
            Some(c) => {
                if c.strong_ref() > 0 && c.strong_ref() < RC_LIMIT {
                    c.inc_strong();
                    upgraded = true;
                }
            },
            None => {},
        }
        if upgraded {
            proof {
                assert(old(gc)@.cell_ok(self.spec_id()));
                assert(gc@ =~= old(gc)@.with_cell(
                    self.spec_id(),
                    old(gc)@.strong_added(self.spec_id()),
                ));
                lemma_wf_update(old(gc)@, self.spec_id(), old(gc)@.strong_added(self.spec_id()));
            }
            Some(GCArc { id: self.id })
        } else {
            proof {
                assert(gc@ =~= old(gc)@);
            }
            None
        }
    }

    /// An advisory snapshot: the payload is live at this moment.
    pub fn is_valid<T: GCTraceable>(&self, gc: &GC<T>) -> (r: bool)
        requires
            gc.wf(),
        ensures
            r == (gc@.strong_of(self.spec_id()) > 0),
    {
        if self.id >= gc.cells.len() {
            return false;
        }
        match &gc.cells[self.id] {
            Some(c) => c.strong_ref() > 0,
            None => false,
        }
    }

    /// Give this weak handle back; when neither count holds the cell any
    /// longer, its header goes away.
    pub fn release<T: GCTraceable>(self, gc: &mut GC<T>)
        requires
            old(gc).wf(),
            old(gc)@.present(self.spec_id()),
            old(gc)@.weak_of(self.spec_id()) >= 1,
        ensures
            final(gc).wf(),
            final(gc)@ == old(gc)@.with_cell(
                self.spec_id(),
                old(gc)@.weak_released(self.spec_id()),
            ),
    {
        let mut free_header = false;
        match &mut gc.cells[self.id] {
            Some(c) => {
                c.dec_weak();
                if c.weak_ref() == 0 && c.strong_ref() == 0 {
                    free_header = true;
                }
            },
            None => {},
        }
        if free_header {
            gc.cells.set(self.id, None);
        }
        proof {
            assert(old(gc)@.cell_ok(self.spec_id()));
            assert(gc@ =~= old(gc)@.with_cell(self.spec_id(), old(gc)@.weak_released(self.spec_id())));
            lemma_wf_update(old(gc)@, self.spec_id(), old(gc)@.weak_released(self.spec_id()));
        }
    }
}

/// Observation of a cell's two reference counts through a handle.
/// These are coarse snapshots, meant for heuristics and tests.
pub trait GCRef {
    /// The cell this handle designates.
    spec fn ref_id(&self) -> int;

    fn strong_ref<T: GCTraceable>(&self, gc: &GC<T>) -> (r: usize)
        ensures
            r == gc@.strong_of(self.ref_id()),
    ;

    fn weak_ref<T: GCTraceable>(&self, gc: &GC<T>) -> (r: usize)
        ensures
            r == gc@.weak_of(self.ref_id()),
    ;
}

impl GCRef for GCArc {
    open spec fn ref_id(&self) -> int {
        self.spec_id()
    }

    fn strong_ref<T: GCTraceable>(&self, gc: &GC<T>) -> (r: usize) {
        gc.strong_count_at(self.id)
    }

    fn weak_ref<T: GCTraceable>(&self, gc: &GC<T>) -> (r: usize) {
        gc.weak_count_at(self.id)
    }
}

impl GCRef for GCArcWeak {
    open spec fn ref_id(&self) -> int {
        self.spec_id()
    }

    fn strong_ref<T: GCTraceable>(&self, gc: &GC<T>) -> (r: usize) {
        gc.strong_count_at(self.id)
    }

    fn weak_ref<T: GCTraceable>(&self, gc: &GC<T>) -> (r: usize) {
        gc.weak_count_at(self.id)
    }
}

} // verus!
