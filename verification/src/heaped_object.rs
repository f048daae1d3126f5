use vstd::prelude::*;

verus! {

/// Reference counts stay strictly below this bound, so an increment can
/// never wrap.  Fabricating this many handles is treated as a programmer
/// error and is ruled out by the preconditions of every increment.
pub const RC_LIMIT: usize = usize::MAX / 2;

/// The heap cell header: both reference counts, the mark bit, and the
/// payload slot, co-located in one place.
///
/// The payload can be dropped (the slot emptied) while the header itself
/// remains meaningful, so weak handles survive the value they point to.
pub struct GCHeapedObject<T> {
    value: Option<T>,
    strong_rc: usize,
    weak_rc: usize,
    marked: bool,
}

/// The mathematical state of a cell header.
pub struct GCCellView<T> {
    pub value: Option<T>,
    pub strong_rc: nat,
    pub weak_rc: nat,
    pub marked: bool,
}

impl<T> View for GCHeapedObject<T> {
    type V = GCCellView<T>;

    closed spec fn view(&self) -> GCCellView<T> {
        GCCellView {
            value: self.value,
            strong_rc: self.strong_rc as nat,
            weak_rc: self.weak_rc as nat,
            marked: self.marked,
        }
    }
}

impl<T> GCHeapedObject<T> {
    /// A fresh cell: one strong reference, no weak references, unmarked,
    /// payload present.
    pub fn new(value: T) -> (r: Self)
        ensures
            r@ == (GCCellView { value: Some(value), strong_rc: 1nat, weak_rc: 0nat, marked: false }),
    {
        Self { value: Some(value), strong_rc: 1, weak_rc: 0, marked: false }
    }

    pub fn strong_ref(&self) -> (r: usize)
        ensures
            r == self@.strong_rc,
    {
        self.strong_rc
    }

    pub fn weak_ref(&self) -> (r: usize)
        ensures
            r == self@.weak_rc,
    {
        self.weak_rc
    }

    pub fn mark(&mut self)
        ensures
            final(self)@ == (GCCellView { marked: true, ..old(self)@ }),
    {
        self.marked = true;
    }

    pub fn unmark(&mut self)
        ensures
            final(self)@ == (GCCellView { marked: false, ..old(self)@ }),
    {
        self.marked = false;
    }

    pub fn is_marked(&self) -> (r: bool)
        ensures
            r == self@.marked,
    {
        self.marked
    }

    /// True exactly when the payload slot is empty.
    pub fn is_dropped(&self) -> (r: bool)
        ensures
            r == (self@.value is None),
    {
        self.value.is_none()
    }

    /// Empty the payload slot; the payload's destructor runs now.
    /// Idempotent: a second call leaves the empty slot empty.
    pub(crate) fn drop_value(&mut self)
        ensures
            final(self)@ == (GCCellView { value: None, ..old(self)@ }),
    {
        self.value = None;
    }

    /// Shared access to the payload.  Accessing a dropped payload is a
    /// programmer error, excluded here rather than detected at run time.
    pub fn as_ref(&self) -> (r: &T)
        requires
            self@.value is Some,
        ensures
            self@.value == Some(*r),
    {
        match &self.value {
            Some(v) => v,
            None => vstd::pervasive::unreached(),
        }
    }

    /// Exclusive access to the payload, under the same condition.
    pub fn as_mut(&mut self) -> (r: &mut T)
        requires
            old(self)@.value is Some,
        ensures
            old(self)@.value == Some(*r),
            final(self)@ == (GCCellView { value: Some(*final(r)), ..old(self)@ }),
    {
        match &mut self.value {
            Some(v) => v,
            None => vstd::pervasive::unreached(),
        }
    }

    pub(crate) fn inc_strong(&mut self)
        requires
            old(self)@.strong_rc < RC_LIMIT,
        ensures
            final(self)@ == (GCCellView { strong_rc: (old(self)@.strong_rc + 1) as nat, ..old(self)@ }),
    {
        self.strong_rc = self.strong_rc + 1;
    }

    pub(crate) fn dec_strong(&mut self)
        requires
            old(self)@.strong_rc >= 1,
        ensures
            final(self)@ == (GCCellView { strong_rc: (old(self)@.strong_rc - 1) as nat, ..old(self)@ }),
    {
        self.strong_rc = self.strong_rc - 1;
    }

    pub(crate) fn inc_weak(&mut self)
        requires
            old(self)@.weak_rc < RC_LIMIT,
        ensures
            final(self)@ == (GCCellView { weak_rc: (old(self)@.weak_rc + 1) as nat, ..old(self)@ }),
    {
        self.weak_rc = self.weak_rc + 1;
    }

    pub(crate) fn dec_weak(&mut self)
        requires
            old(self)@.weak_rc >= 1,
        ensures
            final(self)@ == (GCCellView { weak_rc: (old(self)@.weak_rc - 1) as nat, ..old(self)@ }),
    {
        self.weak_rc = self.weak_rc - 1;
    }
}

} // verus!
