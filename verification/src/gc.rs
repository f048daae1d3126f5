use vstd::prelude::*;
use vstd::layout::size_of;
use std::collections::HashMap;
use std::collections::VecDeque;
use crate::arc::{GCArc, GCArcWeak, GCWrapper};
use crate::heaped_object::{GCHeapedObject, RC_LIMIT};
use crate::traceable::GCTraceable;

verus! {

broadcast use vstd::std_specs::hash::group_hash_axioms;

/// Declares rustc_hash's hasher-factory type, so that hash maps built
/// with it can stand in signatures here.
#[verifier::external_type_specification]
#[verifier::external_body]
pub struct ExFxBuildHasher(rustc_hash::FxBuildHasher);

/// A freshly built mark table: empty, and built by a hasher factory
/// whose hashers vstd's hash-map model accepts.
pub open spec fn fresh_mark_table(m: Map<usize, bool>) -> bool {
    m == Map::<usize, bool>::empty()
        && vstd::std_specs::hash::builds_valid_hashers::<rustc_hash::FxBuildHasher>()
}

/// Relies on `rustc_hash::FxHashMap::default`: it returns an empty map,
/// and `FxBuildHasher` builds identically seeded, deterministic
/// `FxHasher`s, so the map keeps ordinary hash-map semantics.
#[verifier::external_body]
fn new_mark_table() -> (m: HashMap<usize, bool, rustc_hash::FxBuildHasher>)
    ensures
        fresh_mark_table(m@),
{
    rustc_hash::FxHashMap::default()
}

/// Look a cell id up in the mark table; an id the table has never seen
/// counts as unmarked.
fn is_marked_exec(marked: &HashMap<usize, bool, rustc_hash::FxBuildHasher>, id: usize) -> (r:
    bool)
    requires
        vstd::std_specs::hash::builds_valid_hashers::<rustc_hash::FxBuildHasher>(),
    ensures
        r == is_marked_in(marked@, id as int),
{
    match marked.get(&id) {
        Some(b) => *b,
        None => false,
    }
}

/// Entries surviving a pop from the front still name what they named.
proof fn lemma_in_queue_after_pop(q: Seq<GCArcWeak>, x: int)
    requires
        q.len() >= 1,
        in_queue(q, x),
    ensures
        in_queue(q.subrange(1, q.len() as int), x) || q[0].spec_id() == x,
{
    let k = choose|k: int| 0 <= k < q.len() && q[k].spec_id() == x;
    if k >= 1 {
        assert(q.subrange(1, q.len() as int)[k - 1].spec_id() == x);
    }
}

/// Extending a queue on the right keeps everything it named.
proof fn lemma_in_queue_extend(q: Seq<GCArcWeak>, q2: Seq<GCArcWeak>, x: int)
    requires
        in_queue(q, x),
        q.len() <= q2.len(),
        forall|k: int| 0 <= k < q.len() ==> q2[k] == q[k],
    ensures
        in_queue(q2, x),
{
    let k = choose|k: int| 0 <= k < q.len() && q[k].spec_id() == x;
    assert(q2[k].spec_id() == x);
}

/// The mathematical state of one cell of a collector's heap, with the
/// payload wrapper flattened away.
#[verifier::ext_equal]
pub struct GCCellState<T> {
    /// The user value; present exactly while the strong count is positive.
    pub payload: Option<T>,
    pub strong_rc: nat,
    pub weak_rc: nat,
    pub marked: bool,
    /// How many heap-set registrations currently hold this cell.
    pub attached_gc_count: nat,
}

/// The mathematical state of a collector: the cells it owns (`None` for a
/// freed header), the registered heap set as a sequence of cell ids, and
/// the trigger bookkeeping.
#[verifier::ext_equal]
pub struct GCView<T> {
    pub cells: Seq<Option<GCCellState<T>>>,
    pub heap: Seq<int>,
    pub attach_count: nat,
    pub collection_percentage: nat,
    pub memory_threshold: Option<nat>,
    pub allocated_memory: nat,
}

/// How many times `x` occurs in `s`.
pub open spec fn occurrences(s: Seq<int>, x: int) -> nat
    decreases s.len(),
{
    if s.len() == 0 {
        0nat
    } else {
        occurrences(s.drop_last(), x) + (if s.last() == x { 1nat } else { 0nat })
    }
}

/// The per-registration size estimate: the payload plus one handle.
/// Saturated at `usize::MAX`, as the executable estimate is.
pub open spec fn spec_obj_size<T>() -> int {
    if size_of::<T>() + size_of::<GCArc>() <= usize::MAX {
        (size_of::<T>() + size_of::<GCArc>()) as int
    } else {
        usize::MAX as int
    }
}

impl<T> GCView<T> {
    /// `i` names a slot of this collector's heap.
    pub open spec fn in_range(&self, i: int) -> bool {
        0 <= i < self.cells.len()
    }

    /// The header of cell `i` still exists.
    pub open spec fn present(&self, i: int) -> bool {
        self.in_range(i) && self.cells[i] is Some
    }

    pub open spec fn cell(&self, i: int) -> GCCellState<T>
        recommends
            self.present(i),
    {
        self.cells[i]->0
    }

    /// The strong count of cell `i`; zero for a freed or foreign slot.
    pub open spec fn strong_of(&self, i: int) -> nat {
        if self.present(i) {
            self.cell(i).strong_rc
        } else {
            0nat
        }
    }

    /// The weak count of cell `i`; zero for a freed or foreign slot.
    pub open spec fn weak_of(&self, i: int) -> nat {
        if self.present(i) {
            self.cell(i).weak_rc
        } else {
            0nat
        }
    }

    pub open spec fn attached_of(&self, i: int) -> nat {
        if self.present(i) {
            self.cell(i).attached_gc_count
        } else {
            0nat
        }
    }

    /// The payload of cell `i` is still present.
    pub open spec fn live(&self, i: int) -> bool {
        self.present(i) && self.cell(i).strong_rc > 0
    }

    /// Every well-formedness condition of one cell.
    pub open spec fn cell_ok(&self, i: int) -> bool
        recommends
            self.present(i),
    {
        let c = self.cell(i);
        &&& c.strong_rc + c.weak_rc > 0
        &&& (c.payload is Some <==> c.strong_rc > 0)
        &&& c.strong_rc <= RC_LIMIT
        &&& c.weak_rc <= RC_LIMIT
        &&& c.attached_gc_count == occurrences(self.heap, i)
        &&& c.attached_gc_count <= c.strong_rc
    }

    /// The collector's invariant.
    pub open spec fn wf(&self) -> bool {
        &&& forall|i: int| self.present(i) ==> #[trigger] self.cell_ok(i)
        &&& forall|k: int|
            0 <= k < self.heap.len() ==> #[trigger] self.present(self.heap[k])
        &&& self.allocated_memory == self.heap.len() * spec_obj_size::<T>()
        &&& self.allocated_memory <= usize::MAX
    }

    /// The heuristic that decides whether `attach` runs a collection.
    pub open spec fn should_collect(&self) -> bool {
        if self.heap.len() == 0 {
            false
        } else if self.memory_threshold matches Some(t) && self.allocated_memory >= t {
            true
        } else {
            let threshold = self.heap.len() * self.collection_percentage / 100;
            self.attach_count >= (if threshold >= 1 { threshold as int } else { 1int })
        }
    }

    /// The same collector with cell `i` replaced.
    pub open spec fn with_cell(&self, i: int, c: Option<GCCellState<T>>) -> GCView<T> {
        GCView { cells: self.cells.update(i, c), ..*self }
    }

    /// Cell `i` after giving one strong reference unit back: the payload
    /// drops with the last strong reference, and the header goes away when
    /// no weak reference holds it either.
    pub open spec fn strong_released(&self, i: int) -> Option<GCCellState<T>>
        recommends
            self.live(i),
    {
        let c = self.cell(i);
        let s = (c.strong_rc - 1) as nat;
        if s == 0 && c.weak_rc == 0 {
            None
        } else {
            Some(
                GCCellState {
                    payload: if s == 0 { None } else { c.payload },
                    strong_rc: s,
                    attached_gc_count: if s == 0 { 0nat } else { c.attached_gc_count },
                    ..c
                },
            )
        }
    }

    /// Cell `i` after giving one weak reference unit back.
    pub open spec fn weak_released(&self, i: int) -> Option<GCCellState<T>>
        recommends
            self.present(i) && self.cell(i).weak_rc >= 1,
    {
        let c = self.cell(i);
        let w = (c.weak_rc - 1) as nat;
        if c.strong_rc == 0 && w == 0 {
            None
        } else {
            Some(GCCellState { weak_rc: w, ..c })
        }
    }

    /// Cell `i` with one more strong reference.
    pub open spec fn strong_added(&self, i: int) -> Option<GCCellState<T>>
        recommends
            self.live(i),
    {
        let c = self.cell(i);
        Some(GCCellState { strong_rc: (c.strong_rc + 1) as nat, ..c })
    }

    /// Cell `i` with one more weak reference.
    pub open spec fn weak_added(&self, i: int) -> Option<GCCellState<T>>
        recommends
            self.present(i),
    {
        let c = self.cell(i);
        Some(GCCellState { weak_rc: (c.weak_rc + 1) as nat, ..c })
    }
}

impl<T: GCTraceable> GCView<T> {
    /// The cell ids that cell `i`'s payload holds weak edges to.
    pub open spec fn edge_ids(&self, i: int) -> Seq<int>
        recommends
            self.live(i),
    {
        self.cell(i).payload->0.edges().map_values(|w: GCArcWeak| w.spec_id())
    }

    /// A weak edge from live cell `i` to cell `j`.
    pub open spec fn has_edge(&self, i: int, j: int) -> bool {
        self.live(i) && self.edge_ids(i).contains(j)
    }

    /// Cell `i` occurs in the heap set.
    pub open spec fn registered(&self, i: int) -> bool {
        exists|k: int| 0 <= k < self.heap.len() && self.heap[k] == i
    }

    /// A registered cell with more strong references than registrations:
    /// something outside the heap set still owns it.
    pub open spec fn is_root(&self, i: int) -> bool {
        self.registered(i) && self.strong_of(i) > self.attached_of(i)
    }

    /// `p` walks from a root along weak edges, through live cells only.
    pub open spec fn is_live_path(&self, p: Seq<int>) -> bool {
        &&& p.len() >= 1
        &&& self.is_root(p[0])
        &&& forall|n: int| 0 <= n < p.len() ==> self.live(#[trigger] p[n])
        &&& forall|n: int| 0 <= n < p.len() - 1 ==> self.has_edge(#[trigger] p[n], p[n + 1])
    }

    /// Cell `j` can be found from some root by weak-edge traversal.
    pub open spec fn reachable(&self, j: int) -> bool {
        exists|p: Seq<int>| self.is_live_path(p) && p.last() == j
    }

    /// Cell `i` after the sweep has taken `n` of its registrations'
    /// strong references back.
    pub open spec fn swept_cell(&self, i: int, n: nat) -> Option<GCCellState<T>>
        recommends
            self.in_range(i),
    {
        match self.cells[i] {
            None => None,
            Some(c) => {
                let s = (c.strong_rc - n) as nat;
                if s == 0 && c.weak_rc == 0 {
                    None
                } else {
                    Some(
                        GCCellState {
                            payload: if s == 0 { None } else { c.payload },
                            strong_rc: s,
                            weak_rc: c.weak_rc,
                            marked: c.marked,
                            attached_gc_count: (c.attached_gc_count - n) as nat,
                        },
                    )
                }
            },
        }
    }

    /// How many registrations of cell `i` the sweep takes back, counting
    /// the first `j` heap-set entries: none for a reachable cell, one per
    /// registration for a victim.
    pub open spec fn victim_units(&self, i: int, j: int) -> nat {
        if self.reachable(i) {
            0nat
        } else {
            occurrences(self.heap.take(j), i)
        }
    }

    /// The predicate the sweep keeps heap-set entries by.
    pub open spec fn reach_pred(self) -> spec_fn(int) -> bool {
        |x: int| self.reachable(x)
    }
}

/// The collector after one full mark-sweep cycle: registered cells that no
/// root reaches leave the heap set, the strong references their
/// registrations held are given back (dropping payloads and freeing
/// headers where the counts run out), and the trigger counter starts over.
pub open spec fn collected<T: GCTraceable>(m: GCView<T>) -> GCView<T> {
    GCView {
        cells: Seq::new(
            m.cells.len(),
            |i: int| m.swept_cell(i, m.victim_units(i, m.heap.len() as int)),
        ),
        heap: m.heap.filter(m.reach_pred()),
        attach_count: 0nat,
        allocated_memory: (m.heap.filter(m.reach_pred()).len() * spec_obj_size::<T>()) as nat,
        ..m
    }
}

/// The mark table holds `i` as visited.
pub open spec fn is_marked_in(mm: Map<usize, bool>, i: int) -> bool {
    0 <= i <= usize::MAX && mm.contains_key(i as usize) && mm[i as usize]
}

/// Some entry of the work queue names cell `i`.
pub open spec fn in_queue(q: Seq<GCArcWeak>, i: int) -> bool {
    exists|k: int| 0 <= k < q.len() && q[k].spec_id() == i
}

/// How many of the first `n` cells are live and not yet in the mark
/// table: the traversal's termination measure.
pub open spec fn unmarked_live_count<T: GCTraceable>(
    m: GCView<T>,
    mm: Map<usize, bool>,
    n: int,
) -> nat
    decreases n,
{
    if n <= 0 {
        0nat
    } else {
        unmarked_live_count(m, mm, n - 1) + (if m.live(n - 1) && !is_marked_in(mm, n - 1) {
            1nat
        } else {
            0nat
        })
    }
}

/// Marking one live, unmarked, in-range cell shrinks the measure by one;
/// marking anything else leaves it alone.
pub proof fn lemma_unmarked_count_insert<T: GCTraceable>(
    m: GCView<T>,
    mm: Map<usize, bool>,
    id: int,
    n: int,
)
    requires
        0 <= id <= usize::MAX,
    ensures
        unmarked_live_count(m, mm.insert(id as usize, true), n) == unmarked_live_count(m, mm, n)
            - (if 0 <= id < n && m.live(id) && !is_marked_in(mm, id) { 1nat } else { 0nat }),
    decreases n,
{
    if n > 0 {
        lemma_unmarked_count_insert(m, mm, id, n - 1);
    }
}

/// If every root is in the mark table and the table is closed under live
/// weak edges, then the end of every live path is in the table.
pub proof fn lemma_path_marked<T: GCTraceable>(m: GCView<T>, mm: Map<usize, bool>, p: Seq<int>)
    requires
        forall|r: int| #[trigger] m.is_root(r) ==> is_marked_in(mm, r),
        forall|v: int, e: int| #![trigger m.has_edge(v, e)]
            is_marked_in(mm, v) && m.has_edge(v, e) && m.live(e) ==> is_marked_in(mm, e),
        m.is_live_path(p),
    ensures
        is_marked_in(mm, p.last()),
    decreases p.len(),
{
    if p.len() == 1 {
        assert(m.is_root(p[0]));
    } else {
        let q = p.drop_last();
        assert(m.is_live_path(q));
        lemma_path_marked(m, mm, q);
        assert(m.has_edge(p[p.len() - 2], p[p.len() - 1]));
    }
}

/// Splitting off the first `j` entries splits the count of `x`; in
/// particular an occurrence at `j` itself is not among the first `j`.
pub proof fn lemma_occurrences_take_lt(s: Seq<int>, j: int, x: int)
    requires
        0 <= j < s.len(),
        s[j] == x,
    ensures
        occurrences(s.take(j), x) < occurrences(s, x),
    decreases s.len(),
{
    if j == s.len() - 1 {
        assert(s.take(j) =~= s.drop_last());
    } else {
        assert(s.drop_last().take(j) =~= s.take(j));
        lemma_occurrences_take_lt(s.drop_last(), j, x);
    }
}

/// What filtering does to a count: every occurrence survives when the
/// value passes the predicate, none when it fails.
pub proof fn lemma_occurrences_filter(s: Seq<int>, pred: spec_fn(int) -> bool, x: int)
    ensures
        occurrences(s.filter(pred), x) == (if pred(x) { occurrences(s, x) } else { 0nat }),
    decreases s.len(),
{
    reveal(Seq::filter);
    if s.len() == 0 {
    } else {
        lemma_occurrences_filter(s.drop_last(), pred, x);
        if pred(s.last()) {
            lemma_occurrences_push(s.drop_last().filter(pred), s.last(), x);
        }
    }
}

impl<T> GCView<T> {
    /// Cell `i` after one registration leaves the heap set: both the
    /// registration count and the strong reference it held go back.
    pub open spec fn detach_released(&self, i: int) -> Option<GCCellState<T>>
        recommends
            self.live(i) && self.cell(i).attached_gc_count >= 1,
    {
        let c = self.cell(i);
        let s = (c.strong_rc - 1) as nat;
        if s == 0 && c.weak_rc == 0 {
            None
        } else {
            Some(
                GCCellState {
                    payload: if s == 0 { None } else { c.payload },
                    strong_rc: s,
                    attached_gc_count: if s == 0 { 0nat } else { (c.attached_gc_count - 1) as nat },
                    ..c
                },
            )
        }
    }
}

/// The collector after registering cell `i` in the heap set: the set takes
/// its own strong handle, the registration count rises, the estimate
/// grows by one registration, and one attach is counted (the counter
/// saturates rather than wrap).
pub open spec fn attach_pure<T: GCTraceable>(m: GCView<T>, i: int) -> GCView<T> {
    let c = m.cell(i);
    GCView {
        cells: m.cells.update(
            i,
            Some(
                GCCellState {
                    strong_rc: (c.strong_rc + 1) as nat,
                    attached_gc_count: (c.attached_gc_count + 1) as nat,
                    ..c
                },
            ),
        ),
        heap: m.heap.push(i),
        attach_count: if m.attach_count < usize::MAX { (m.attach_count + 1) as nat } else {
            m.attach_count
        },
        allocated_memory: (m.allocated_memory + spec_obj_size::<T>()) as nat,
        ..m
    }
}

/// What `attach` leaves behind: the registration, followed by a full
/// collection whenever the trigger heuristic says so.
pub open spec fn attach_result<T: GCTraceable>(m: GCView<T>, i: int) -> GCView<T> {
    let m1 = attach_pure(m, i);
    if m1.should_collect() {
        collected(m1)
    } else {
        m1
    }
}

/// The collector after removing the heap-set entry at position `k`,
/// which registers cell `i`: the entry at the end takes its place.
pub open spec fn detach_at<T: GCTraceable>(m: GCView<T>, i: int, k: int) -> GCView<T> {
    GCView {
        cells: m.cells.update(i, m.detach_released(i)),
        heap: m.heap.update(k, m.heap.last()).drop_last(),
        allocated_memory: (m.allocated_memory - spec_obj_size::<T>()) as nat,
        ..m
    }
}

/// Removing the heap-set entry at `k` by swapping the last entry in
/// takes away exactly one occurrence of the value that stood at `k`.
pub proof fn lemma_occurrences_swap_remove(s: Seq<int>, k: int, x: int)
    requires
        0 <= k < s.len(),
    ensures
        occurrences(s.update(k, s.last()).drop_last(), x) == occurrences(s, x) - (if s[k] == x {
            1nat
        } else {
            0nat
        }),
{
    lemma_occurrences_update(s, k, s.last(), x);
    let t = s.update(k, s.last());
    assert(t.last() == s.last());
}

/// Registering a live cell preserves well-formedness, given the counts
/// and the estimate have room.
pub proof fn lemma_wf_attach<T: GCTraceable>(m: GCView<T>, i: int)
    requires
        m.wf(),
        m.live(i),
        m.strong_of(i) < RC_LIMIT,
        m.allocated_memory + spec_obj_size::<T>() <= usize::MAX,
    ensures
        attach_pure(m, i).wf(),
{
    let m2 = attach_pure(m, i);
    assert(m.cell_ok(i));
    assert forall|j: int| m2.present(j) implies #[trigger] m2.cell_ok(j) by {
        assert(m.cell_ok(j));
        lemma_occurrences_push(m.heap, i, j);
    }
    assert forall|k: int| 0 <= k < m2.heap.len() implies #[trigger] m2.present(m2.heap[k]) by {
        if k < m.heap.len() {
            assert(m.present(m.heap[k]));
        }
    }
    assert((m.heap.len() + 1) * spec_obj_size::<T>() == m.heap.len() * spec_obj_size::<T>()
        + spec_obj_size::<T>()) by (nonlinear_arith);
}

/// Removing one registration of cell `i` at heap-set position `k`
/// preserves well-formedness.
pub proof fn lemma_wf_detach<T: GCTraceable>(m: GCView<T>, i: int, k: int)
    requires
        m.wf(),
        0 <= k < m.heap.len(),
        m.heap[k] == i,
    ensures
        detach_at(m, i, k).wf(),
{
    let m2 = detach_at(m, i, k);
    assert(m.present(i));
    assert(m.cell_ok(i));
    lemma_occurrences_index(m.heap, i, k);
    assert forall|j: int| m2.present(j) implies #[trigger] m2.cell_ok(j) by {
        assert(m.cell_ok(j));
        lemma_occurrences_swap_remove(m.heap, k, j);
    }
    assert forall|k2: int| 0 <= k2 < m2.heap.len() implies #[trigger] m2.present(m2.heap[k2]) by {
        let x = m2.heap[k2];
        if k2 == k {
            assert(x == m.heap[m.heap.len() - 1]);
        }
        assert(m.present(x));
        if x == i && m2.cells[i] is None {
            lemma_occurrences_swap_remove(m.heap, k, i);
            lemma_occurrences_index(m2.heap, i, k2);
        }
    }
    assert((m.heap.len() - 1) * spec_obj_size::<T>() == m.heap.len() * spec_obj_size::<T>()
        - spec_obj_size::<T>()) by (nonlinear_arith);
    vstd::arithmetic::mul::lemma_mul_inequality(1int, m.heap.len() as int, spec_obj_size::<T>());
}

/// The count of `x` among the entries of `s` from position `j` on.
pub open spec fn sub_occ(s: Seq<int>, j: int, x: int) -> nat {
    (occurrences(s, x) - occurrences(s.take(j), x)) as nat
}

/// A prefix never holds more occurrences than the whole sequence.
pub proof fn lemma_occurrences_take_prefix_le(s: Seq<int>, j: int, x: int)
    requires
        0 <= j <= s.len(),
    ensures
        occurrences(s.take(j), x) <= occurrences(s, x),
    decreases s.len(),
{
    if j == s.len() {
        assert(s.take(j) =~= s);
    } else {
        assert(s.drop_last().take(j) =~= s.take(j));
        lemma_occurrences_take_prefix_le(s.drop_last(), j, x);
    }
}

/// One cell of the collector after `get_all` has handed out handles for
/// the first `k` heap-set entries.
pub open spec fn partial_cloned_cell<T>(m: GCView<T>, i: int, k: int) -> Option<
    GCCellState<T>,
> {
    match m.cells[i] {
        None => None,
        Some(c) => Some(
            GCCellState { strong_rc: (c.strong_rc + occurrences(m.heap.take(k), i)) as nat, ..c },
        ),
    }
}

/// One cell of the collector after `get_all` cloned every registration's
/// handle: the strong count grows by the number of registrations.
pub open spec fn all_cloned_cell<T>(m: GCView<T>, i: int) -> Option<GCCellState<T>> {
    match m.cells[i] {
        None => None,
        Some(c) => Some(
            GCCellState { strong_rc: (c.strong_rc + occurrences(m.heap, i)) as nat, ..c },
        ),
    }
}

/// The collector after `get_all`: one fresh strong handle per heap-set
/// entry has been handed out.
pub open spec fn all_cloned<T: GCTraceable>(m: GCView<T>) -> GCView<T> {
    GCView { cells: Seq::new(m.cells.len(), |i: int| all_cloned_cell(m, i)), ..m }
}

/// The collector after draining its heap set: every registration's
/// strong reference goes back, and the estimate returns to zero.  This
/// is the teardown a collector performs when it is discarded.
pub open spec fn drained<T: GCTraceable>(m: GCView<T>) -> GCView<T> {
    GCView {
        cells: Seq::new(m.cells.len(), |i: int| m.swept_cell(i, occurrences(m.heap, i))),
        heap: Seq::empty(),
        allocated_memory: 0nat,
        ..m
    }
}

/// The end of a live path is itself live.
pub proof fn lemma_reachable_live<T: GCTraceable>(m: GCView<T>, j: int)
    requires
        m.reachable(j),
    ensures
        m.live(j),
{
    let p = choose|p: Seq<int>| m.is_live_path(p) && p.last() == j;
    assert(m.live(p[p.len() - 1]));
}

/// A full mark-sweep cycle leaves the collector well formed.
pub proof fn lemma_wf_collected<T: GCTraceable>(m: GCView<T>)
    requires
        m.wf(),
    ensures
        collected(m).wf(),
{
    let m2 = collected(m);
    let pred = m.reach_pred();
    let fil = m.heap.filter(pred);
    m.heap.lemma_filter_len(pred);
    vstd::arithmetic::mul::lemma_mul_inequality(
        fil.len() as int,
        m.heap.len() as int,
        spec_obj_size::<T>(),
    );
    assert(m.heap.take(m.heap.len() as int) =~= m.heap);
    assert forall|i: int| m2.present(i) implies #[trigger] m2.cell_ok(i) by {
        assert(m.present(i));
        assert(m.cell_ok(i));
        lemma_occurrences_filter(m.heap, pred, i);
    }
    assert forall|k: int| 0 <= k < m2.heap.len() implies #[trigger] m2.present(m2.heap[k]) by {
        m.heap.lemma_filter_pred(pred, k);
        let x = fil[k];
        lemma_reachable_live(m, x);
        lemma_occurrences_filter(m.heap, pred, x);
    }
}

/// The collector after allocating a fresh cell holding `value`.
pub open spec fn alloc_view<T>(m: GCView<T>, value: T) -> GCView<T> {
    GCView {
        cells: m.cells.push(
            Some(
                GCCellState {
                    payload: Some(value),
                    strong_rc: 1nat,
                    weak_rc: 0nat,
                    marked: false,
                    attached_gc_count: 0nat,
                },
            ),
        ),
        ..m
    }
}

/// Replacing a live cell's payload value leaves the collector well
/// formed: nothing but the payload itself changes.
pub proof fn lemma_wf_payload_replaced<T>(m: GCView<T>, i: int, v: T)
    requires
        m.wf(),
        m.live(i),
    ensures
        m.with_cell(i, Some(GCCellState { payload: Some(v), ..m.cell(i) })).wf(),
{
    assert(m.cell_ok(i));
    lemma_wf_update(m, i, Some(GCCellState { payload: Some(v), ..m.cell(i) }));
}

/// A fresh cell is in order, and allocating it disturbs nothing else.
pub proof fn lemma_wf_alloc<T>(m: GCView<T>, value: T)
    requires
        m.wf(),
    ensures
        alloc_view(m, value).wf(),
{
    let m2 = alloc_view(m, value);
    let id = m.cells.len() as int;
    assert forall|k: int| 0 <= k < m.heap.len() implies m.heap[k] != id by {
        assert(m.present(m.heap[k]));
    }
    lemma_occurrences_absent(m.heap, id);
    assert forall|j: int| m2.present(j) implies #[trigger] m2.cell_ok(j) by {
        if j != id {
            assert(m.cell_ok(j));
        }
    }
    assert forall|k: int| 0 <= k < m2.heap.len() implies #[trigger] m2.present(m2.heap[k]) by {
        assert(m.present(m.heap[k]));
    }
}

/// Replacing one cell, with the heap set and the estimate untouched,
/// preserves well-formedness as long as the new cell is itself in order.
pub proof fn lemma_wf_update<T>(m: GCView<T>, i: int, c: Option<GCCellState<T>>)
    requires
        m.wf(),
        0 <= i < m.cells.len(),
        match c {
            Some(cc) => {
                &&& cc.strong_rc + cc.weak_rc > 0
                &&& (cc.payload is Some <==> cc.strong_rc > 0)
                &&& cc.strong_rc <= RC_LIMIT
                &&& cc.weak_rc <= RC_LIMIT
                &&& cc.attached_gc_count == occurrences(m.heap, i)
                &&& cc.attached_gc_count <= cc.strong_rc
            },
            None => occurrences(m.heap, i) == 0,
        },
    ensures
        m.with_cell(i, c).wf(),
{
    let m2 = m.with_cell(i, c);
    assert forall|j: int| m2.present(j) implies #[trigger] m2.cell_ok(j) by {
        if j != i {
            assert(m.cell_ok(j));
        }
    }
    assert forall|k: int| 0 <= k < m2.heap.len() implies #[trigger] m2.present(m2.heap[k]) by {
        assert(m.present(m.heap[k]));
        if m.heap[k] == i {
            if c is None {
                lemma_occurrences_index(m.heap, i, k);
            }
        }
    }
}

pub proof fn lemma_occurrences_index(s: Seq<int>, x: int, k: int)
    requires
        0 <= k < s.len(),
        s[k] == x,
    ensures
        occurrences(s, x) >= 1,
    decreases s.len(),
{
    if k == s.len() - 1 {
    } else {
        lemma_occurrences_index(s.drop_last(), x, k);
    }
}

pub proof fn lemma_occurrences_absent(s: Seq<int>, x: int)
    requires
        forall|k: int| 0 <= k < s.len() ==> s[k] != x,
    ensures
        occurrences(s, x) == 0,
    decreases s.len(),
{
    if s.len() > 0 {
        lemma_occurrences_absent(s.drop_last(), x);
    }
}

pub proof fn lemma_occurrences_push(s: Seq<int>, y: int, x: int)
    ensures
        occurrences(s.push(y), x) == occurrences(s, x) + (if y == x { 1nat } else { 0nat }),
{
    assert(s.push(y).drop_last() =~= s);
    assert(s.push(y).last() == y);
}

pub proof fn lemma_occurrences_update(s: Seq<int>, k: int, y: int, x: int)
    requires
        0 <= k < s.len(),
    ensures
        occurrences(s.update(k, y), x) == occurrences(s, x) - (if s[k] == x { 1nat } else { 0nat })
            + (if y == x { 1nat } else { 0nat }),
    decreases s.len(),
{
    if k == s.len() - 1 {
        assert(s.update(k, y).drop_last() =~= s.drop_last());
        assert(s.update(k, y).last() == y);
    } else {
        assert(s.update(k, y).drop_last() =~= s.drop_last().update(k, y));
        assert(s.update(k, y).last() == s.last());
        lemma_occurrences_update(s.drop_last(), k, y, x);
    }
}

/// Well-formedness only reads the cells, the heap set and the
/// allocated-bytes estimate; the trigger bookkeeping is free to change.
pub proof fn lemma_wf_same_core<T>(m1: GCView<T>, m2: GCView<T>)
    requires
        m1.wf(),
        m2.cells == m1.cells,
        m2.heap == m1.heap,
        m2.allocated_memory == m1.allocated_memory,
    ensures
        m2.wf(),
{
    assert forall|i: int| m2.present(i) implies #[trigger] m2.cell_ok(i) by {
        assert(m1.cell_ok(i));
    }
    assert forall|k: int| 0 <= k < m2.heap.len() implies #[trigger] m2.present(m2.heap[k]) by {
        assert(m1.present(m1.heap[k]));
    }
}

/// A garbage collector: it owns a heap of cells and registers some of them
/// in its heap set, holding one strong reference per registration.  Roots
/// are registered cells whose strong count exceeds their registration
/// count; mark-sweep from the roots along the payloads' weak edges decides
/// which registered cells survive.
pub struct GC<T: GCTraceable> {
    pub(crate) cells: Vec<Option<GCHeapedObject<GCWrapper<T>>>>,
    pub(crate) gc_refs: Vec<GCArc>,
    pub(crate) attach_count: usize,
    pub(crate) collection_percentage: usize,
    pub(crate) memory_threshold: Option<usize>,
    pub(crate) allocated_memory: usize,
}

impl<T: GCTraceable> View for GC<T> {
    type V = GCView<T>;

    open(crate) spec fn view(&self) -> GCView<T> {
        GCView {
            cells: Seq::new(
                self.cells@.len(),
                |i: int| flatten_cell(self.cells@[i]),
            ),
            heap: Seq::new(self.gc_refs@.len(), |k: int| self.gc_refs@[k].id as int),
            attach_count: self.attach_count as nat,
            collection_percentage: self.collection_percentage as nat,
            memory_threshold: match self.memory_threshold {
                Some(t) => Some(t as nat),
                None => None,
            },
            allocated_memory: self.allocated_memory as nat,
        }
    }
}

/// Flatten a stored cell header into its mathematical state.
pub open(crate) spec fn flatten_cell<T>(
    c: Option<GCHeapedObject<GCWrapper<T>>>,
) -> Option<GCCellState<T>> {
    match c {
        None => None,
        Some(h) => Some(
            GCCellState {
                payload: match h@.value {
                    Some(w) => Some(w.spec_value()),
                    None => None,
                },
                strong_rc: h@.strong_rc,
                weak_rc: h@.weak_rc,
                marked: h@.marked,
                attached_gc_count: match h@.value {
                    Some(w) => w.spec_attached(),
                    None => 0nat,
                },
            },
        ),
    }
}

impl<T: GCTraceable> GC<T> {
    pub open spec fn wf(&self) -> bool {
        self@.wf()
    }

    /// An empty collector with no thresholds beyond the defaults.
    pub open spec fn fresh_view(percentage: nat, memory_threshold: Option<nat>) -> GCView<T> {
        GCView {
            cells: Seq::empty(),
            heap: Seq::empty(),
            attach_count: 0nat,
            collection_percentage: percentage,
            memory_threshold,
            allocated_memory: 0nat,
        }
    }

    /// A new collector with the default trigger: collect when the attach
    /// count since the last collection reaches one fifth of the heap set.
    pub fn new() -> (r: Self)
        ensures
            r.wf(),
            r@ == Self::fresh_view(20nat, None),
    {
        let r = Self {
            cells: Vec::new(),
            gc_refs: Vec::new(),
            attach_count: 0,
            collection_percentage: 20,
            memory_threshold: None,
            allocated_memory: 0,
        };
        proof {
            assert(r@ =~= Self::fresh_view(20nat, None));
        }
        r
    }

    /// A new collector whose percentage trigger is `percentage`.
    pub fn new_with_percentage(percentage: usize) -> (r: Self)
        ensures
            r.wf(),
            r@ == Self::fresh_view(percentage as nat, None),
    {
        let r = Self {
            cells: Vec::new(),
            gc_refs: Vec::new(),
            attach_count: 0,
            collection_percentage: percentage,
            memory_threshold: None,
            allocated_memory: 0,
        };
        proof {
            assert(r@ =~= Self::fresh_view(percentage as nat, None));
        }
        r
    }

    /// A new collector that also collects whenever the allocated-bytes
    /// estimate reaches `memory_threshold`.
    pub fn new_with_memory_threshold(memory_threshold: usize) -> (r: Self)
        ensures
            r.wf(),
            r@ == Self::fresh_view(20nat, Some(memory_threshold as nat)),
    {
        let r = Self {
            cells: Vec::new(),
            gc_refs: Vec::new(),
            attach_count: 0,
            collection_percentage: 20,
            memory_threshold: Some(memory_threshold),
            allocated_memory: 0,
        };
        proof {
            assert(r@ =~= Self::fresh_view(20nat, Some(memory_threshold as nat)));
        }
        r
    }

    /// A new collector with both triggers; either one fires a collection.
    pub fn new_with_thresholds(percentage: usize, memory_threshold: usize) -> (r: Self)
        ensures
            r.wf(),
            r@ == Self::fresh_view(percentage as nat, Some(memory_threshold as nat)),
    {
        let r = Self {
            cells: Vec::new(),
            gc_refs: Vec::new(),
            attach_count: 0,
            collection_percentage: percentage,
            memory_threshold: Some(memory_threshold),
            allocated_memory: 0,
        };
        proof {
            assert(r@ =~= Self::fresh_view(percentage as nat, Some(memory_threshold as nat)));
        }
        r
    }

    /// The strong count of cell `id`; zero once the header is gone.
    pub(crate) fn strong_count_at(&self, id: usize) -> (r: usize)
        ensures
            r == self@.strong_of(id as int),
    {
        if id >= self.cells.len() {
            return 0;
        }
        match &self.cells[id] {
            Some(c) => c.strong_ref(),
            None => 0,
        }
    }

    /// The weak count of cell `id`; zero once the header is gone.
    pub(crate) fn weak_count_at(&self, id: usize) -> (r: usize)
        ensures
            r == self@.weak_of(id as int),
    {
        if id >= self.cells.len() {
            return 0;
        }
        match &self.cells[id] {
            Some(c) => c.weak_ref(),
            None => 0,
        }
    }

    /// The registration count of cell `id`; zero once the payload or the
    /// whole header is gone.
    pub(crate) fn attached_count_at(&self, id: usize) -> (r: usize)
        ensures
            r == self@.attached_of(id as int),
    {
        if id >= self.cells.len() {
            return 0;
        }
        match &self.cells[id] {
            Some(c) => {
                if c.is_dropped() {
                    0
                } else {
                    c.as_ref().attached()
                }
            },
            None => 0,
        }
    }

    /// The executable size estimate for one registration, matching
    /// `spec_obj_size`.
    fn obj_size_est() -> (r: usize)
        ensures
            r == spec_obj_size::<T>(),
    {
        let a: usize = core::mem::size_of::<T>();
        let b: usize = core::mem::size_of::<GCArc>();
        if a <= usize::MAX - b {
            a + b
        } else {
            usize::MAX
        }
    }

    /// The trigger heuristic: an empty heap set never collects; a
    /// configured memory threshold that the estimate has reached always
    /// does; otherwise the attach count since the last collection is
    /// held against a percentage of the heap set's size.
    fn should_collect(&self) -> (r: bool)
        ensures
            r == self@.should_collect(),
    {
        let current_count = self.gc_refs.len();
        if current_count == 0 {
            return false;
        }
        if let Some(memory_threshold) = self.memory_threshold {
            if self.allocated_memory >= memory_threshold {
                return true;
            }
        }
        proof {
            vstd::arithmetic::mul::lemma_mul_upper_bound(
                current_count as int,
                u64::MAX as int,
                self.collection_percentage as int,
                u64::MAX as int,
            );
        }
        let product: u128 = (current_count as u128) * (self.collection_percentage as u128);
        let threshold: u128 = product / 100;
        let floor: u128 = if threshold >= 1 { threshold } else { 1 };
        (self.attach_count as u128) >= floor
    }

    /// Run one mark-sweep cycle over the heap set.
    ///
    /// Roots are the registered cells whose strong count exceeds their
    /// registration count: the excess means a handle outside the heap set
    /// still owns them.  The traversal visits each cell at most once,
    /// over an auxiliary mark table keyed by cell id; the sweep then
    /// keeps exactly the registrations of marked cells, in their
    /// original order, and gives every other registration's strong
    /// reference back, which drops payloads and frees headers as the
    /// counts run out.
    /// The mark phase: starting from the roots of the heap set, walk the
    /// payloads' weak edges and record every cell found live, each at
    /// most once.  The resulting table holds exactly the reachable cells.
    #[verifier::rlimit(100)]
    fn mark_reachable(&self) -> (marked: HashMap<usize, bool, rustc_hash::FxBuildHasher>)
        requires
            self.wf(),
        ensures
            vstd::std_specs::hash::builds_valid_hashers::<rustc_hash::FxBuildHasher>(),
            forall|x: int| is_marked_in(marked@, x) <==> self@.reachable(x),
    {
        let ghost m0 = self@;
        // Every registered cell starts out unmarked.
        let mut marked = new_mark_table();
        let mut i: usize = 0;
        while i < self.gc_refs.len()
            invariant
                self.wf(),
                m0 == self@,
                vstd::std_specs::hash::builds_valid_hashers::<rustc_hash::FxBuildHasher>(),
                forall|x: int| !is_marked_in(marked@, x),
            decreases self.gc_refs.len() - i,
        {
            let id = self.gc_refs[i].id;
            let ghost mmb = marked@;
            marked.insert(id, false);
            proof {
                assert(marked@ == mmb.insert(id, false));
                assert forall|x: int| !is_marked_in(marked@, x) by {
                    if 0 <= x <= usize::MAX {
                        if x as usize == id {
                            assert(marked@[x as usize] == false);
                        } else {
                            assert(!is_marked_in(mmb, x));
                        }
                    }
                }
            }
            i += 1;
        }
        // Seed the queue with a weak handle for every root.
        let mut queue: VecDeque<GCArcWeak> = VecDeque::new();
        let mut k: usize = 0;
        while k < self.gc_refs.len()
            invariant
                self.wf(),
                m0 == self@,
                forall|kq: int|
                    0 <= kq < queue@.len() ==> m0.is_root(#[trigger] queue@[kq].spec_id()),
                forall|k2: int|
                    0 <= k2 < k ==> (m0.strong_of(#[trigger] m0.heap[k2]) > m0.attached_of(
                        m0.heap[k2],
                    ) ==> in_queue(queue@, m0.heap[k2])),
                vstd::std_specs::hash::builds_valid_hashers::<rustc_hash::FxBuildHasher>(),
                forall|x: int| !is_marked_in(marked@, x),
            decreases self.gc_refs.len() - k,
        {
            let id = self.gc_refs[k].id;
            if self.strong_count_at(id) > self.attached_count_at(id) {
                let ghost qbefore = queue@;
                queue.push_back(GCArcWeak { id });
                proof {
                    assert(m0.heap[k as int] == id as int);
                    assert(m0.is_root(id as int));
                    assert forall|k2: int|
                        0 <= k2 < k + 1 && m0.strong_of(#[trigger] m0.heap[k2]) > m0.attached_of(
                            m0.heap[k2],
                        ) implies in_queue(queue@, m0.heap[k2]) by {
                        if k2 < k {
                            lemma_in_queue_extend(qbefore, queue@, m0.heap[k2]);
                        } else {
                            assert(queue@[qbefore.len() as int].spec_id() == id as int);
                        }
                    }
                }
            }
            k += 1;
        }
        // Trace: visit each reachable cell once, marking it and queueing
        // its outgoing edges.
        while queue.len() > 0
            invariant
                self.wf(),
                m0 == self@,
                vstd::std_specs::hash::builds_valid_hashers::<rustc_hash::FxBuildHasher>(),
                forall|x: int| is_marked_in(marked@, x) ==> m0.reachable(x) && m0.live(x),
                forall|kq: int|
                    0 <= kq < queue@.len() ==> m0.is_root(#[trigger] queue@[kq].spec_id())
                        || exists|v: int|
                        is_marked_in(marked@, v) && m0.has_edge(v, queue@[kq].spec_id()),
                forall|r: int|
                    #[trigger] m0.is_root(r) ==> is_marked_in(marked@, r) || in_queue(queue@, r),
                forall|v: int, e: int|
                    #![trigger m0.has_edge(v, e)]
                    is_marked_in(marked@, v) && m0.has_edge(v, e) && m0.live(e) ==> is_marked_in(
                        marked@,
                        e,
                    ) || in_queue(queue@, e),
            decreases unmarked_live_count(m0, marked@, m0.cells.len() as int), queue@.len(),
        {
            let ghost q0 = queue@;
            let ghost mm0 = marked@;
            let w = queue.pop_front().unwrap();
            let id = w.id;
            let ghost idi = id as int;
            let ghost qrest = q0.subrange(1, q0.len() as int);
            if self.strong_count_at(id) > 0 {
                if !is_marked_exec(&marked, id) {
                    proof {
                        // The popped entry witnesses that `id` is reachable.
                        assert(q0[0].spec_id() == idi);
                        assert(m0.is_root(idi) || exists|v: int|
                            is_marked_in(mm0, v) && m0.has_edge(v, idi));
                        if m0.is_root(idi) {
                            let p = seq![idi];
                            assert(m0.is_live_path(p));
                            assert(m0.is_live_path(p) && p.last() == idi);
                        } else {
                            let v = choose|v: int| is_marked_in(mm0, v) && m0.has_edge(v, idi);
                            assert(is_marked_in(mm0, v));
                            assert(m0.reachable(v));
                            let p0 = choose|p0: Seq<int>|
                                m0.is_live_path(p0) && p0.last() == v;
                            assert(m0.is_live_path(p0) && p0.last() == v);
                            let p = p0.push(idi);
                            assert forall|n: int| 0 <= n < p.len() implies m0.live(
                                #[trigger] p[n],
                            ) by {
                                if n < p0.len() {
                                    assert(m0.live(p0[n]));
                                }
                            }
                            assert forall|n: int| 0 <= n < p.len() - 1 implies m0.has_edge(
                                #[trigger] p[n],
                                p[n + 1],
                            ) by {
                                if n < p0.len() - 1 {
                                    assert(m0.has_edge(p0[n], p0[n + 1]));
                                }
                            }
                            assert(m0.is_live_path(p) && p.last() == idi);
                        }
                        assert(m0.reachable(idi));
                        lemma_unmarked_count_insert(m0, mm0, idi, m0.cells.len() as int);
                    }
                    marked.insert(id, true);
                    let h = GCArc { id };
                    let ghost qmid = queue@;
                    h.collect(self, &mut queue);
                    proof {
                        let edges = m0.cell(idi).payload->0.edges();
                        assert(queue@ == qmid + edges);
                        assert forall|kq: int| 0 <= kq < queue@.len() implies m0.is_root(
                            #[trigger] queue@[kq].spec_id(),
                        ) || exists|v: int|
                            is_marked_in(marked@, v) && m0.has_edge(v, queue@[kq].spec_id()) by {
                            if kq < qmid.len() {
                                let x = q0[kq + 1].spec_id();
                                if !m0.is_root(x) {
                                    let v = choose|v: int|
                                        is_marked_in(mm0, v) && m0.has_edge(v, x);
                                    assert(is_marked_in(marked@, v) && m0.has_edge(v, x));
                                }
                            } else {
                                let n = kq - qmid.len();
                                assert(queue@[kq] == edges[n]);
                                assert(m0.edge_ids(idi)[n] == edges[n].spec_id());
                                assert(m0.edge_ids(idi).contains(queue@[kq].spec_id()));
                                assert(m0.has_edge(idi, queue@[kq].spec_id()));
                                assert(is_marked_in(marked@, idi));
                            }
                        }
                        assert forall|r: int| #[trigger] m0.is_root(r) implies is_marked_in(
                            marked@,
                            r,
                        ) || in_queue(queue@, r) by {
                            if !is_marked_in(mm0, r) {
                                lemma_in_queue_after_pop(q0, r);
                                if r != idi {
                                    lemma_in_queue_extend(qrest, queue@, r);
                                }
                            }
                        }
                        assert forall|v: int, e: int|
                            #![trigger m0.has_edge(v, e)]
                            is_marked_in(marked@, v) && m0.has_edge(v, e) && m0.live(e)
                            implies is_marked_in(marked@, e) || in_queue(queue@, e) by {
                            if v == idi && !is_marked_in(mm0, v) {
                                let n = choose|n: int|
                                    0 <= n < m0.edge_ids(idi).len() && m0.edge_ids(idi)[n] == e;
                                assert(queue@[qmid.len() + n].spec_id() == e);
                            } else {
                                if !is_marked_in(mm0, e) && in_queue(q0, e) {
                                    lemma_in_queue_after_pop(q0, e);
                                    if e != idi {
                                        lemma_in_queue_extend(qrest, queue@, e);
                                    }
                                }
                            }
                        }
                    }
                } else {
                    proof {
                        assert forall|r: int| #[trigger] m0.is_root(r) implies is_marked_in(
                            marked@,
                            r,
                        ) || in_queue(queue@, r) by {
                            if !is_marked_in(mm0, r) {
                                lemma_in_queue_after_pop(q0, r);
                            }
                        }
                        assert forall|v: int, e: int|
                            #![trigger m0.has_edge(v, e)]
                            is_marked_in(marked@, v) && m0.has_edge(v, e) && m0.live(e)
                            implies is_marked_in(marked@, e) || in_queue(queue@, e) by {
                            if !is_marked_in(mm0, e) && in_queue(q0, e) {
                                lemma_in_queue_after_pop(q0, e);
                            }
                        }
                    }
                }
            } else {
                proof {
                    assert forall|r: int| #[trigger] m0.is_root(r) implies is_marked_in(
                        marked@,
                        r,
                    ) || in_queue(queue@, r) by {
                        if !is_marked_in(mm0, r) {
                            lemma_in_queue_after_pop(q0, r);
                            if q0[0].spec_id() == r {
                                assert(m0.strong_of(r) > m0.attached_of(r));
                            }
                        }
                    }
                    assert forall|v: int, e: int|
                        #![trigger m0.has_edge(v, e)]
                        is_marked_in(marked@, v) && m0.has_edge(v, e) && m0.live(e)
                        implies is_marked_in(marked@, e) || in_queue(queue@, e) by {
                        if !is_marked_in(mm0, e) && in_queue(q0, e) {
                            lemma_in_queue_after_pop(q0, e);
                            if q0[0].spec_id() == e {
                                assert(m0.strong_of(e) > 0);
                            }
                        }
                    }
                }
            }
        }
        // The mark table now holds exactly the reachable cells.
        proof {
            assert forall|x: int| is_marked_in(marked@, x) <==> m0.reachable(x) by {
                if m0.reachable(x) && !is_marked_in(marked@, x) {
                    let p = choose|p: Seq<int>| m0.is_live_path(p) && p.last() == x;
                    lemma_path_marked(m0, marked@, p);
                }
            }
        }
        marked
    }

    /// Run one mark-sweep cycle over the heap set.
    ///
    /// Roots are the registered cells whose strong count exceeds their
    /// registration count: the excess means a handle outside the heap set
    /// still owns them.  After the mark phase, the sweep keeps exactly
    /// the registrations of marked cells, in their original order, and
    /// gives every other registration's strong reference back, which
    /// drops payloads and frees headers as the counts run out.
    #[verifier::loop_isolation(false)]
    #[verifier::rlimit(100)]
    pub fn collect(&mut self)
        requires
            old(self).wf(),
        ensures
            final(self).wf(),
            final(self)@ == collected(old(self)@),
    {
        let ghost m0 = self@;
        let marked = self.mark_reachable();
        let ghost mark_final = marked@;
        // Sweep: keep the registrations of marked cells, in order; give
        // every other registration's strong reference back.
        let obj_size = Self::obj_size_est();
        let n = self.gc_refs.len();
        proof {
            assert(m0.heap.take(0) =~= Seq::<int>::empty());
            assert forall|i: int| 0 <= i < m0.cells.len() implies self@.cells[i]
                == m0.swept_cell(i, m0.victim_units(i, 0)) by {
                if m0.present(i) {
                    assert(m0.cell_ok(i));
                }
            }
            assert(self@.cells =~= Seq::new(
                m0.cells.len(),
                |i: int| m0.swept_cell(i, m0.victim_units(i, 0)),
            ));
        }
        let mut retained: Vec<GCArc> = Vec::new();
        let mut j: usize = 0;
        while j < n
            invariant
                vstd::std_specs::hash::builds_valid_hashers::<rustc_hash::FxBuildHasher>(),
                j <= n,
                n == m0.heap.len(),
                self@.heap == m0.heap,
                self@.attach_count == m0.attach_count,
                self@.collection_percentage == m0.collection_percentage,
                self@.memory_threshold == m0.memory_threshold,
                self@.cells == Seq::new(
                    m0.cells.len(),
                    |i: int| m0.swept_cell(i, m0.victim_units(i, j as int)),
                ),
                self@.allocated_memory == (n - j + retained@.len()) * spec_obj_size::<T>(),
                retained@.len() <= j,
                retained@.map_values(|h: GCArc| h.spec_id()) == m0.heap.take(j as int).filter(
                    m0.reach_pred(),
                ),
                forall|x: int| is_marked_in(mark_final, x) <==> m0.reachable(x),
            decreases n - j,
        {
            let id = self.gc_refs[j].id;
            let ghost idi = id as int;
            proof {
                assert(m0.heap[j as int] == idi);
                assert(m0.present(idi));
                assert(m0.cell_ok(idi));
                assert(m0.heap.take(j as int + 1).drop_last() =~= m0.heap.take(j as int));
                assert(m0.heap.take(j as int + 1).last() == idi);
                reveal(Seq::filter);
            }
            if is_marked_exec(&marked, id) {
                let ghost rbefore = retained@;
                retained.push(GCArc { id });
                proof {
                    assert(retained@.map_values(|h: GCArc| h.spec_id()) =~= rbefore.map_values(
                        |h: GCArc| h.spec_id(),
                    ).push(idi));
                    assert(self@.cells =~= Seq::new(
                        m0.cells.len(),
                        |i: int| m0.swept_cell(i, m0.victim_units(i, j as int + 1)),
                    ));
                }
            } else {
                let ghost sv = self@;
                let ghost raw0 = self.cells@;
                proof {
                    lemma_occurrences_take_lt(m0.heap, j as int, idi);
                    assert(!m0.reachable(idi));
                    assert(m0.victim_units(idi, j as int) < m0.cell(idi).attached_gc_count);
                    assert(self@.cells[idi] == m0.swept_cell(
                        idi,
                        m0.victim_units(idi, j as int),
                    ));
                    assert(self@.cells[idi]->0.strong_rc >= 1);
                    assert(self@.cells[idi]->0.payload is Some);
                    assert(self@.cells[idi]->0.attached_gc_count >= 1);
                    assert(self.cells@[idi]->0@.value is Some);
                    assert(self.cells@[idi]->0@.value->0.spec_attached() >= 1);
                    assert(self.cells@[idi]->0@.strong_rc >= 1);
                }
                let mut free_header = false;
                match &mut self.cells[id] {
                    Some(c) => {
                        let wrp = c.as_mut();
                        wrp.dec_attached();
                        c.dec_strong();
                        if c.strong_ref() == 0 {
                            c.drop_value();
                            if c.weak_ref() == 0 {
                                free_header = true;
                            }
                        }
                    },
                    None => {},
                }
                if free_header {
                    self.cells.set(id, None);
                }
                proof {
                    assert((n - j + retained@.len()) >= 1);
                    vstd::arithmetic::mul::lemma_mul_inequality(
                        1int,
                        n - j + retained@.len(),
                        spec_obj_size::<T>(),
                    );
                    assert((n - j + retained@.len() - 1) * spec_obj_size::<T>() == (n - j
                        + retained@.len()) * spec_obj_size::<T>() - spec_obj_size::<T>())
                        by (nonlinear_arith);
                }
                self.allocated_memory = self.allocated_memory - obj_size;
                proof {
                    let c0 = m0.cell(idi);
                    let u = m0.victim_units(idi, j as int);
                    assert(occurrences(m0.heap.take(j as int + 1), idi) == u + 1);
                    assert(m0.victim_units(idi, j as int + 1) == u + 1);
                    let cc = m0.swept_cell(idi, u)->0;
                    assert forall|i2: int| 0 <= i2 < m0.cells.len() implies self@.cells[i2]
                        == m0.swept_cell(i2, m0.victim_units(i2, j as int + 1)) by {
                        if i2 == idi {
                            assert(m0.cell_ok(idi));
                            assert(u + 1 <= c0.strong_rc);
                            assert(cc.strong_rc == c0.strong_rc - u);
                            assert(cc.weak_rc == c0.weak_rc);
                            assert(cc.attached_gc_count == c0.attached_gc_count - u);
                            let s1 = (c0.strong_rc - (u + 1)) as nat;
                            assert(s1 == cc.strong_rc - 1);
                            if s1 == 0 {
                                assert(c0.attached_gc_count <= c0.strong_rc);
                                assert((c0.attached_gc_count - (u + 1)) as nat == 0nat);
                            } else {
                                assert(cc.payload == c0.payload);
                            }
                            assert(self@.cells[idi] == m0.swept_cell(idi, (u + 1) as nat));
                            assert(m0.swept_cell(idi, m0.victim_units(idi, j as int + 1))
                                == m0.swept_cell(idi, (u + 1) as nat));
                        } else {
                            assert(occurrences(m0.heap.take(j as int + 1), i2) == occurrences(
                                m0.heap.take(j as int),
                                i2,
                            ));
                            assert(m0.victim_units(i2, j as int + 1) == m0.victim_units(
                                i2,
                                j as int,
                            ));
                            assert(self.cells@[i2] == raw0[i2]);
                            assert(self@.cells[i2] == sv.cells[i2]);
                            assert(sv.cells[i2] == m0.swept_cell(i2, m0.victim_units(i2, j as int)));
                        }
                    }
                    assert(self@.cells =~= Seq::new(
                        m0.cells.len(),
                        |i: int| m0.swept_cell(i, m0.victim_units(i, j as int + 1)),
                    ));
                    assert(m0.heap.take(j as int + 1).filter(m0.reach_pred())
                        =~= m0.heap.take(j as int).filter(m0.reach_pred()));
                }
            }
            j += 1;
        }
        self.gc_refs = retained;
        self.attach_count = 0;
        proof {
            assert(m0.heap.take(n as int) =~= m0.heap);
            assert(self@.heap =~= m0.heap.filter(m0.reach_pred()));
            assert(self@ =~= collected(m0));
            lemma_wf_collected(m0);
        }
    }

    /// Register a cell in the heap set.  The set clones its own strong
    /// handle, the cell's registration count rises by one, the
    /// allocated-bytes estimate grows by one registration, and a
    /// collection runs right away when the trigger heuristic fires.
    #[verifier::loop_isolation(false)]
    pub fn attach(&mut self, gc_arc: &GCArc)
        requires
            old(self).wf(),
            old(self)@.live(gc_arc.spec_id()),
            old(self)@.strong_of(gc_arc.spec_id()) < RC_LIMIT,
            old(self)@.allocated_memory + spec_obj_size::<T>() <= usize::MAX,
        ensures
            final(self).wf(),
            final(self)@ == attach_result(old(self)@, gc_arc.spec_id()),
    {
        let id = gc_arc.id;
        let ghost idi = id as int;
        proof {
            assert(old(self)@.cell_ok(idi));
        }
        self.gc_refs.push(GCArc { id });
        match &mut self.cells[id] {
            Some(c) => {
                c.inc_strong();
                let wrp = c.as_mut();
                wrp.inc_attached();
            },
            None => {},
        }
        self.attach_count = if self.attach_count < usize::MAX {
            self.attach_count + 1
        } else {
            self.attach_count
        };
        let obj_size = Self::obj_size_est();
        self.allocated_memory = self.allocated_memory + obj_size;
        proof {
            assert(self@ =~= attach_pure(old(self)@, idi));
            lemma_wf_attach(old(self)@, idi);
        }
        if self.should_collect() {
            self.collect();
        }
    }

    /// Remove a cell's registration from the heap set, locating it by
    /// cell identity; the order of the remaining entries may change.
    /// Returns whether the cell was registered at all.  Removing the
    /// registration gives its strong reference back, so a cell nothing
    /// else owns drops its payload here.
    #[verifier::loop_isolation(false)]
    pub fn detach(&mut self, gc_arc: &GCArc) -> (r: bool)
        requires
            old(self).wf(),
        ensures
            final(self).wf(),
            r == old(self)@.registered(gc_arc.spec_id()),
            !r ==> final(self)@ == old(self)@,
            r ==> exists|k: int|
                {
                    &&& 0 <= k < old(self)@.heap.len()
                    &&& #[trigger] old(self)@.heap[k] == gc_arc.spec_id()
                    &&& forall|j: int| 0 <= j < k ==> old(self)@.heap[j] != gc_arc.spec_id()
                    &&& final(self)@ == detach_at(old(self)@, gc_arc.spec_id(), k)
                },
    {
        let ghost m0 = self@;
        let id = gc_arc.id;
        let ghost idi = id as int;
        let n = self.gc_refs.len();
        let mut idx: usize = 0;
        while idx < n && self.gc_refs[idx].id != id
            invariant
                idx <= n,
                forall|j2: int| 0 <= j2 < idx ==> m0.heap[j2] != idi,
            decreases n - idx,
        {
            idx += 1;
        }
        if idx < n {
            proof {
                assert(m0.heap[idx as int] == idi);
                assert(m0.present(idi));
                assert(m0.cell_ok(idi));
                lemma_occurrences_index(m0.heap, idi, idx as int);
            }
            self.gc_refs.swap_remove(idx);
            let mut free_header = false;
            match &mut self.cells[id] {
                Some(c) => {
                    let wrp = c.as_mut();
                    wrp.dec_attached();
                    c.dec_strong();
                    if c.strong_ref() == 0 {
                        c.drop_value();
                        if c.weak_ref() == 0 {
                            free_header = true;
                        }
                    }
                },
                None => {},
            }
            if free_header {
                self.cells.set(id, None);
            }
            let obj_size = Self::obj_size_est();
            proof {
                vstd::arithmetic::mul::lemma_mul_inequality(
                    1int,
                    m0.heap.len() as int,
                    spec_obj_size::<T>(),
                );
            }
            self.allocated_memory = self.allocated_memory - obj_size;
            proof {
                assert(self@ =~= detach_at(m0, idi, idx as int));
                lemma_wf_detach(m0, idi, idx as int);
                assert(m0.registered(idi));
            }
            true
        } else {
            proof {
                if m0.registered(idi) {
                    let k = choose|k: int| 0 <= k < m0.heap.len() && m0.heap[k] == idi;
                    assert(m0.heap[k] != idi);
                }
            }
            false
        }
    }

    /// Allocate a cell for `obj`, register it, and hand back an external
    /// strong handle, distinct from the heap set's own.
    pub fn create(&mut self, obj: T) -> (h: GCArc)
        requires
            old(self).wf(),
            old(self)@.allocated_memory + spec_obj_size::<T>() <= usize::MAX,
        ensures
            final(self).wf(),
            h.spec_id() == old(self)@.cells.len(),
            final(self)@ == attach_result(alloc_view(old(self)@, obj), h.spec_id()),
    {
        let gc_arc = GCArc::new(self, obj);
        self.attach(&gc_arc);
        gc_arc
    }

    /// A strong handle for every heap-set entry, in heap-set order; each
    /// one counts, so every returned handle must eventually be released.
    #[verifier::loop_isolation(false)]
    pub fn get_all(&mut self) -> (r: Vec<GCArc>)
        requires
            old(self).wf(),
            forall|i: int|
                old(self)@.present(i) ==> old(self)@.cell(i).strong_rc + old(self)@.cell(
                    i,
                ).attached_gc_count <= RC_LIMIT,
        ensures
            final(self).wf(),
            final(self)@ == all_cloned(old(self)@),
            r@.len() == old(self)@.heap.len(),
            forall|k: int| 0 <= k < r@.len() ==> #[trigger] r@[k].spec_id() == old(self)@.heap[k],
    {
        let ghost m0 = self@;
        let mut r: Vec<GCArc> = Vec::new();
        let n = self.gc_refs.len();
        let mut k: usize = 0;
        proof {
            assert(m0.heap.take(0) =~= Seq::<int>::empty());
            assert forall|i: int| 0 <= i < m0.cells.len() implies self@.cells[i]
                == partial_cloned_cell(m0, i, 0) by {}
            assert(self@.cells =~= Seq::new(
                m0.cells.len(),
                |i: int| partial_cloned_cell(m0, i, 0),
            ));
        }
        while k < n
            invariant
                k <= n,
                n == m0.heap.len(),
                r@.len() == k,
                forall|k2: int| 0 <= k2 < k ==> #[trigger] r@[k2].spec_id() == m0.heap[k2],
                self@.heap == m0.heap,
                self@.attach_count == m0.attach_count,
                self@.collection_percentage == m0.collection_percentage,
                self@.memory_threshold == m0.memory_threshold,
                self@.allocated_memory == m0.allocated_memory,
                self@.cells == Seq::new(
                    m0.cells.len(),
                    |i: int| partial_cloned_cell(m0, i, k as int),
                ),
            decreases n - k,
        {
            let id = self.gc_refs[k].id;
            let ghost idi = id as int;
            proof {
                assert(m0.heap[k as int] == idi);
                assert(m0.present(idi));
                assert(m0.cell_ok(idi));
                lemma_occurrences_take_lt(m0.heap, k as int, idi);
                assert(m0.heap.take(k as int + 1).drop_last() =~= m0.heap.take(k as int));
                assert(m0.heap.take(k as int + 1).last() == idi);
                assert(m0.cell(idi).strong_rc + m0.cell(idi).attached_gc_count <= RC_LIMIT);
                assert(self@.cells[idi] == partial_cloned_cell(m0, idi, k as int));
                assert(self@.cells[idi]->0.strong_rc < RC_LIMIT);
                assert(self.cells@[idi]->0@.strong_rc < RC_LIMIT);
            }
            let ghost sv = self@;
            let ghost raw0 = self.cells@;
            match &mut self.cells[id] {
                Some(c) => {
                    c.inc_strong();
                },
                None => {},
            }
            r.push(GCArc { id });
            proof {
                assert forall|i2: int| 0 <= i2 < m0.cells.len() implies self@.cells[i2]
                    == partial_cloned_cell(m0, i2, k as int + 1) by {
                    if i2 != idi {
                        assert(occurrences(m0.heap.take(k as int + 1), i2) == occurrences(
                            m0.heap.take(k as int),
                            i2,
                        ));
                        assert(self.cells@[i2] == raw0[i2]);
                        assert(self@.cells[i2] == sv.cells[i2]);
                        assert(sv.cells[i2] == partial_cloned_cell(m0, i2, k as int));
                    } else {
                        let c0 = m0.cell(idi);
                        assert(occurrences(m0.heap.take(k as int + 1), idi) == occurrences(
                            m0.heap.take(k as int),
                            idi,
                        ) + 1);
                        assert(sv.cells[idi] == partial_cloned_cell(m0, idi, k as int));
                    }
                }
                assert(self@.cells =~= Seq::new(
                    m0.cells.len(),
                    |i: int| partial_cloned_cell(m0, i, k as int + 1),
                ));
            }
            k += 1;
        }
        proof {
            assert(m0.heap.take(n as int) =~= m0.heap);
            assert(self@.cells =~= Seq::new(m0.cells.len(), |i: int| all_cloned_cell(m0, i)));
            assert(self@ =~= all_cloned(m0));
            assert forall|j: int| self@.present(j) implies #[trigger] self@.cell_ok(j) by {
                assert(m0.cell_ok(j));
                assert(old(self)@.present(j));
                assert(old(self)@.cell(j).strong_rc + old(self)@.cell(j).attached_gc_count
                    <= RC_LIMIT);
            }
            assert forall|k2: int| 0 <= k2 < self@.heap.len() implies #[trigger] self@.present(
                self@.heap[k2],
            ) by {
                assert(m0.present(m0.heap[k2]));
            }
        }
        r
    }

    /// Drain the heap set: every registration's strong reference goes
    /// back (dropping payloads and freeing headers as the counts run
    /// out), and the allocated-bytes estimate returns to zero.  Call
    /// this before discarding a collector.
    #[verifier::loop_isolation(false)]
    pub fn detach_all(&mut self)
        requires
            old(self).wf(),
        ensures
            final(self).wf(),
            final(self)@ == drained(old(self)@),
    {
        let ghost m0 = self@;
        let obj_size = Self::obj_size_est();
        proof {
            assert forall|i: int| 0 <= i < m0.cells.len() implies self@.cells[i]
                == m0.swept_cell(i, sub_occ(m0.heap, m0.heap.len() as int, i)) by {
                if m0.present(i) {
                    assert(m0.cell_ok(i));
                    assert(m0.heap.take(m0.heap.len() as int) =~= m0.heap);
                }
            }
            assert(self@.cells =~= Seq::new(
                m0.cells.len(),
                |i: int| m0.swept_cell(i, sub_occ(m0.heap, m0.heap.len() as int, i)),
            ));
        }
        while self.gc_refs.len() > 0
            invariant
                self@.heap.len() <= m0.heap.len(),
                self@.heap == m0.heap.take(self@.heap.len() as int),
                self@.attach_count == m0.attach_count,
                self@.collection_percentage == m0.collection_percentage,
                self@.memory_threshold == m0.memory_threshold,
                self@.allocated_memory == self@.heap.len() * spec_obj_size::<T>(),
                self@.cells == Seq::new(
                    m0.cells.len(),
                    |i: int| m0.swept_cell(i, sub_occ(m0.heap, self@.heap.len() as int, i)),
                ),
            decreases self.gc_refs.len(),
        {
            let ghost j = self@.heap.len() as int;
            let h = self.gc_refs.pop().unwrap();
            let id = h.id;
            let ghost idi = id as int;
            proof {
                assert(m0.heap.take(j)[j - 1] == idi);
                assert(m0.heap[j - 1] == idi);
                assert(m0.present(idi));
                assert(m0.cell_ok(idi));
                assert(m0.heap.take(j).drop_last() =~= m0.heap.take(j - 1));
                lemma_occurrences_index(m0.heap.take(j), idi, j - 1);
                lemma_occurrences_take_prefix_le(m0.heap, j, idi);
                assert(self@.cells[idi] == m0.swept_cell(idi, sub_occ(m0.heap, j, idi)));
                assert(self@.cells[idi]->0.strong_rc >= 1);
                assert(self@.cells[idi]->0.payload is Some);
                assert(self@.cells[idi]->0.attached_gc_count >= 1);
                assert(self.cells@[idi]->0@.value is Some);
                assert(self.cells@[idi]->0@.value->0.spec_attached() >= 1);
                assert(self.cells@[idi]->0@.strong_rc >= 1);
            }
            let ghost sv = self@;
            let ghost raw0 = self.cells@;
            let mut free_header = false;
            match &mut self.cells[id] {
                Some(c) => {
                    let wrp = c.as_mut();
                    wrp.dec_attached();
                    c.dec_strong();
                    if c.strong_ref() == 0 {
                        c.drop_value();
                        if c.weak_ref() == 0 {
                            free_header = true;
                        }
                    }
                },
                None => {},
            }
            if free_header {
                self.cells.set(id, None);
            }
            proof {
                vstd::arithmetic::mul::lemma_mul_inequality(
                    1int,
                    j,
                    spec_obj_size::<T>(),
                );
                assert((j - 1) * spec_obj_size::<T>() == j * spec_obj_size::<T>()
                    - spec_obj_size::<T>()) by (nonlinear_arith);
            }
            self.allocated_memory = self.allocated_memory - obj_size;
            proof {
                let c0 = m0.cell(idi);
                let u = sub_occ(m0.heap, j, idi);
                assert(sub_occ(m0.heap, j - 1, idi) == u + 1);
                assert forall|i2: int| 0 <= i2 < m0.cells.len() implies self@.cells[i2]
                    == m0.swept_cell(i2, sub_occ(m0.heap, j - 1, i2)) by {
                    if i2 == idi {
                        let cc = m0.swept_cell(idi, u)->0;
                        assert(u + 1 <= c0.attached_gc_count);
                        assert(cc.strong_rc == c0.strong_rc - u);
                        assert(cc.attached_gc_count == c0.attached_gc_count - u);
                        let s1 = (c0.strong_rc - (u + 1)) as nat;
                        assert(s1 == cc.strong_rc - 1);
                        if s1 == 0 {
                            assert((c0.attached_gc_count - (u + 1)) as nat == 0nat);
                        } else {
                            assert(cc.payload == c0.payload);
                        }
                        assert(self@.cells[idi] == m0.swept_cell(idi, (u + 1) as nat));
                    } else {
                        assert(sub_occ(m0.heap, j - 1, i2) == sub_occ(m0.heap, j, i2));
                        assert(self.cells@[i2] == raw0[i2]);
                        assert(self@.cells[i2] == sv.cells[i2]);
                        assert(sv.cells[i2] == m0.swept_cell(i2, sub_occ(m0.heap, j, i2)));
                    }
                }
                assert(self@.cells =~= Seq::new(
                    m0.cells.len(),
                    |i: int| m0.swept_cell(i, sub_occ(m0.heap, j - 1, i)),
                ));
            }
        }
        proof {
            assert(self@.heap =~= Seq::<int>::empty());
            assert forall|i: int| 0 <= i < m0.cells.len() implies self@.cells[i]
                == m0.swept_cell(i, occurrences(m0.heap, i)) by {
                assert(m0.heap.take(0) =~= Seq::<int>::empty());
                assert(sub_occ(m0.heap, 0, i) == occurrences(m0.heap, i));
            }
            assert(self@.cells =~= Seq::new(
                m0.cells.len(),
                |i: int| m0.swept_cell(i, occurrences(m0.heap, i)),
            ));
            assert(self@.heap =~= drained(m0).heap);
            assert(self@.cells =~= drained(m0).cells);
            assert(self@.attach_count == drained(m0).attach_count);
            assert(self@.heap.len() == 0);
            assert(0int * spec_obj_size::<T>() == 0) by (nonlinear_arith);
            assert(self@.allocated_memory == drained(m0).allocated_memory);
            assert(self@.collection_percentage == drained(m0).collection_percentage);
            assert(self@.memory_threshold == drained(m0).memory_threshold);
            assert(self@ =~= drained(m0));
            assert forall|j2: int| self@.present(j2) implies #[trigger] self@.cell_ok(j2) by {
                assert(m0.cell_ok(j2));
            }
        }
    }

    /// Swap a live cell's payload for `value`, returning the old
    /// payload.  Payload mutation is the caller's business; the
    /// collector only requires that the cell is still live.
    pub fn replace_payload(&mut self, gc_arc: &GCArc, value: T) -> (r: T)
        requires
            old(self).wf(),
            old(self)@.live(gc_arc.spec_id()),
        ensures
            final(self).wf(),
            old(self)@.cell(gc_arc.spec_id()).payload == Some(r),
            final(self)@ == old(self)@.with_cell(
                gc_arc.spec_id(),
                Some(
                    GCCellState {
                        payload: Some(value),
                        ..old(self)@.cell(gc_arc.spec_id())
                    },
                ),
            ),
    {
        let id = gc_arc.id;
        let ghost idi = id as int;
        proof {
            assert(old(self)@.cell_ok(idi));
        }
        let r = match &mut self.cells[id] {
            Some(c) => {
                let wrp = c.as_mut();
                wrp.replace_value(value)
            },
            None => vstd::pervasive::unreached(),
        };
        proof {
            assert(self@ =~= old(self)@.with_cell(
                idi,
                Some(GCCellState { payload: Some(value), ..old(self)@.cell(idi) }),
            ));
            lemma_wf_payload_replaced(old(self)@, idi, value);
        }
        r
    }

    /// How many cells the heap set currently registers.
    pub fn object_count(&self) -> (r: usize)
        ensures
            r == self@.heap.len(),
    {
        self.gc_refs.len()
    }

    /// The current allocated-bytes estimate.
    pub fn allocated_memory(&self) -> (r: usize)
        ensures
            r == self@.allocated_memory,
    {
        self.allocated_memory
    }

    /// The current memory threshold; `None` disables the memory trigger.
    pub fn memory_threshold(&self) -> (r: Option<usize>)
        ensures
            match r {
                Some(t) => self@.memory_threshold == Some(t as nat),
                None => self@.memory_threshold is None,
            },
    {
        self.memory_threshold
    }

    /// Replace the memory threshold; `None` disables the memory trigger.
    pub fn set_memory_threshold(&mut self, threshold: Option<usize>)
        ensures
            final(self)@ == (GCView {
                memory_threshold: match threshold {
                    Some(t) => Some(t as nat),
                    None => None,
                },
                ..old(self)@
            }),
            old(self).wf() ==> final(self).wf(),
    {
        self.memory_threshold = threshold;
        proof {
            assert(final(self)@ =~= (GCView {
                memory_threshold: match threshold {
                    Some(t) => Some(t as nat),
                    None => None,
                },
                ..old(self)@
            }));
            if old(self).wf() {
                lemma_wf_same_core(old(self)@, final(self)@);
            }
        }
    }
}

} // verus!
