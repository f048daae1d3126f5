use vstd::prelude::*;
use crate::gc::{
    alloc_view, all_cloned, attach_pure, collected, detach_at, drained, lemma_occurrences_absent,
    lemma_occurrences_filter, lemma_occurrences_index, lemma_reachable_live, lemma_wf_collected,
    occurrences, spec_obj_size, GCView,
};
use crate::heaped_object::RC_LIMIT;
use crate::traceable::GCTraceable;

verus! {

/// In a well-formed collector, every cell's strong count dominates its
/// registration count, and all counts are within bounds.
pub proof fn lemma_counts_ordered<T: GCTraceable>(m: GCView<T>)
    requires
        m.wf(),
    ensures
        forall|i: int| #[trigger] m.attached_of(i) <= m.strong_of(i),
        forall|i: int| #[trigger] m.strong_of(i) <= RC_LIMIT,
        forall|i: int| #[trigger] m.weak_of(i) <= RC_LIMIT,
{
    assert forall|i: int| #[trigger] m.attached_of(i) <= m.strong_of(i) by {
        if m.present(i) {
            assert(m.cell_ok(i));
        }
    }
    assert forall|i: int| #[trigger] m.strong_of(i) <= RC_LIMIT by {
        if m.present(i) {
            assert(m.cell_ok(i));
        }
    }
    assert forall|i: int| #[trigger] m.weak_of(i) <= RC_LIMIT by {
        if m.present(i) {
            assert(m.cell_ok(i));
        }
    }
}

/// A count of at least one yields a position.
pub proof fn lemma_occurrences_exists(s: Seq<int>, x: int)
    requires
        occurrences(s, x) >= 1,
    ensures
        exists|k: int| 0 <= k < s.len() && s[k] == x,
    decreases s.len(),
{
    if s.last() == x {
        assert(s[s.len() - 1] == x);
    } else {
        lemma_occurrences_exists(s.drop_last(), x);
        let k = choose|k: int| 0 <= k < s.drop_last().len() && s.drop_last()[k] == x;
        assert(s[k] == x);
    }
}

/// After a collection, every cell that was registered either was
/// reachable from a root and keeps its registrations, or has left the
/// heap set entirely.
pub proof fn lemma_collect_partition<T: GCTraceable>(m: GCView<T>)
    requires
        m.wf(),
    ensures
        forall|i: int|
            #[trigger] m.registered(i) ==> (m.reachable(i) && collected(m).registered(i)) || (
            !m.reachable(i) && !collected(m).registered(i)),
{
    let m1 = collected(m);
    assert forall|i: int| #[trigger] m.registered(i) implies (m.reachable(i)
        && m1.registered(i)) || (!m.reachable(i) && !m1.registered(i)) by {
        let k = choose|k: int| 0 <= k < m.heap.len() && m.heap[k] == i;
        lemma_occurrences_index(m.heap, i, k);
        lemma_occurrences_filter(m.heap, m.reach_pred(), i);
        if m.reachable(i) {
            assert(m.reach_pred()(i));
            assert(occurrences(m1.heap, i) >= 1);
            lemma_occurrences_exists(m1.heap, i);
            assert(m1.registered(i));
        } else {
            assert(!m.reach_pred()(i));
            assert(occurrences(m1.heap, i) == 0);
            if m1.registered(i) {
                let k2 = choose|k2: int| 0 <= k2 < m1.heap.len() && m1.heap[k2] == i;
                lemma_occurrences_index(m1.heap, i, k2);
            }
        }
    }
}

/// With no registration touching cell `i`, the sweep leaves it exactly
/// as it stands.
pub proof fn lemma_swept_zero<T: GCTraceable>(m: GCView<T>, i: int)
    requires
        m.wf(),
        0 <= i < m.cells.len(),
    ensures
        m.swept_cell(i, 0) == m.cells[i],
{
    if m.present(i) {
        assert(m.cell_ok(i));
    }
}

/// A sequence every element of which passes the predicate filters to
/// itself.
pub proof fn lemma_filter_all(s: Seq<int>, pred: spec_fn(int) -> bool)
    requires
        forall|k: int| 0 <= k < s.len() ==> pred(#[trigger] s[k]),
    ensures
        s.filter(pred) == s,
    decreases s.len(),
{
    reveal(Seq::filter);
    if s.len() > 0 {
        assert(s[s.len() - 1] == s.last());
        lemma_filter_all(s.drop_last(), pred);
        assert(s.drop_last().push(s.last()) =~= s);
    }
}

/// Every prefix of a live path is a live path, so every cell a live path
/// passes through is itself reachable.
pub proof fn lemma_path_cells_reachable<T: GCTraceable>(m: GCView<T>, p: Seq<int>, n: int)
    requires
        m.is_live_path(p),
        0 <= n < p.len(),
    ensures
        m.reachable(p[n]),
{
    let q = p.take(n + 1);
    assert(m.is_live_path(q));
    assert(q.last() == p[n]);
}

/// A live path of a collector survives a collection: every cell on it
/// was reachable, so the sweep leaves all of them untouched.
pub proof fn lemma_path_survives_collect<T: GCTraceable>(m: GCView<T>, p: Seq<int>)
    requires
        m.wf(),
        m.is_live_path(p),
    ensures
        collected(m).is_live_path(p),
{
    let m1 = collected(m);
    assert forall|n: int| 0 <= n < p.len() implies m1.cells[p[n]] == m.cells[#[trigger] p[n]] by {
        lemma_path_cells_reachable(m, p, n);
        lemma_swept_zero(m, p[n]);
    }
    assert forall|n: int| 0 <= n < p.len() implies m1.live(#[trigger] p[n]) by {
        assert(m.live(p[n]));
    }
    assert forall|n: int| 0 <= n < p.len() - 1 implies m1.has_edge(#[trigger] p[n], p[n + 1]) by {
        assert(m.has_edge(p[n], p[n + 1]));
        assert(m1.cell(p[n]) == m.cell(p[n]));
    }
    let r = p[0];
    assert(m.is_root(r));
    assert(m.reachable(r)) by {
        lemma_path_cells_reachable(m, p, 0);
    }
    assert(m1.registered(r)) by {
        let k = choose|k: int| 0 <= k < m.heap.len() && m.heap[k] == r;
        lemma_occurrences_index(m.heap, r, k);
        lemma_occurrences_filter(m.heap, m.reach_pred(), r);
        assert(m.reach_pred()(r));
        assert(occurrences(m1.heap, r) >= 1);
        lemma_occurrences_exists(m1.heap, r);
    }
    assert(m1.is_root(r)) by {
        assert(m1.cells[r] == m.cells[r]) by {
            lemma_swept_zero(m, r);
        }
    }
}

/// What one collection reaches, the next still reaches.
pub proof fn lemma_reachable_survives_collect<T: GCTraceable>(m: GCView<T>, x: int)
    requires
        m.wf(),
        m.reachable(x),
    ensures
        collected(m).reachable(x),
{
    let p = choose|p: Seq<int>| m.is_live_path(p) && p.last() == x;
    lemma_path_survives_collect(m, p);
}

/// Collecting twice in a row without intervening mutation is the same as
/// collecting once: the second cycle removes nothing.
pub proof fn lemma_collect_idempotent<T: GCTraceable>(m: GCView<T>)
    requires
        m.wf(),
    ensures
        collected(collected(m)) == collected(m),
{
    let m1 = collected(m);
    lemma_wf_collected(m);
    let pred = m.reach_pred();
    let pred1 = m1.reach_pred();
    assert forall|k: int| 0 <= k < m1.heap.len() implies pred1(#[trigger] m1.heap[k]) by {
        m.heap.lemma_filter_pred(pred, k);
        lemma_reachable_survives_collect(m, m1.heap[k]);
    }
    lemma_filter_all(m1.heap, pred1);
    assert forall|i: int| 0 <= i < m1.cells.len() implies m1.swept_cell(
        i,
        m1.victim_units(i, m1.heap.len() as int),
    ) == m1.cells[i] by {
        assert(m1.heap.take(m1.heap.len() as int) =~= m1.heap);
        if m1.reachable(i) {
            lemma_swept_zero(m1, i);
        } else {
            if occurrences(m1.heap, i) >= 1 {
                lemma_occurrences_exists(m1.heap, i);
                let k = choose|k: int| 0 <= k < m1.heap.len() && m1.heap[k] == i;
                m.heap.lemma_filter_pred(pred, k);
                lemma_reachable_survives_collect(m, m1.heap[k]);
            }
            lemma_swept_zero(m1, i);
        }
    }
    assert(collected(m1).cells =~= m1.cells);
    assert(collected(m1) =~= m1);
}

/// Registering a cell and then removing that registration again restores
/// every cell (in particular the registration count), the heap set, and
/// the allocated-bytes estimate; only the attach counter remembers.
pub proof fn lemma_attach_detach_round_trip<T: GCTraceable>(m: GCView<T>, i: int, k: int)
    requires
        m.wf(),
        m.live(i),
        m.strong_of(i) < RC_LIMIT,
        m.allocated_memory + spec_obj_size::<T>() <= usize::MAX,
        0 <= k < attach_pure(m, i).heap.len(),
        attach_pure(m, i).heap[k] == i,
    ensures
        detach_at(attach_pure(m, i), i, k).cells == m.cells,
        detach_at(attach_pure(m, i), i, k).heap == m.heap,
        detach_at(attach_pure(m, i), i, k).allocated_memory == m.allocated_memory,
{
    let m1 = attach_pure(m, i);
    let m2 = detach_at(m1, i, k);
    assert(m.cell_ok(i));
    assert(m1.heap.last() == i);
    assert(m2.heap =~= m.heap);
    assert(m1.detach_released(i) == m.cells[i]);
    assert(m2.cells =~= m.cells);
}

/// The cell lifecycle, read off one release step.
///
/// The payload is dropped exactly when the strong count steps from one
/// to zero; it survives any other release.  The header is freed exactly
/// when the two counts together step from positive to zero: on the
/// strong side when the last strong reference leaves and no weak
/// reference remains, on the weak side when the last weak reference
/// leaves a cell whose payload is already gone.
pub proof fn lemma_cell_lifecycle<T: GCTraceable>(m: GCView<T>, i: int)
    requires
        m.wf(),
    ensures
        m.live(i) ==> (m.with_cell(i, m.strong_released(i)).live(i) <==> m.strong_of(i) > 1),
        m.live(i) ==> (m.with_cell(i, m.strong_released(i)).present(i) <==> !(m.strong_of(i)
            == 1 && m.weak_of(i) == 0)),
        m.present(i) && m.weak_of(i) >= 1 ==> (m.with_cell(i, m.weak_released(i)).live(i)
            <==> m.live(i)),
        m.present(i) && m.weak_of(i) >= 1 ==> (m.with_cell(i, m.weak_released(i)).present(i)
            <==> !(m.strong_of(i) == 0 && m.weak_of(i) == 1)),
{
    if m.present(i) {
        assert(m.cell_ok(i));
    }
}

/// Once a cell's payload is gone, no operation of the collector brings
/// it back: an upgrade that has once answered absent answers absent
/// forever.  Each conjunct covers one state transformer of the library.
pub proof fn lemma_no_revival<T: GCTraceable>(m: GCView<T>, i: int, j: int, v: T, k: int)
    requires
        m.wf(),
        m.in_range(i),
        !m.live(i),
    ensures
        m.live(j) ==> !m.with_cell(j, m.strong_added(j)).live(i),
        m.present(j) ==> !m.with_cell(j, m.weak_added(j)).live(i),
        m.live(j) ==> !m.with_cell(j, m.strong_released(j)).live(i),
        m.present(j) && m.weak_of(j) >= 1 ==> !m.with_cell(j, m.weak_released(j)).live(i),
        !alloc_view(m, v).live(i),
        m.live(j) ==> !attach_pure(m, j).live(i),
        0 <= k < m.heap.len() && m.heap[k] == j ==> !detach_at(m, j, k).live(i),
        !collected(m).live(i),
        !drained(m).live(i),
        !all_cloned(m).live(i),
{
    if m.present(i) {
        assert(m.cell_ok(i));
        assert forall|k2: int| 0 <= k2 < m.heap.len() implies m.heap[k2] != i by {
            if m.heap[k2] == i {
                lemma_occurrences_index(m.heap, i, k2);
            }
        }
        lemma_occurrences_absent(m.heap, i);
    } else {
        assert forall|k2: int| 0 <= k2 < m.heap.len() implies m.heap[k2] != i by {
            assert(m.present(m.heap[k2]));
        }
        lemma_occurrences_absent(m.heap, i);
    }
    if 0 <= k < m.heap.len() && m.heap[k] == i {
        lemma_occurrences_index(m.heap, i, k);
    }
    assert(!collected(m).live(i)) by {
        assert(m.heap.take(m.heap.len() as int) =~= m.heap);
        if m.reachable(i) {
            lemma_reachable_live(m, i);
        }
    }
}

/// A collection over an empty heap set changes nothing but the attach
/// counter, and the trigger heuristic never fires on an empty set.
pub proof fn lemma_collect_empty<T: GCTraceable>(m: GCView<T>)
    requires
        m.wf(),
        m.heap.len() == 0,
    ensures
        collected(m).cells == m.cells,
        collected(m).heap == m.heap,
        collected(m).allocated_memory == m.allocated_memory,
        collected(m).attach_count == 0,
        !m.should_collect(),
{
    reveal(Seq::filter);
    assert(m.heap.filter(m.reach_pred()) =~= m.heap);
    assert(0int * spec_obj_size::<T>() == 0) by (nonlinear_arith);
    assert forall|i: int| 0 <= i < m.cells.len() implies m.swept_cell(
        i,
        m.victim_units(i, m.heap.len() as int),
    ) == m.cells[i] by {
        assert(m.heap.take(0) =~= m.heap);
        lemma_swept_zero(m, i);
    }
    assert(collected(m).cells =~= m.cells);
}

} // verus!
