//! A hybrid automatic memory manager: reference-counted strong and weak
//! handles over a heap of cells, together with a tracing mark-sweep
//! collector that reclaims objects trapped in reference cycles.
//!
//! The collector owns the heap of cells.  A handle is an index into that
//! heap; every operation that touches a reference count takes the
//! collector as an argument, and the whole lifecycle of a cell (payload
//! dropped when the last strong reference goes away, header freed when
//! the weak count also reaches zero) is stated and verified as a state
//! machine over the collector's mathematical model.
//!
//! - [`heaped_object`] holds the cell header: both counts, the mark bit
//!   and the payload slot.
//! - [`arc`] holds the strong and weak handle types and the payload
//!   wrapper that carries the registration count.
//! - [`traceable`] holds the capability every managed payload supplies:
//!   enumerating its outgoing weak edges.
//! - [`gc`] holds the collector itself, its model, and mark-sweep.
//! - [`laws`] states and proves the laws the collector obeys.
//! - [`node`] offers a ready-made traceable payload for object graphs.

pub mod arc;
pub mod gc;
pub mod heaped_object;
pub mod laws;
pub mod node;
pub mod traceable;
