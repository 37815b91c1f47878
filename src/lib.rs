//! Span storage for a tracing subscriber: a slab of span slots with an
//! index-linked free list and per-span reference counts, plus the per-thread
//! stack of entered spans.
use vstd::prelude::*;

pub mod stack;
pub mod store;

verus! {

} // verus!
