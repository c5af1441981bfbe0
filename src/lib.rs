//! A verified model of the multi-row byte-copy argument of a virtual-machine
//! execution circuit: the per-position read and write assertions, the zero-fill
//! policy beyond the source bound, the finish condition and the chaining of
//! rows that carry one copy across several proof rows.

pub mod comparator;
pub mod buffer_reader;
pub mod copy_row;
pub mod trace;
