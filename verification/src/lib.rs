//! A reservation ledger: allocates exclusive half-open time ranges of a
//! shared property to requesters, prevents double-allocation, and tracks
//! each booking through a fixed lifecycle from request to completion or
//! cancellation. A sibling module keeps a small catalog of property
//! listings with owner-gated updates.

pub mod booking;
pub mod listing;
