//! Shared value runtime for an executable formal-semantics interpreter:
//! an arbitrary-precision integer with fixed-width two's-complement byte
//! codecs, persistent value-semantics containers built over a copy-on-write
//! cell, and a non-determinism/failure control-flow layer with a bounded
//! rejection sampler.

pub mod codec;
pub mod intval;
pub mod list;
pub mod ndresult;
pub mod nondet;
pub mod pmap;
pub mod pset;
pub mod shared_cell;

pub use codec::Endianness;
pub use codec::Signedness;
pub use codec::Size;
pub use intval::Int;
pub use list::List;
pub use ndresult::NdResult;
pub use nondet::Nondet;
pub use pmap::PersistentMap;
pub use pset::PersistentSet;
pub use shared_cell::SharedCell;
