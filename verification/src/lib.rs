//! Equivocation detection with bounded retention for slot-based consensus.
//!
//! A signer is allowed to produce at most one header per slot.  The tracker
//! remembers recently seen `(slot, signer, header)` triples in an external
//! key-value store and reports a proof when the same signer produces two
//! headers with different hashes for the same slot.  Old slots are pruned in
//! batches so that storage stays bounded.

pub mod aux_schema;
pub mod codec;
pub mod laws;
pub mod store;
pub mod types;

pub use aux_schema::check_equivocation;
pub use aux_schema::MAX_SLOT_CAPACITY;
pub use aux_schema::PRUNING_BOUND;
pub use store::AuxStore;
pub use store::MemoryStore;

pub use types::EquivocationProof;
pub use types::Header;
pub use types::SignerId;
pub use types::SlotEntry;
pub use types::TrackerError;
