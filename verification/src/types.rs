//! Domain types of the equivocation tracker.
//!
//! Headers and signer identities are opaque to the tracker: of a header it
//! only ever reads the content hash, and of a signer only the identity value
//! used for equality.  Both are therefore carried as plain values.

use vstd::prelude::*;

verus! {

/// A block header, represented by its content hash.
///
/// The tracker compares headers by hash alone, so the hash is the only part
/// of a header it needs to carry.  The caller is responsible for supplying a
/// collision-free content hash.
#[derive(Clone, Copy, Debug, PartialEq, Eq, Structural)]
pub struct Header {
    /// The content hash of the header.
    pub hash: u64,
}

/// The identity of a block signer.  Only equality of identities matters to
/// the tracker.
#[derive(Clone, Copy, Debug, PartialEq, Eq, Structural)]
pub struct SignerId {
    /// The identity value; a digest of a public key in practice.
    pub id: u64,
}

/// A record that a signer produced a header for some slot.  The slot itself
/// is the index under which a list of these records is stored.
#[derive(Clone, Copy, Debug, PartialEq, Eq, Structural)]
pub struct SlotEntry {
    /// The recorded header.
    pub header: Header,
    /// Who produced it.
    pub signer: SignerId,
}

/// Evidence that one signer produced two different headers for one slot.
#[derive(Clone, Copy, Debug, PartialEq, Eq, Structural)]
pub struct EquivocationProof {
    /// The slot number where the equivocation happened.
    pub slot: u64,
    /// The header that was recorded first.
    pub fst_header: Header,
    /// The conflicting header seen later.
    pub snd_header: Header,
}

impl EquivocationProof {
    /// Get the slot number where the equivocation happened.
    pub fn slot(&self) -> (s: u64)
        ensures
            s == self.slot,
    {
        self.slot
    }

    /// Get the first header involved in the equivocation.
    pub fn fst_header(&self) -> (h: &Header)
        ensures
            h == self.fst_header,
    {
        &self.fst_header
    }

    /// Get the second header involved in the equivocation.
    pub fn snd_header(&self) -> (h: &Header)
        ensures
            h == self.snd_header,
    {
        &self.snd_header
    }
}

/// Why a call into the tracker failed.  No error is ever turned into a false
/// proof or a false "clean" result; ambiguity always propagates as an error.
#[derive(Clone, Copy, Debug, PartialEq, Eq, Structural)]
pub enum TrackerError {
    /// A stored value exists but does not decode under the expected schema.
    StorageCorrupted,
    /// The underlying store failed a read or a write.
    StoreUnavailable,
}

} // verus!
