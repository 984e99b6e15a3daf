//! Operation stamps: a 63-bit sequence number tagged with a tombstone flag.

use vstd::prelude::*;

verus! {

/// The flag that marks a deletion: the most significant bit of the stamp.
pub const TOMBSTONE_BIT: u64 = 0x8000_0000_0000_0000;

/// The bits that hold the sequence number: every bit below the flag.
pub const SEQ_MASK: u64 = 0x7fff_ffff_ffff_ffff;

/// A versioned operation identifier.
///
/// The low 63 bits are a sequence number; the top bit says whether the
/// operation was a deletion. Two stamps for the same key are ordered by
/// their sequence numbers only.
#[derive(Debug, Clone, Copy, PartialEq, Eq, PartialOrd, Ord)]
pub struct Opstamp(pub u64);

impl Opstamp {
    /// The sequence number of the stamp: its value without the flag.
    pub open spec fn spec_sequence(&self) -> u64 {
        (self.0 % 0x8000_0000_0000_0000) as u64
    }

    /// Whether the stamp records a deletion: its value reaches the flag.
    pub open spec fn spec_is_deletion(&self) -> bool {
        self.0 >= 0x8000_0000_0000_0000
    }

    /// The stamp of a deletion with the given sequence number.
    pub fn deletion(seq: u64) -> (stamp: Opstamp)
        ensures
            stamp.spec_is_deletion(),
            stamp.spec_sequence() == seq % 0x8000_0000_0000_0000,
            stamp.0 == seq % 0x8000_0000_0000_0000 + 0x8000_0000_0000_0000,
    {
        assert((seq | 0x8000_0000_0000_0000u64) == (seq % 0x8000_0000_0000_0000u64)
            + 0x8000_0000_0000_0000u64) by (bit_vector);
        Opstamp(seq | TOMBSTONE_BIT)
    }

    /// The stamp of an insertion with the given sequence number.
    pub fn insertion(seq: u64) -> (stamp: Opstamp)
        ensures
            !stamp.spec_is_deletion(),
            stamp.spec_sequence() == seq % 0x8000_0000_0000_0000,
            stamp.0 == seq % 0x8000_0000_0000_0000,
    {
        assert((seq & 0x7fff_ffff_ffff_ffffu64) == seq % 0x8000_0000_0000_0000u64)
            by (bit_vector);
        Opstamp(seq & SEQ_MASK)
    }

    /// Tells whether the tombstone flag is set.
    #[verifier::when_used_as_spec(spec_is_deletion)]
    pub fn is_deletion(&self) -> (deleted: bool)
        ensures
            deleted == self.spec_is_deletion(),
    {
        let raw: u64 = self.0;
        assert(((raw & 0x8000_0000_0000_0000u64) != 0) == (raw >= 0x8000_0000_0000_0000u64))
            by (bit_vector);
        (self.0 & TOMBSTONE_BIT) != 0
    }

    /// Returns the sequence number, with the tombstone flag cleared.
    #[verifier::when_used_as_spec(spec_sequence)]
    pub fn sequence(&self) -> (seq: u64)
        ensures
            seq == self.spec_sequence(),
            seq < 0x8000_0000_0000_0000,
    {
        let raw: u64 = self.0;
        assert((raw & 0x7fff_ffff_ffff_ffffu64) == raw % 0x8000_0000_0000_0000u64)
            by (bit_vector);
        self.0 & SEQ_MASK
    }

    /// Wraps a raw 64-bit value, flag included, as it is stored on disk.
    pub fn from(value: u64) -> (stamp: Opstamp)
        ensures
            stamp.0 == value,
    {
        Opstamp(value)
    }

    /// The raw 64-bit value, flag included.
    pub fn value(&self) -> (raw: u64)
        ensures
            raw == self.0,
    {
        self.0
    }
}

/// Stamps handed out in order stay in order: of two sequence numbers below
/// the flag, the later one gives the greater sequence, whichever of the two
/// operations was an insertion or a deletion.
pub proof fn lemma_sequence_monotonic(earlier: u64, later: u64)
    requires
        earlier < later,
        later < 0x8000_0000_0000_0000,
    ensures
        Opstamp(earlier).spec_sequence() < Opstamp(later).spec_sequence(),
        Opstamp(earlier).spec_sequence() < Opstamp(
            (later + 0x8000_0000_0000_0000) as u64,
        ).spec_sequence(),
        Opstamp((earlier + 0x8000_0000_0000_0000) as u64).spec_sequence() < Opstamp(
            later,
        ).spec_sequence(),
        Opstamp((earlier + 0x8000_0000_0000_0000) as u64).spec_sequence() < Opstamp(
            (later + 0x8000_0000_0000_0000) as u64,
        ).spec_sequence(),
{
}

} // verus!
