//! Entity identity and joint configuration.

use vstd::prelude::*;

verus! {

/// The shared identity of one widget across layout, physics and rendering.
///
/// An entity id is a slot-map key: a slot index plus the generation
/// (`version`) of that slot. Ids are ordered by index first, then by version.
#[derive(Debug, Clone, Copy, PartialEq, Eq, Hash, Structural)]
pub struct EntityId {
    pub idx: u32,
    pub version: u32,
}

/// Strict order on entity ids: by slot index, then by version.
pub open spec fn entity_lt(a: EntityId, b: EntityId) -> bool {
    a.idx < b.idx || (a.idx == b.idx && a.version < b.version)
}

/// The 64-bit packed form of an entity id: version in the high half, index in the low half.
pub open spec fn entity_bits(e: EntityId) -> int {
    e.version * 0x1_0000_0000 + e.idx
}

impl EntityId {
    /// Builds an entity id from its slot index and version.
    pub fn new(idx: u32, version: u32) -> (e: EntityId)
        ensures
            e.idx == idx,
            e.version == version,
    {
        EntityId { idx, version }
    }

    /// Decodes the packed 64-bit form (version in the high 32 bits, index in the low 32).
    pub fn from_ffi(bits: u64) -> (e: EntityId)
        ensures
            e.idx == bits % 0x1_0000_0000,
            e.version == bits / 0x1_0000_0000,
            entity_bits(e) == bits,
    {
        let idx = (bits % 0x1_0000_0000u64) as u32;
        let version = (bits / 0x1_0000_0000u64) as u32;
        assert(bits == (bits / 0x1_0000_0000u64) * 0x1_0000_0000 + bits % 0x1_0000_0000u64) by (nonlinear_arith);
        EntityId { idx, version }
    }

    /// Packs the id into 64 bits: version in the high 32 bits, index in the low 32.
    pub fn as_ffi(&self) -> (bits: u64)
        ensures
            bits == entity_bits(*self),
    {
        assert(self.version * 0x1_0000_0000 + self.idx <= u64::MAX) by (nonlinear_arith)
            requires
                self.version <= u32::MAX,
                self.idx <= u32::MAX,
        ;
        (self.version as u64) * 0x1_0000_0000u64 + (self.idx as u64)
    }

    /// True when `self` orders strictly before `other`.
    pub fn less_than(&self, other: &EntityId) -> (r: bool)
        ensures
            r == entity_lt(*self, *other),
    {
        self.idx < other.idx || (self.idx == other.idx && self.version < other.version)
    }
}

/// Packing an id and decoding the packed form gives the id back: the packed
/// form fits in 64 bits, its low half is the index and its high half the version.
pub proof fn law_packing_round_trips(e: EntityId)
    ensures
        0 <= entity_bits(e) <= u64::MAX,
        entity_bits(e) % 0x1_0000_0000 == e.idx,
        entity_bits(e) / 0x1_0000_0000 == e.version,
{
    let (v, i) = (e.version as int, e.idx as int);
    assert(0 <= v * 0x1_0000_0000 + i <= u64::MAX) by (nonlinear_arith)
        requires
            0 <= v <= u32::MAX,
            0 <= i <= u32::MAX,
    ;
    vstd::arithmetic::div_mod::lemma_fundamental_div_mod_converse(v * 0x1_0000_0000 + i, 0x1_0000_0000, v, i);
}

/// The joint type between a child body and its parent body.
#[derive(Debug, Clone, Copy, PartialEq, Eq, Structural)]
pub enum JointType {
    /// Child is rigidly welded to its parent and moves identically.
    Fixed,
    /// Child follows its parent via a spring force: lags, jiggles, settles.
    Spring,
    /// Child is detached and governed only by its own forces.
    Free,
}

impl Default for JointType {
    fn default() -> (j: JointType)
        ensures
            j == JointType::Fixed,
    {
        JointType::Fixed
    }
}

} // verus!
