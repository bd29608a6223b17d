//! Generation-tagged entity identifiers.

use vstd::prelude::*;

verus! {

/// Width of the index field, the high bits of an identifier.
pub const INDEX_BITS: u32 = 21;

/// Width of the generation field, the low bits of an identifier.
pub const GENERATION_BITS: u32 = 43;

/// The ones of an index, in the low bits.
pub const INDEX_MASK: u64 = 0x1f_ffff;

/// The ones of a generation.
pub const GENERATION_MASK: u64 = 0x7ff_ffff_ffff;

/// A 64-bit identifier: a 21-bit slot index above a 43-bit generation.
///
/// The generation tells successive occupants of one slot apart. Generation
/// zero is never issued, so the all-zero identifier stands for "no entity".
#[derive(Clone, Copy, Debug, PartialEq, Eq, Structural, Hash)]
pub struct Entity(pub u64);

impl Entity {
    /// The index field.
    pub open spec fn spec_index(&self) -> u32 {
        ((self.0 >> 43u64) & INDEX_MASK) as u32
    }

    /// The generation field.
    pub open spec fn spec_generation(&self) -> u64 {
        self.0 & GENERATION_MASK
    }

    /// The identifier names no entity: its generation is zero.
    pub open spec fn spec_is_none(&self) -> bool {
        self.spec_generation() == 0
    }

    /// Packs an index and a generation; each is cut to its field's width.
    pub fn new(index: u32, generation: u64) -> (e: Self)
        ensures
            e.index() == index % 0x20_0000,
            e.generation() == generation % 0x800_0000_0000,
    {
        let idx: u64 = (index as u64) & INDEX_MASK;
        let g: u64 = generation & GENERATION_MASK;
        let raw: u64 = (idx << 43u64) | g;
        assert(((raw >> 43u64) & 0x1f_ffffu64) as u32 == index % 0x20_0000u32 && raw & 0x7ff_ffff_ffffu64
            == generation % 0x800_0000_0000u64) by (bit_vector)
            requires
                raw == (((index as u64) & 0x1f_ffffu64) << 43u64) | (generation & 0x7ff_ffff_ffffu64),
        ;
        Entity(raw)
    }

    /// The reserved identifier that names no entity.
    pub fn none() -> (e: Self)
        ensures
            e.0 == 0,
            e.is_none(),
            e.index() == 0,
    {
        assert(0u64 & 0x7ff_ffff_ffffu64 == 0 && ((0u64 >> 43u64) & 0x1f_ffffu64) as u32 == 0u32)
            by (bit_vector);
        Entity(0)
    }

    /// Whether the identifier names no entity.
    #[verifier::when_used_as_spec(spec_is_none)]
    pub fn is_none(&self) -> (b: bool)
        ensures
            b == self.spec_is_none(),
    {
        self.generation() == 0
    }

    /// The slot that the entity occupies in the entity storage.
    #[verifier::when_used_as_spec(spec_index)]
    pub fn index(&self) -> (i: u32)
        ensures
            i == self.spec_index(),
            i < 0x20_0000,
    {
        let raw = self.0;
        assert((raw >> 43u64) & 0x1f_ffffu64 < 0x20_0000u64) by (bit_vector);
        ((self.0 >> 43u64) & INDEX_MASK) as u32
    }

    /// Replaces the index and keeps the generation.
    pub fn set_index(&mut self, index: u32)
        ensures
            final(self).index() == index % 0x20_0000,
            final(self).generation() == old(self).generation(),
    {
        let idx: u64 = (index as u64) & INDEX_MASK;
        let before: u64 = self.0;
        let raw: u64 = (before & GENERATION_MASK) | (idx << 43u64);
        assert(((raw >> 43u64) & 0x1f_ffffu64) as u32 == index % 0x20_0000u32 && raw & 0x7ff_ffff_ffffu64
            == before & 0x7ff_ffff_ffffu64) by (bit_vector)
            requires
                raw == (before & 0x7ff_ffff_ffffu64) | (((index as u64) & 0x1f_ffffu64) << 43u64),
        ;
        self.0 = raw;
    }

    /// The generation that tells this occupant of the slot from the others.
    #[verifier::when_used_as_spec(spec_generation)]
    pub fn generation(&self) -> (g: u64)
        ensures
            g == self.spec_generation(),
            g < 0x800_0000_0000,
    {
        let raw = self.0;
        assert(raw & 0x7ff_ffff_ffffu64 < 0x800_0000_0000u64) by (bit_vector);
        self.0 & GENERATION_MASK
    }

    /// Replaces the generation and keeps the index.
    pub fn set_generation(&mut self, generation: u64)
        ensures
            final(self).generation() == generation % 0x800_0000_0000,
            final(self).index() == old(self).index(),
    {
        let g: u64 = generation & GENERATION_MASK;
        let before: u64 = self.0;
        let raw: u64 = (before & !GENERATION_MASK) | g;
        assert(raw & 0x7ff_ffff_ffffu64 == generation % 0x800_0000_0000u64 && ((raw >> 43u64)
            & 0x1f_ffffu64) as u32 == ((before >> 43u64) & 0x1f_ffffu64) as u32) by (bit_vector)
            requires
                raw == (before & !0x7ff_ffff_ffffu64) | (generation & 0x7ff_ffff_ffffu64),
        ;
        self.0 = raw;
    }
}

impl Default for Entity {
    fn default() -> (e: Self)
        ensures
            e.0 == 0,
    {
        Entity(0)
    }
}

/// An identifier is its index and its generation and nothing more: packing
/// the two fields of `e` again gives `e` back, so two identifiers that agree
/// on both fields are equal.
pub proof fn lemma_entity_fields_determine(a: Entity, b: Entity)
    requires
        a.index() == b.index(),
        a.generation() == b.generation(),
    ensures
        a == b,
{
    let x = a.0;
    let y = b.0;
    assert(x == y) by (bit_vector)
        requires
            ((x >> 43u64) & 0x1f_ffffu64) as u32 == ((y >> 43u64) & 0x1f_ffffu64) as u32,
            x & 0x7ff_ffff_ffffu64 == y & 0x7ff_ffff_ffffu64,
    ;
}

} // verus!
