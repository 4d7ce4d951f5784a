//! Module ids and the sources of the package being built.

use vstd::prelude::*;
use crate::module::ModPath;
use crate::package::PackageId;
use crate::text::{char_len_utf8, char_width, chars_of, utf8_len, lemma_utf8_len_take_step,
    lemma_utf8_len_take_le};

verus! {

/// A module id, unique across packages.
///
/// Layout of the `u64`:
///   - a module of the package being built: `(0 << 32) | sequential_id`
///     (the high 32 bits are 0);
///   - a module of another package: `(pkg_id << 32) | module_sym_idx`, where
///     `module_sym_idx` is the module's symbol index in that package's
///     `.biwameta`.
///
/// Other packages always have `pkg_id >= 1`, so the two never collide.
#[derive(Debug, Clone, Copy, PartialEq, Eq, PartialOrd, Ord, Hash, Structural)]
pub struct ModId(pub u64);

impl ModId {
    /// A module of the package being built, from its sequential index.
    #[inline]
    pub fn new_in_self(id: u32) -> (r: Self)
        ensures
            r.0 == id as u64,
    {
        ModId(id as u64)
    }

    /// A module of another package, from its package id and symbol index.
    #[inline]
    pub fn new_ext(pkg_id: u32, module_sym_idx: u32) -> (r: Self)
        ensures
            r.0 == ((pkg_id as u64) << 32u64) | (module_sym_idx as u64),
    {
        ModId(((pkg_id as u64) << 32u64) | (module_sym_idx as u64))
    }

    /// Whether the module belongs to the package being built (high 32 bits 0).
    #[inline]
    pub fn is_self_pkg(&self) -> (r: bool)
        ensures
            r == ((self.0 >> 32u64) == 0),
    {
        (self.0 >> 32u64) == 0
    }

    /// The package id kept in the high 32 bits (0 for the package being built).
    #[inline]
    pub fn pkg_id_bits(&self) -> (r: u32)
        ensures
            r == (self.0 >> 32u64) as u32,
    {
        (self.0 >> 32u64) as u32
    }

    /// The symbol index kept in the low 32 bits: the sequential id for the
    /// package being built, the module's symbol index otherwise.
    #[inline]
    pub fn sym_idx(&self) -> (r: u32)
        ensures
            r == (self.0 & 0xFFFF_FFFFu64) as u32,
    {
        (self.0 & 0xFFFF_FFFFu64) as u32
    }
}

/// The parts of a module id read back what it was made from, and ids made
/// from different parts differ.
pub proof fn lemma_mod_id_parts(pkg_id: u32, sym: u32, id: u32)
    ensures
        ((((pkg_id as u64) << 32u64) | (sym as u64)) >> 32u64) as u32 == pkg_id,
        ((((pkg_id as u64) << 32u64) | (sym as u64)) & 0xFFFF_FFFFu64) as u32 == sym,
        (((id as u64) >> 32u64) == 0),
        ((id as u64) & 0xFFFF_FFFFu64) as u32 == id,
        ((((pkg_id as u64) << 32u64) | (sym as u64)) >> 32u64 == 0) <==> pkg_id == 0,
{
    assert(((((pkg_id as u64) << 32u64) | (sym as u64)) >> 32u64) as u32 == pkg_id) by (bit_vector);
    assert(((((pkg_id as u64) << 32u64) | (sym as u64)) & 0xFFFF_FFFFu64) as u32 == sym) by (bit_vector);
    assert((((id as u64) >> 32u64) == 0)) by (bit_vector);
    assert(((id as u64) & 0xFFFF_FFFFu64) as u32 == id) by (bit_vector);
    assert(((((pkg_id as u64) << 32u64) | (sym as u64)) >> 32u64 == 0) <==> pkg_id == 0) by (bit_vector);
}

/// The number of characters of `cs` that start before byte `b`, when the
/// first character starts at byte `base`.
pub open spec fn spec_chars_before(cs: Seq<char>, b: int, base: int) -> nat
    decreases cs.len(),
{
    if cs.len() == 0 || base >= b {
        0
    } else {
        1 + spec_chars_before(cs.drop_first(), b, base + char_width(cs[0]))
    }
}

#[derive(Debug)]
pub struct ModSource {
    pub pkg_id: PackageId,
    pub modu: ModPath,
    pub src: String,
}

impl ModSource {
    /// Turns a byte offset into the number of characters before it.
    ///
    /// Spans keep byte offsets into the source, while the diagnostic
    /// renderer counts characters; without this, every position after a
    /// multi-byte character would be off. An offset that is not on a
    /// character boundary counts the characters that start before it.
    pub fn char_offset(&self, byte_offset: usize) -> (r: usize)
        requires
            utf8_len(self.src@) <= usize::MAX,
        ensures
            r == spec_chars_before(self.src@, byte_offset as int, 0),
    {
        let cs = chars_of(self.src.as_str());
        let ghost whole = cs@;
        let mut i: usize = 0;
        let mut off: usize = 0;
        assert(whole.skip(0) =~= whole);
        assert(whole.take(0) =~= Seq::<char>::empty());
        while i < cs.len() && off < byte_offset
            invariant
                cs@ == whole,
                whole == self.src@,
                utf8_len(whole) <= usize::MAX,
                i <= whole.len(),
                off == utf8_len(whole.take(i as int)),
                spec_chars_before(whole, byte_offset as int, 0) == i + spec_chars_before(
                    whole.skip(i as int),
                    byte_offset as int,
                    off as int,
                ),
            decreases whole.len() - i,
        {
            proof {
                lemma_utf8_len_take_step(whole, i as int);
                lemma_utf8_len_take_le(whole, i + 1);
                assert(whole.skip(i as int).drop_first() =~= whole.skip(i + 1));
            }
            off = off + char_len_utf8(cs[i]);
            i = i + 1;
        }
        i
    }
}

/// The sources of the package being built, by module id.
#[derive(Debug, Default)]
pub struct SourceHolder {
    pub mods: Vec<(ModId, ModSource)>,
}

} // verus!
