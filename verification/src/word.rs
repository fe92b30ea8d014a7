//! A concrete 256-bit word, stored as four 64-bit limbs (least
//! significant first).  This is the word carrier used throughout the
//! abstract domain: stack slots either hold a known `W256` or nothing.

use vstd::prelude::*;

verus! {

/// A 256-bit unsigned word as four little-endian 64-bit limbs.
#[derive(Clone, Copy, Debug, PartialEq, Eq, Structural)]
pub struct W256 {
    pub l0: u64,
    pub l1: u64,
    pub l2: u64,
    pub l3: u64,
}

impl W256 {
    /// The mathematical value of this word.
    pub open spec fn value(self) -> int {
        self.l0 + self.l1 * 0x1_0000_0000_0000_0000
            + self.l2 * 0x1_0000_0000_0000_0000_0000_0000_0000_0000
            + self.l3 * 0x1_0000_0000_0000_0000_0000_0000_0000_0000_0000_0000_0000_0000
    }

    /// Build a word from four little-endian limbs.
    pub fn from_limbs(l0: u64, l1: u64, l2: u64, l3: u64) -> (r: W256)
        ensures
            r == (W256 { l0, l1, l2, l3 }),
    {
        W256 { l0, l1, l2, l3 }
    }

    /// Build a word holding a small (native) value.
    pub fn from_usize(v: usize) -> (r: W256)
        ensures
            r.value() == v,
    {
        W256 { l0: v as u64, l1: 0, l2: 0, l3: 0 }
    }

    /// Convert back to a native value, if the word fits.
    pub fn as_native(&self) -> (r: Option<usize>)
        ensures
            r is Some <==> self.value() <= usize::MAX,
            r is Some ==> r->0 == self.value(),
    {
        if self.l1 == 0 && self.l2 == 0 && self.l3 == 0 && self.l0 <= usize::MAX as u64 {
            assert(self.value() == self.l0);
            Some(self.l0 as usize)
        } else {
            assert(self.l1 != 0 || self.l2 != 0 || self.l3 != 0 ==> self.value() >= 0x1_0000_0000_0000_0000) by (nonlinear_arith);
            None
        }
    }

    /// The bit width kept by this word when it is one of the canonical
    /// low-bit masks, and `0` for every other word.
    pub open spec fn spec_mask_width(self) -> usize {
        if self == (W256 { l0: 0x1, l1: 0, l2: 0, l3: 0 }) {
            1
        } else if self == (W256 { l0: 0x1f, l1: 0, l2: 0, l3: 0 }) {
            5
        } else if self == (W256 { l0: 0xff, l1: 0, l2: 0, l3: 0 }) {
            8
        } else if self == (W256 { l0: 0xffff, l1: 0, l2: 0, l3: 0 }) {
            16
        } else if self == (W256 { l0: 0xff_ffff, l1: 0, l2: 0, l3: 0 }) {
            24
        } else if self == (W256 { l0: 0xffff_ffff, l1: 0, l2: 0, l3: 0 }) {
            32
        } else if self == (W256 { l0: 0xffff_ffff_ffff_ffff, l1: 0, l2: 0, l3: 0 }) {
            64
        } else if self == (W256 { l0: 0xffff_ffff_ffff_ffff, l1: 0xffff_ffff_ffff_ffff, l2: 0, l3: 0 }) {
            128
        } else if self == (W256 { l0: 0xffff_ffff_ffff_ffff, l1: 0xffff_ffff_ffff_ffff, l2: 0xffff_ffff, l3: 0 }) {
            160
        } else {
            0
        }
    }

    /// Recognise the canonical low-bit masks (1, 5, 8, 16, 24, 32, 64,
    /// 128 and 160 bits); every other word yields `0`.
    pub fn as_bit_mask(&self) -> (r: usize)
        ensures
            r == self.spec_mask_width(),
    {
        if self.l3 != 0 {
            0
        } else if self.l2 == 0xffff_ffff && self.l1 == 0xffff_ffff_ffff_ffff && self.l0 == 0xffff_ffff_ffff_ffff {
            160
        } else if self.l2 != 0 {
            0
        } else if self.l1 == 0xffff_ffff_ffff_ffff && self.l0 == 0xffff_ffff_ffff_ffff {
            128
        } else if self.l1 != 0 {
            0
        } else if self.l0 == 0x1 {
            1
        } else if self.l0 == 0x1f {
            5
        } else if self.l0 == 0xff {
            8
        } else if self.l0 == 0xffff {
            16
        } else if self.l0 == 0xff_ffff {
            24
        } else if self.l0 == 0xffff_ffff {
            32
        } else if self.l0 == 0xffff_ffff_ffff_ffff {
            64
        } else {
            0
        }
    }

    /// Compare two words by their mathematical value.
    pub fn lt(&self, other: &W256) -> (r: bool)
        ensures
            r == (self.value() < other.value()),
    {
        proof {
            lemma_limb_order(*self, *other);
        }
        if self.l3 != other.l3 {
            self.l3 < other.l3
        } else if self.l2 != other.l2 {
            self.l2 < other.l2
        } else if self.l1 != other.l1 {
            self.l1 < other.l1
        } else {
            self.l0 < other.l0
        }
    }
}

/// Words with the same mathematical value have the same limbs.
pub proof fn lemma_value_injective(a: W256, b: W256)
    ensures
        a.value() == b.value() ==> a == b,
{
    lemma_limb_order(a, b);
    lemma_limb_order(b, a);
}

/// Lexicographic limb order (most significant first) agrees with the
/// order of word values.
proof fn lemma_limb_order(a: W256, b: W256)
    ensures
        a.l3 < b.l3 ==> a.value() < b.value(),
        a.l3 == b.l3 && a.l2 < b.l2 ==> a.value() < b.value(),
        a.l3 == b.l3 && a.l2 == b.l2 && a.l1 < b.l1 ==> a.value() < b.value(),
        a.l3 == b.l3 && a.l2 == b.l2 && a.l1 == b.l1 && a.l0 < b.l0 ==> a.value() < b.value(),
        a.l3 == b.l3 && a.l2 == b.l2 && a.l1 == b.l1 && a.l0 == b.l0 ==> a.value() == b.value(),
{
    assert(a.l3 < b.l3 ==> a.value() < b.value()) by (nonlinear_arith);
    assert(a.l3 == b.l3 && a.l2 < b.l2 ==> a.value() < b.value()) by (nonlinear_arith);
    assert(a.l3 == b.l3 && a.l2 == b.l2 && a.l1 < b.l1 ==> a.value() < b.value()) by (nonlinear_arith);
}

} // verus!
