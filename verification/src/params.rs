//! The derived constants of one prime field: the modulus, the Montgomery
//! factors, and the square-root bookkeeping, computed once from
//! `(modulus, generator, limb_count)` and shared immutably by every element
//! of that field.

use vstd::prelude::*;
use vstd::arithmetic::power2::pow2;
use crate::limbs::Repr;

verus! {

/// The constants of one prime field instance.
///
/// All `Repr` fields are `limb_count` limbs wide.  `r` is `2^(64*limb_count)
/// mod m`, `r2` its square mod `m`, `inv` is `-m^-1 mod 2^64`, `generator`
/// and `root_of_unity` are Montgomery encodings, and `m - 1 = t * 2^s` with
/// `t` odd.
pub struct FieldParams {
    pub modulus: Repr,
    pub modulus_bits: u32,
    pub repr_shave_bits: u32,
    pub r: Repr,
    pub r2: Repr,
    pub inv: u64,
    pub generator: Repr,
    pub s: u32,
    pub t: Repr,
    pub root_of_unity: Repr,
}

impl FieldParams {
    /// Number of 64-bit limbs backing every element of this field.
    pub open spec fn nlimbs(&self) -> nat {
        self.modulus@.len()
    }

    /// The modulus as a number.
    pub open spec fn m(&self) -> nat {
        self.modulus.value()
    }

    /// The Montgomery factor `R = 2^(64*limb_count) mod m` as a number.
    pub open spec fn r_val(&self) -> nat {
        self.r.value()
    }

    /// Capacity of the backing representation: `2^(64*limb_count)`.
    pub open spec fn cap(&self) -> nat {
        pow2(64 * self.nlimbs())
    }

    /// The arithmetic relations every operation relies on: an odd modulus of
    /// at least 3 whose double fits the backing width, correctly derived
    /// Montgomery constants, and the odd-part decomposition of `m - 1`.
    pub open spec fn wf(&self) -> bool {
        &&& 1 <= self.nlimbs()
        &&& 64 * self.nlimbs() <= 0xffff_ffff
        &&& self.m() % 2 == 1
        &&& 3 <= self.m()
        &&& 2 * self.m() <= self.cap()
        &&& self.r@.len() == self.nlimbs()
        &&& self.r_val() == self.cap() % self.m()
        &&& self.r2@.len() == self.nlimbs()
        &&& self.r2.value() == (self.r_val() * self.r_val()) % self.m()
        &&& (self.inv as nat * (self.modulus@[0] as nat) + 1) % pow2(64) == 0
        &&& self.generator@.len() == self.nlimbs()
        &&& self.generator.value() < self.m()
        &&& self.t@.len() == self.nlimbs()
        &&& self.t.value() % 2 == 1
        &&& self.m() - 1 == self.t.value() * pow2(self.s as nat)
        &&& self.root_of_unity@.len() == self.nlimbs()
        &&& self.root_of_unity.value() < self.m()
        &&& self.m() < pow2(self.modulus_bits as nat)
        &&& self.modulus_bits >= 1
        &&& pow2((self.modulus_bits - 1) as nat) <= self.m()
        &&& self.modulus_bits <= 64 * self.nlimbs()
        &&& self.repr_shave_bits == 64 * self.nlimbs() - self.modulus_bits
    }

    /// The characteristic of the field: the modulus itself.
    pub fn char(&self) -> (r: Repr)
        ensures
            r@ == self.modulus@,
    {
        self.modulus.clone()
    }

    /// The number of bits needed to represent the modulus.
    pub fn num_bits(&self) -> (r: u32)
        ensures
            r == self.modulus_bits,
    {
        self.modulus_bits
    }

    /// How many bits of a canonical value can always be stored: one fewer
    /// than the modulus width.
    pub fn capacity(&self) -> (r: u32)
        requires
            self.wf(),
        ensures
            r == self.modulus_bits - 1,
    {
        self.modulus_bits - 1
    }

    /// The exponent of two in `m - 1 = t * 2^s`.
    pub fn two_adicity(&self) -> (r: u32)
        ensures
            r == self.s,
    {
        self.s
    }
}

} // verus!
