//! Field elements in Montgomery form and the linear-time operations on them:
//! identity elements, reduction, addition, subtraction, negation, doubling.

use vstd::prelude::*;
use vstd::arithmetic::div_mod::{
    lemma_small_mod, lemma_fundamental_div_mod_converse, lemma_mod_bound,
    lemma_mod_add_multiples_vanish,
};
use crate::limbs::Repr;
use crate::params::FieldParams;

verus! {

/// One element of the prime field, held as the Montgomery encoding
/// `a * R mod m` of its logical value `a`, always reduced below the modulus.
#[derive(Debug, PartialEq, Eq)]
pub struct FieldElement(pub Repr);

impl Clone for FieldElement {
    fn clone(&self) -> (r: FieldElement)
        ensures
            r@ == self@,
    {
        FieldElement(self.0.clone())
    }
}

impl View for FieldElement {
    type V = Seq<u64>;

    open spec fn view(&self) -> Seq<u64> {
        self.0@
    }
}

impl FieldElement {
    /// The Montgomery representative this element holds, as a number.
    pub open spec fn value(&self) -> nat {
        self.0.value()
    }

    /// A proper element of the field described by `p`: correctly sized and
    /// reduced below the modulus.
    pub open spec fn wf(&self, p: &FieldParams) -> bool {
        self@.len() == p.nlimbs() && self.value() < p.m()
    }

    /// The additive identity: the Montgomery encoding of zero is zero.
    pub fn zero(p: &FieldParams) -> (r: FieldElement)
        requires
            p.wf(),
        ensures
            r.wf(p),
            r.value() == 0,
    {
        FieldElement(Repr::from_u64(0, p.modulus.limbs.len()))
    }

    /// The multiplicative identity: the Montgomery encoding of one is `R`.
    pub fn one(p: &FieldParams) -> (r: FieldElement)
        requires
            p.wf(),
        ensures
            r.wf(p),
            r.value() == p.r_val(),
    {
        proof {
            lemma_mod_bound(p.cap() as int, p.m() as int);
        }
        FieldElement(p.r.clone())
    }

    /// Whether this is the zero element.
    pub fn is_zero(&self) -> (r: bool)
        ensures
            r == (self.value() == 0),
    {
        self.0.is_zero()
    }

    /// Whether the held representative is reduced, i.e. below the modulus.
    pub fn is_valid(&self, p: &FieldParams) -> (r: bool)
        requires
            self@.len() == p.nlimbs(),
        ensures
            r == (self.value() < p.m()),
    {
        self.0.lt(&p.modulus)
    }

    /// Subtracts the modulus once if the representative is not reduced.
    /// Restores the invariant after an operation that left a value below
    /// `2 * m`.
    pub(crate) fn reduce(&mut self, p: &FieldParams)
        requires
            p.wf(),
            old(self)@.len() == p.nlimbs(),
            old(self).value() < 2 * p.m(),
        ensures
            final(self).wf(p),
            final(self).value() == old(self).value() % p.m(),
    {
        let valid = self.0.lt(&p.modulus);
        if !valid {
            let underflow = self.0.sub_noborrow(&p.modulus);
            proof {
                assert(!underflow);
                lemma_fundamental_div_mod_converse(
                    old(self).value() as int,
                    p.m() as int,
                    1,
                    old(self).value() - p.m(),
                );
            }
        } else {
            proof {
                lemma_small_mod(old(self).value(), p.m());
            }
        }
    }

    /// Modular addition: adds the other representative and reduces once.
    /// The limb addition cannot overflow the backing width because both
    /// operands are below `m` and `2 * m` fits by construction.
    pub fn add_assign(&mut self, other: &FieldElement, p: &FieldParams)
        requires
            p.wf(),
            old(self).wf(p),
            other.wf(p),
        ensures
            final(self).wf(p),
            final(self).value() == (old(self).value() + other.value()) % p.m(),
    {
        let overflow = self.0.add_nocarry(&other.0);
        proof {
            assert(!overflow);
        }
        self.reduce(p);
    }

    /// Modular doubling: shifts left by one bit and reduces once.  The shift
    /// cannot lose the top bit because `2 * m` fits the backing width.
    pub fn double(&mut self, p: &FieldParams)
        requires
            p.wf(),
            old(self).wf(p),
        ensures
            final(self).wf(p),
            final(self).value() == (2 * old(self).value()) % p.m(),
    {
        self.0.mul2();
        self.reduce(p);
    }

    /// Modular subtraction: if the subtrahend is larger, first adds the
    /// modulus so the limb subtraction cannot borrow past the top.
    pub fn sub_assign(&mut self, other: &FieldElement, p: &FieldParams)
        requires
            p.wf(),
            old(self).wf(p),
            other.wf(p),
        ensures
            final(self).wf(p),
            final(self).value() as int == (old(self).value() + p.m() - other.value()) % (p.m() as int),
    {
        let ghost a = old(self).value();
        let ghost b = other.value();
        let ghost m = p.m();
        if self.0.lt(&other.0) {
            let overflow = self.0.add_nocarry(&p.modulus);
            proof {
                assert(!overflow);
            }
        }
        let underflow = self.0.sub_noborrow(&other.0);
        proof {
            assert(!underflow);
            assert(self.value() == a + (if a < b {
                m as int
            } else {
                0
            }) - b);
            if a < b {
                assert(self.value() == a + m - b);
                assert(self.value() < m);
                lemma_small_mod((a + m - b) as nat, m);
            } else {
                assert(self.value() == a - b);
                lemma_mod_add_multiples_vanish(a - b, m as int);
                assert((a + m - b) % m as int == (a - b) % m as int);
                lemma_small_mod((a - b) as nat, m);
            }
        }
    }

    /// Modular negation: maps zero to zero and any other element to
    /// `m - value`.
    pub fn negate(&mut self, p: &FieldParams)
        requires
            p.wf(),
            old(self).wf(p),
        ensures
            final(self).wf(p),
            final(self).value() as int == (p.m() - old(self).value()) % (p.m() as int),
    {
        let ghost a = old(self).value();
        let ghost m = p.m();
        if !self.is_zero() {
            let mut tmp = p.modulus.clone();
            let underflow = tmp.sub_noborrow(&self.0);
            proof {
                assert(!underflow);
            }
            self.0 = tmp;
            proof {
                assert(self.value() == m - a);
                lemma_small_mod((m - a) as nat, m);
            }
        } else {
            proof {
                assert(m % m == 0) by {
                    lemma_fundamental_div_mod_converse(m as int, m as int, 1, 0);
                }
            }
        }
    }

    /// The supplied multiplicative generator and quadratic nonresidue, as a
    /// field element.
    pub fn multiplicative_generator(p: &FieldParams) -> (r: FieldElement)
        requires
            p.wf(),
        ensures
            r.wf(p),
            r.value() == p.generator.value(),
    {
        FieldElement(p.generator.clone())
    }

    /// The derived `2^s`-th root of unity, as a field element.
    pub fn root_of_unity(p: &FieldParams) -> (r: FieldElement)
        requires
            p.wf(),
        ensures
            r.wf(p),
            r.value() == p.root_of_unity.value(),
    {
        FieldElement(p.root_of_unity.clone())
    }

    /// The Frobenius endomorphism, which is the identity on a prime field.
    pub fn frobenius_map(&mut self, power: usize)
        ensures
            final(self)@ == old(self)@,
    {
        let _ = power;
    }
}

} // verus!
