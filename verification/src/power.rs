//! Modular exponentiation in the Montgomery domain by binary
//! square-and-multiply over the bits of a limb-vector exponent.

use vstd::prelude::*;
use vstd::arithmetic::power::{
    pow, lemma_pow_adds, lemma_pow_distributes, lemma_pow0, lemma_pow1,
};
use vstd::arithmetic::div_mod::{lemma_small_mod, lemma_fundamental_div_mod};
use crate::limbs::Repr;
use crate::params::FieldParams;
use crate::field::FieldElement;
use crate::modmath::{lemma_mod_mul_congruent, lemma_mod_pow_congruent, lemma_mod_cancel_cap_pow};

verus! {

/// The running claim of the square-and-multiply loop: with `erem` bits of
/// the exponent still unprocessed, the accumulator and the running square
/// satisfy `res * base^erem * R^e0 ≡ x^e0 * R^(1+erem)` modulo `m`.
spec fn pow_loop_inv(p: &FieldParams, xv: nat, e0: nat, resv: nat, basev: nat, erem: nat) -> bool {
    (resv * pow(basev as int, erem) * pow(p.r_val() as int, e0)) % (p.m() as int) == (pow(
        xv as int,
        e0,
    ) * pow(p.r_val() as int, (1 + erem) as nat)) % (p.m() as int)
}

/// One iteration of square-and-multiply preserves the running claim: after
/// folding in the lowest exponent bit and squaring the base, the claim holds
/// for the halved exponent.
proof fn lemma_pow_iter(
    p: &FieldParams,
    xv: nat,
    e0: nat,
    erem: nat,
    res0: nat,
    res1: nat,
    base0: nat,
    base1: nat,
)
    requires
        p.wf(),
        1 <= erem,
        erem % 2 == 1 ==> (res1 * p.cap()) % p.m() == (res0 * base0) % p.m(),
        erem % 2 == 0 ==> res1 == res0,
        (base1 * p.cap()) % p.m() == (base0 * base0) % p.m(),
        pow_loop_inv(p, xv, e0, res0, base0, erem),
    ensures
        pow_loop_inv(p, xv, e0, res1, base1, (erem / 2) as nat),
{
    let mi = p.m() as int;
    let cap = p.cap() as int;
    let rv = p.r_val() as int;
    let e1 = (erem / 2) as nat;
    let bit = (erem % 2) as nat;
    let kk = (e1 + bit) as nat;
    let prv = pow(rv, e0);
    let a_t = res1 as int * pow(base1 as int, e1) * prv;
    let b_t = pow(xv as int, e0) * pow(rv, (1 + e1) as nat);
    lemma_fundamental_div_mod(erem as int, 2);
    assert(erem == 2 * e1 + bit);
    lemma_pow_adds(cap, e1, bit);
    // fold the bit: res1 * cap^bit is congruent to res0 * base0^bit
    let c1 = res1 as int * pow(cap, bit);
    let c2 = res0 as int * pow(base0 as int, bit);
    if bit == 1 {
        lemma_pow1(cap);
        lemma_pow1(base0 as int);
        assert(c1 % mi == c2 % mi);
    } else {
        lemma_pow0(cap);
        lemma_pow0(base0 as int);
        assert(c1 == res1 as int);
        assert(c2 == res0 as int);
        assert(c1 % mi == c2 % mi);
    }
    // the squared base: base1^e1 * cap^e1 is congruent to base0^(2*e1)
    let x1 = pow(base1 as int * cap, e1);
    let x2 = pow(base0 as int * base0 as int, e1);
    let x3 = pow(base0 as int, (2 * e1) as nat);
    lemma_pow_distributes(base1 as int, cap, e1);
    assert(x1 == pow(base1 as int, e1) * pow(cap, e1));
    lemma_mod_pow_congruent(
        base1 as int * cap,
        base0 as int * base0 as int,
        e1,
        mi,
    );
    assert(x1 % mi == x2 % mi);
    lemma_pow_distributes(base0 as int, base0 as int, e1);
    lemma_pow_adds(base0 as int, e1, e1);
    assert(x2 == x3);
    // assemble the left side against cap^kk
    assert(a_t * pow(cap, kk) == c1 * (x1 * prv)) by (nonlinear_arith)
        requires
            pow(cap, kk) == pow(cap, e1) * pow(cap, bit),
            x1 == pow(base1 as int, e1) * pow(cap, e1),
            a_t == res1 as int * pow(base1 as int, e1) * prv,
            c1 == res1 as int * pow(cap, bit),
            prv == pow(rv, e0),
    {}
    assert((c1 * (x1 * prv)) % mi == (c1 * (x2 * prv)) % mi) by {
        lemma_mod_mul_congruent(x1, x2, c1 * prv, mi);
        assert(c1 * (x1 * prv) == x1 * (c1 * prv)) by (nonlinear_arith);
        assert(c1 * (x2 * prv) == x2 * (c1 * prv)) by (nonlinear_arith);
    }
    assert((c1 * (x2 * prv)) % mi == (c2 * (x2 * prv)) % mi) by {
        lemma_mod_mul_congruent(c1, c2, x2 * prv, mi);
    }
    // c2 * x3 * prv is the old claim's left side
    lemma_pow_adds(base0 as int, bit, (2 * e1) as nat);
    assert(c2 * (x2 * prv) == res0 as int * pow(base0 as int, erem) * prv) by (nonlinear_arith)
        requires
            x2 == x3,
            pow(base0 as int, (bit + 2 * e1) as nat) == pow(base0 as int, bit) * pow(
                base0 as int,
                (2 * e1) as nat,
            ),
            erem == bit + 2 * e1,
            c2 == res0 as int * pow(base0 as int, bit),
            x3 == pow(base0 as int, (2 * e1) as nat),
    {}
    let rhs_old = pow(xv as int, e0) * pow(rv, (1 + erem) as nat);
    assert((res0 as int * pow(base0 as int, erem) * prv) % mi == rhs_old % mi);
    // the right side against cap^kk collapses to the same quantity
    assert(cap % mi == rv % mi) by {
        lemma_small_mod(p.r_val(), p.m());
    }
    lemma_mod_pow_congruent(cap, rv, kk, mi);
    assert((b_t * pow(cap, kk)) % mi == (b_t * pow(rv, kk)) % mi) by {
        lemma_mod_mul_congruent(pow(cap, kk), pow(rv, kk), b_t, mi);
        assert(b_t * pow(cap, kk) == pow(cap, kk) * b_t) by (nonlinear_arith);
        assert(b_t * pow(rv, kk) == pow(rv, kk) * b_t) by (nonlinear_arith);
    }
    lemma_pow_adds(rv, (1 + e1) as nat, kk);
    assert(b_t * pow(rv, kk) == rhs_old) by (nonlinear_arith)
        requires
            b_t == pow(xv as int, e0) * pow(rv, (1 + e1) as nat),
            pow(rv, (1 + e1 + kk) as nat) == pow(rv, (1 + e1) as nat) * pow(rv, kk),
            rhs_old == pow(xv as int, e0) * pow(rv, (1 + e1 + kk) as nat),
    {}
    assert((a_t * pow(cap, kk)) % mi == (b_t * pow(cap, kk)) % mi);
    lemma_mod_cancel_cap_pow(p, kk, a_t, b_t);
}

impl FieldElement {
    /// Raises this element to the power given by a limb-vector exponent, in
    /// the Montgomery domain: the result satisfies
    /// `r * R^e ≡ self^e * R (mod m)`, which is the Montgomery encoding of
    /// the represented value raised to `e`.
    pub fn pow(&self, exp: &Repr, p: &FieldParams) -> (r: FieldElement)
        requires
            p.wf(),
            self.wf(p),
        ensures
            r.wf(p),
            (r.value() * pow(p.r_val() as int, exp.value())) % (p.m() as int) == (pow(
                self.value() as int,
                exp.value(),
            ) * p.r_val()) % (p.m() as int),
    {
        let ghost e0 = exp.value();
        let ghost xv = self.value();
        let mut result = FieldElement::one(p);
        let mut base = self.clone();
        let mut e = exp.clone();
        proof {
            let rv = p.r_val() as int;
            lemma_pow_adds(rv, e0, 1);
            lemma_pow1(rv);
            assert(result.value() as int * pow(xv as int, e0) * pow(rv, e0) == pow(xv as int, e0)
                * pow(rv, (1 + e0) as nat)) by (nonlinear_arith)
                requires
                    result.value() as int == rv,
                    pow(rv, (e0 + 1) as nat) == pow(rv, e0) * pow(rv, 1),
                    pow(rv, 1) == rv,
            {}
            assert(pow_loop_inv(p, xv, e0, result.value(), base.value(), e.value()));
        }
        while !e.is_zero()
            invariant
                p.wf(),
                xv == self.value(),
                result.wf(p),
                base.wf(p),
                e@.len() == exp@.len(),
                pow_loop_inv(p, xv, e0, result.value(), base.value(), e.value()),
            decreases e.value(),
        {
            let ghost erem = e.value();
            let ghost res0 = result.value();
            let ghost base0 = base.value();
            proof {
                crate::limbs::lemma_as_nat_zero(e@);
                assert(e@.len() > 0);
            }
            if e.is_odd() {
                result.mul_assign(&base, p);
            }
            let ghost res1 = result.value();
            base.square(p);
            e.div2();
            proof {
                lemma_pow_iter(p, xv, e0, erem, res0, res1, base0, base.value());
            }
        }
        proof {
            lemma_pow0(base.value() as int);
            lemma_pow1(p.r_val() as int);
            assert(result.value() as int * pow(base.value() as int, 0) * pow(p.r_val() as int, e0)
                == result.value() as int * pow(p.r_val() as int, e0)) by (nonlinear_arith)
                requires
                    pow(base.value() as int, 0) == 1,
            {}
        }
        result
    }
}

} // verus!
