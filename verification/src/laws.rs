//! The algebraic laws the operations promise, stated once over the
//! contracts of the executable functions and proved for every input.

use vstd::prelude::*;
use vstd::arithmetic::div_mod::{lemma_small_mod, lemma_mod_bound, lemma_fundamental_div_mod_converse};
use vstd::arithmetic::mul::lemma_mul_is_commutative;
use crate::params::FieldParams;
use crate::modmath::{lemma_mont_unique, lemma_mod_mul_congruent};

verus! {

/// Round trip: converting a canonical value below the modulus into
/// Montgomery form and back returns it unchanged.  `ev` is what `from_repr`
/// produces for `a`, and `rv` what `into_repr` produces for `ev`.
pub proof fn lemma_repr_round_trip(p: &FieldParams, a: nat, ev: nat, rv: nat)
    requires
        p.wf(),
        a < p.m(),
        ev == (a * p.r_val()) % p.m(),
        rv < p.m(),
        (rv * p.cap()) % p.m() == ev,
    ensures
        rv == a,
{
    let mi = p.m() as int;
    lemma_small_mod(p.r_val(), p.m());
    assert((a * p.r_val()) % p.m() == (a * p.cap()) % p.m()) by {
        lemma_mod_mul_congruent(p.r_val() as int, p.cap() as int, a as int, mi);
        assert(a as int * p.r_val() as int == p.r_val() as int * a as int) by (nonlinear_arith);
        assert(a as int * p.cap() as int == p.cap() as int * a as int) by (nonlinear_arith);
    }
    lemma_mod_bound((a * p.cap()) as int, mi);
    lemma_small_mod(ev, p.m());
    lemma_mont_unique(p, rv, a);
}

/// Additive identity: adding the zero element leaves every element fixed.
pub proof fn lemma_add_zero(p: &FieldParams, x: nat)
    requires
        p.wf(),
        x < p.m(),
    ensures
        (x + 0) % p.m() == x,
{
    lemma_small_mod(x, p.m());
}

/// Multiplicative identity: the Montgomery product of `x` with the identity
/// element (whose representative is `R`) is `x` again.  `rv` is what
/// `mul_assign` by `one` produces.
pub proof fn lemma_mul_one(p: &FieldParams, x: nat, rv: nat)
    requires
        p.wf(),
        x < p.m(),
        rv < p.m(),
        (rv * p.cap()) % p.m() == (x * p.r_val()) % p.m(),
    ensures
        rv == x,
{
    let mi = p.m() as int;
    lemma_small_mod(p.r_val(), p.m());
    assert((x * p.r_val()) % p.m() == (x * p.cap()) % p.m()) by {
        lemma_mod_mul_congruent(p.r_val() as int, p.cap() as int, x as int, mi);
        assert(x as int * p.r_val() as int == p.r_val() as int * x as int) by (nonlinear_arith);
        assert(x as int * p.cap() as int == p.cap() as int * x as int) by (nonlinear_arith);
    }
    lemma_mont_unique(p, rv, x);
}

/// Additive inverse: an element plus its negation is the zero element.
/// `nv` is what `negate` produces for `x`.
pub proof fn lemma_add_negate(p: &FieldParams, x: nat, nv: nat)
    requires
        p.wf(),
        x < p.m(),
        nv as int == (p.m() - x) % (p.m() as int),
    ensures
        (x + nv) % p.m() == 0,
{
    let m = p.m();
    if x == 0 {
        assert(m as int % (m as int) == 0) by {
            lemma_fundamental_div_mod_converse(m as int, m as int, 1, 0);
        }
        lemma_small_mod(0, m);
    } else {
        lemma_small_mod((m - x) as nat, m);
        assert(nv == m - x);
        assert(m as int % (m as int) == 0) by {
            lemma_fundamental_div_mod_converse(m as int, m as int, 1, 0);
        }
    }
}

/// Multiplicative inverse: the Montgomery product of a nonzero element with
/// its inverse is the identity element.  `iv` is what `inverse` produces
/// and `rv` what multiplying `x` by it produces.
pub proof fn lemma_mul_inverse(p: &FieldParams, x: nat, iv: nat, rv: nat)
    requires
        p.wf(),
        x < p.m(),
        iv < p.m(),
        (iv * x) % p.m() == (p.r_val() * p.r_val()) % p.m(),
        rv < p.m(),
        (rv * p.cap()) % p.m() == (x * iv) % p.m(),
    ensures
        rv == p.r_val(),
{
    let mi = p.m() as int;
    lemma_small_mod(p.r_val(), p.m());
    lemma_mod_bound((p.cap()) as int, mi);
    assert((x * iv) % p.m() == (iv * x) % p.m()) by {
        lemma_mul_is_commutative(x as int, iv as int);
    }
    assert((p.r_val() * p.r_val()) % p.m() == (p.r_val() * p.cap()) % p.m()) by {
        lemma_mod_mul_congruent(p.r_val() as int, p.cap() as int, p.r_val() as int, mi);
        assert(p.r_val() as int * p.cap() as int == p.cap() as int * p.r_val() as int)
            by (nonlinear_arith);
        assert(p.r_val() as int * p.r_val() as int == p.r_val() as int * p.r_val() as int)
            by (nonlinear_arith);
    }
    lemma_mont_unique(p, rv, p.r_val());
}

/// Doubling consistency: doubling is the same operation as adding an
/// element to itself.
pub proof fn lemma_double_is_add(p: &FieldParams, x: nat)
    requires
        p.wf(),
    ensures
        (2 * x) % p.m() == (x + x) % p.m(),
{
}

/// Squaring consistency: squaring and multiplying an element by itself
/// produce the same element, because the Montgomery representative below
/// the modulus is unique.  `sv` is what `square` produces and `qv` what
/// `mul_assign` by itself produces.
pub proof fn lemma_square_is_mul(p: &FieldParams, x: nat, sv: nat, qv: nat)
    requires
        p.wf(),
        sv < p.m(),
        qv < p.m(),
        (sv * p.cap()) % p.m() == (x * x) % p.m(),
        (qv * p.cap()) % p.m() == (x * x) % p.m(),
    ensures
        sv == qv,
{
    lemma_mont_unique(p, sv, qv);
}

} // verus!
