//! Modular inversion by the binary extended Euclidean algorithm of
//! Guajardo, Kumar, Paar and Pelzl.

use vstd::prelude::*;
use vstd::arithmetic::div_mod::{
    lemma_small_mod, lemma_mod_multiples_basic, lemma_mod_add_multiples_vanish, lemma_mod_bound,
    lemma_fundamental_div_mod, lemma_fundamental_div_mod_converse, lemma_div_is_ordered,
};
use vstd::arithmetic::mul::lemma_mul_is_commutative;
use crate::limbs::{Repr, lemma_as_nat_injective};
use crate::params::FieldParams;
use crate::field::FieldElement;
use crate::modmath::{
    is_prime, no_common_factor, lemma_prime_coprime, lemma_divides_halved, lemma_divides_sub,
    lemma_halve_congruence, lemma_sub_congruence,
};

verus! {

/// Strips all factors of two from `t`, halving the tracking coefficient `e`
/// modulo the modulus at each step (adding the modulus first when the
/// coefficient is odd, so the halving is exact).  Every divisor of the
/// result divides the input, and the congruence `e * x ≡ t * rr (mod m)` is
/// preserved.
fn halve_loop(
    t: &mut Repr,
    e: &mut FieldElement,
    p: &FieldParams,
    Ghost(x): Ghost<nat>,
    Ghost(rr): Ghost<nat>,
)
    requires
        p.wf(),
        old(t)@.len() == p.nlimbs(),
        old(e).wf(p),
        1 <= old(t).value(),
        (old(e).value() * x) % p.m() == (old(t).value() * rr) % p.m(),
    ensures
        final(t)@.len() == p.nlimbs(),
        final(e).wf(p),
        1 <= final(t).value() <= old(t).value(),
        final(t).value() % 2 == 1,
        forall|d: nat|
            1 <= d && #[trigger] (final(t).value() % d) == 0 ==> old(t).value() % d == 0,
        (final(e).value() * x) % p.m() == (final(t).value() * rr) % p.m(),
{
    let ghost m = p.m();
    while t.is_even()
        invariant
            p.wf(),
            m == p.m(),
            t@.len() == p.nlimbs(),
            e.wf(p),
            1 <= t.value() <= old(t).value(),
            forall|d: nat|
                1 <= d && #[trigger] (t.value() % d) == 0 ==> old(t).value() % d == 0,
            (e.value() * x) % m == (t.value() * rr) % m,
        decreases t.value(),
    {
        let ghost tpre = t.value();
        let ghost epre = e.value();
        t.div2();
        proof {
            lemma_fundamental_div_mod(tpre as int, 2);
            assert(2 * t.value() == tpre);
            assert(1 <= t.value());
        }
        if e.0.is_even() {
            e.0.div2();
            proof {
                lemma_fundamental_div_mod(epre as int, 2);
                assert(2 * e.value() == epre);
            }
        } else {
            let ov = e.0.add_nocarry(&p.modulus);
            proof {
                assert(!ov);
            }
            e.0.div2();
            proof {
                lemma_fundamental_div_mod((epre + m) as int, 2);
                assert(2 * e.value() == epre + m);
                lemma_mod_add_multiples_vanish(epre as int, m as int);
                assert((2 * e.value()) % m == epre % m);
                // the halved coefficient is reduced again
                lemma_fundamental_div_mod_converse((2 * m - 2) as int, 2, m as int - 1, 0);
                lemma_div_is_ordered((epre + m) as int, (2 * m - 2) as int, 2);
            }
        }
        proof {
            assert(e.value() < m);
            lemma_halve_congruence(m, x, epre, e.value(), tpre, t.value(), rr);
            assert forall|d: nat|
                1 <= d && #[trigger] (t.value() % d) == 0 implies old(t).value() % d == 0 by {
                lemma_divides_halved(tpre, d);
                assert(tpre % d == 0);
            }
        }
    }
}

impl FieldElement {
    /// Modular inverse by the binary extended Euclidean algorithm: walks
    /// `(u, v)` down from `(self, modulus)` by exact halvings and
    /// subtractions while the coefficients `(b, c)` keep the congruences
    /// `b * self ≡ u * R^2` and `c * self ≡ v * R^2` modulo `m`.  When one
    /// of `u`, `v` reaches one, its coefficient is the Montgomery encoding
    /// of the inverse.  Returns nothing exactly for the zero element.
    pub fn inverse(&self, p: &FieldParams) -> (r: Option<FieldElement>)
        requires
            p.wf(),
            is_prime(p.m()),
            self.wf(p),
        ensures
            r.is_some() <==> self.value() != 0,
            match r {
                Some(inv) => inv.wf(p) && (inv.value() * self.value()) % p.m() == (p.r_val()
                    * p.r_val()) % p.m(),
                None => self.value() == 0,
            },
    {
        if self.is_zero() {
            return None;
        }
        let ghost m = p.m();
        let ghost x = self.value();
        let ghost rr = (p.r_val() * p.r_val()) % p.m();
        let n = p.modulus.limbs.len();
        let one_repr = Repr::from_u64(1, n);
        let mut u = self.0.clone();
        let mut v = p.modulus.clone();
        let mut b = FieldElement(p.r2.clone());
        let mut c = FieldElement::zero(p);
        proof {
            lemma_prime_coprime(m, x);
            lemma_mod_bound((p.r_val() * p.r_val()) as int, m as int);
            assert(b.value() == rr);
            assert((rr * x) % m == (x * rr) % m) by {
                lemma_mul_is_commutative(rr as int, x as int);
            }
            assert(c.value() * x == 0) by (nonlinear_arith)
                requires
                    c.value() == 0,
            {}
            assert((m * rr) % m == 0) by {
                lemma_mul_is_commutative(m as int, rr as int);
                lemma_mod_multiples_basic(rr as int, m as int);
            }
            lemma_small_mod(0, m);
        }
        while !(u == one_repr) && !(v == one_repr)
            invariant
                p.wf(),
                is_prime(m),
                m == p.m(),
                x == self.value(),
                0 < x < m,
                rr == (p.r_val() * p.r_val()) % m,
                rr < m,
                n == p.nlimbs(),
                one_repr@.len() == n,
                one_repr.value() == 1,
                u@.len() == n,
                v@.len() == n,
                b.wf(p),
                c.wf(p),
                1 <= u.value(),
                v.value() == 0 ==> u.value() == 1,
                no_common_factor(u.value(), v.value()),
                (b.value() * x) % m == (u.value() * rr) % m,
                (c.value() * x) % m == (v.value() * rr) % m,
            decreases u.value() + v.value(),
        {
            proof {
                // the loop condition rules out the completed state, so the
                // pair is still strictly positive
                if u.value() == 1 {
                    lemma_as_nat_injective(u@, one_repr@);
                    assert(false);
                }
                assert(1 <= v.value());
            }
            let ghost u_in = u.value();
            let ghost v_in = v.value();
            halve_loop(&mut u, &mut b, p, Ghost(x), Ghost(rr));
            halve_loop(&mut v, &mut c, p, Ghost(x), Ghost(rr));
            proof {
                // common factors of the halved pair were common factors of
                // the pair this iteration started from
                assert forall|d: nat|
                    2 <= d implies !(#[trigger] (u.value() % d) == 0 && #[trigger] (v.value()
                    % d) == 0) by {
                    if u.value() % d == 0 && v.value() % d == 0 {
                        assert(u_in % d == 0);
                        assert(v_in % d == 0);
                    }
                }
                // both sides are now odd; they can only have met in the
                // middle at one, since any larger equal value would be a
                // common factor
                if u.value() == v.value() && u.value() >= 2 {
                    let d = u.value();
                    vstd::arithmetic::div_mod::lemma_mod_self_0(d as int);
                    assert(u.value() % d == 0);
                    assert(v.value() % d == 0);
                    assert(false);
                }
            }
            let ghost u_mid = u.value();
            let ghost v_mid = v.value();
            if v.lt(&u) {
                let uf = u.sub_noborrow(&v);
                proof {
                    assert(!uf);
                }
                let ghost b_pre = b.value();
                b.sub_assign(&c, p);
                proof {
                    lemma_sub_congruence(
                        m,
                        x,
                        b_pre,
                        c.value(),
                        b.value(),
                        u_mid,
                        v_mid,
                        rr,
                    );
                    assert forall|d: nat|
                        2 <= d implies !(#[trigger] (u.value() % d) == 0 && #[trigger] (
                    v.value() % d) == 0) by {
                        if u.value() % d == 0 && v.value() % d == 0 {
                            lemma_divides_sub(u_mid, v_mid, d);
                        }
                    }
                }
            } else {
                let uf = v.sub_noborrow(&u);
                proof {
                    assert(!uf);
                }
                let ghost c_pre = c.value();
                c.sub_assign(&b, p);
                proof {
                    lemma_sub_congruence(
                        m,
                        x,
                        c_pre,
                        b.value(),
                        c.value(),
                        v_mid,
                        u_mid,
                        rr,
                    );
                    if v.value() == 0 {
                        assert(u_mid == v_mid);
                        assert(u.value() == 1);
                    }
                    assert forall|d: nat|
                        2 <= d implies !(#[trigger] (u.value() % d) == 0 && #[trigger] (
                    v.value() % d) == 0) by {
                        if u.value() % d == 0 && v.value() % d == 0 {
                            lemma_divides_sub(v_mid, u_mid, d);
                        }
                    }
                }
            }
        }
        proof {
            lemma_small_mod(rr, m);
        }
        if u == one_repr {
            proof {
                assert(u.value() == 1);
                assert(1 * rr == rr);
            }
            Some(b)
        } else {
            proof {
                assert(v.value() == 1);
                assert(1 * rr == rr);
            }
            Some(c)
        }
    }
}

} // verus!
