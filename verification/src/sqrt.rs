//! Modular square roots: direct exponentiation when the modulus is 3 modulo
//! 4, and Tonelli–Shanks otherwise.

use vstd::prelude::*;
use vstd::arithmetic::power2::pow2;
use vstd::arithmetic::power::{pow, lemma_pow_adds, lemma_pow1};
use vstd::arithmetic::div_mod::{
    lemma_small_mod, lemma_fundamental_div_mod, lemma_mod_multiples_vanish,
    lemma_fundamental_div_mod_converse,
};
use vstd::arithmetic::mul::lemma_mul_is_commutative;
use crate::limbs::{Repr, as_nat, lemma_as_nat_injective};
use crate::params::FieldParams;
use crate::field::FieldElement;
use crate::modmath::{
    lemma_mod_mul_congruent, lemma_mod_pow_congruent, lemma_mod_cancel_cap_pow, mont_pow_rel,
    lemma_mont_unique,
};

verus! {

/// The residue of a limb vector modulo four is decided by its lowest limb,
/// because the limb base is a multiple of four.
proof fn lemma_as_nat_mod4(s: Seq<u64>)
    requires
        s.len() > 0,
    ensures
        as_nat(s) % 4 == s[0] as nat % 4,
{
    vstd::arithmetic::power2::lemma2_to64();
    vstd::arithmetic::power2::lemma_pow2_adds(2, 62);
    let r = as_nat(s.drop_first());
    assert(pow2(64) * r == 4 * (pow2(62) * r)) by (nonlinear_arith)
        requires
            pow2(64) == 4 * pow2(62),
    {}
    lemma_mod_multiples_vanish((pow2(62) * r) as int, s[0] as int, 4);
}

/// A power of the Montgomery factor cancels modulo the odd modulus, since
/// it is congruent to a power of two of the full width.
proof fn lemma_mod_cancel_r_pow(p: &FieldParams, k: nat, a: int, b: int)
    requires
        p.wf(),
        (a * pow(p.r_val() as int, k)) % (p.m() as int) == (b * pow(p.r_val() as int, k)) % (
        p.m() as int),
    ensures
        a % (p.m() as int) == b % (p.m() as int),
{
    let mi = p.m() as int;
    let rv = p.r_val() as int;
    let cap = p.cap() as int;
    assert(cap % mi == rv % mi) by {
        lemma_small_mod(p.r_val(), p.m());
    }
    lemma_mod_pow_congruent(cap, rv, k, mi);
    assert((a * pow(cap, k)) % mi == (a * pow(rv, k)) % mi) by {
        lemma_mod_mul_congruent(pow(cap, k), pow(rv, k), a, mi);
        assert(a * pow(cap, k) == pow(cap, k) * a) by (nonlinear_arith);
        assert(a * pow(rv, k) == pow(rv, k) * a) by (nonlinear_arith);
    }
    assert((b * pow(cap, k)) % mi == (b * pow(rv, k)) % mi) by {
        lemma_mod_mul_congruent(pow(cap, k), pow(rv, k), b, mi);
        assert(b * pow(cap, k) == pow(cap, k) * b) by (nonlinear_arith);
        assert(b * pow(rv, k) == pow(rv, k) * b) by (nonlinear_arith);
    }
    lemma_mod_cancel_cap_pow(p, k, a, b);
}

/// Squaring the Montgomery power by `q` and multiplying by the base once
/// yields the Montgomery power by `2q + 1`.
proof fn lemma_shanks_criterion(p: &FieldParams, xv: nat, q: nat, a1v: nat, sv: nat, a0v: nat)
    requires
        p.wf(),
        mont_pow_rel(p, xv, q, a1v),
        (sv * p.cap()) % p.m() == (a1v * a1v) % p.m(),
        (a0v * p.cap()) % p.m() == (sv * xv) % p.m(),
    ensures
        mont_pow_rel(p, xv, (2 * q + 1) as nat, a0v),
{
    let mi = p.m() as int;
    let cap = p.cap() as int;
    let rv = p.r_val() as int;
    let xi = xv as int;
    let aa = a1v as int * pow(rv, q);
    let bb = pow(xi, q) * rv;
    assert((aa * aa) % mi == (bb * bb) % mi) by {
        lemma_mod_mul_congruent(aa, bb, aa, mi);
        lemma_mod_mul_congruent(aa, bb, bb, mi);
        assert(bb * aa == aa * bb) by (nonlinear_arith);
    }
    lemma_pow_adds(rv, q, q);
    lemma_pow_adds(xi, q, q);
    assert(aa * aa == (a1v as int * a1v as int) * pow(rv, (q + q) as nat)) by (nonlinear_arith)
        requires
            aa == a1v as int * pow(rv, q),
            pow(rv, (q + q) as nat) == pow(rv, q) * pow(rv, q),
    {}
    assert(bb * bb == pow(xi, (q + q) as nat) * (rv * rv)) by (nonlinear_arith)
        requires
            bb == pow(xi, q) * rv,
            pow(xi, (q + q) as nat) == pow(xi, q) * pow(xi, q),
    {}
    let p2q = pow(rv, (q + q) as nat);
    // replace the square of a1 by s * cap, then fold in the base
    assert(((a1v as int * a1v as int) * p2q) % mi == ((sv as int * cap) * p2q) % mi) by {
        lemma_mod_mul_congruent(a1v as int * a1v as int, sv as int * cap, p2q, mi);
    }
    assert((((sv as int * cap) * p2q) * xi) % mi == ((pow(xi, (q + q) as nat) * (rv * rv)) * xi)
        % mi) by {
        lemma_mod_mul_congruent(
            (sv as int * cap) * p2q,
            pow(xi, (q + q) as nat) * (rv * rv),
            xi,
            mi,
        );
    }
    assert(((sv as int * cap) * p2q) * xi == (sv as int * xi) * (cap * p2q)) by (nonlinear_arith);
    assert(((sv as int * xi) * (cap * p2q)) % mi == ((a0v as int * cap) * (cap * p2q)) % mi) by {
        lemma_mod_mul_congruent(sv as int * xi, a0v as int * cap, cap * p2q, mi);
    }
    lemma_pow_adds(xi, (q + q) as nat, 1);
    lemma_pow1(xi);
    assert((pow(xi, (q + q) as nat) * (rv * rv)) * xi == pow(xi, (2 * q + 1) as nat) * (rv * rv))
        by (nonlinear_arith)
        requires
            pow(xi, (2 * q + 1) as nat) == pow(xi, (q + q) as nat) * pow(xi, 1),
            pow(xi, 1) == xi,
    {}
    // trade the extra caps for the Montgomery factor and cancel
    assert(cap % mi == rv % mi) by {
        lemma_small_mod(p.r_val(), p.m());
    }
    assert((a0v as int * cap) * (cap * p2q) == (a0v as int * (p2q * cap)) * cap)
        by (nonlinear_arith);
    assert(((a0v as int * (p2q * cap)) * cap) % mi == ((a0v as int * (p2q * rv)) * cap) % mi) by {
        lemma_mod_mul_congruent(cap, rv, a0v as int * p2q, mi);
        assert((a0v as int * (p2q * cap)) * cap == ((a0v as int * p2q) * cap) * cap)
            by (nonlinear_arith);
        assert((a0v as int * (p2q * rv)) * cap == ((a0v as int * p2q) * rv) * cap)
            by (nonlinear_arith);
        lemma_mod_mul_congruent((a0v as int * p2q) * cap, (a0v as int * p2q) * rv, cap, mi);
    }
    assert((pow(xi, (2 * q + 1) as nat) * (rv * rv)) % mi == ((pow(xi, (2 * q + 1) as nat) * rv)
        * cap) % mi) by {
        lemma_mod_mul_congruent(rv, cap, pow(xi, (2 * q + 1) as nat) * rv, mi);
        assert(pow(xi, (2 * q + 1) as nat) * (rv * rv) == (pow(xi, (2 * q + 1) as nat) * rv) * rv)
            by (nonlinear_arith);
    }
    lemma_pow_adds(rv, (q + q) as nat, 1);
    lemma_pow1(rv);
    assert(a0v as int * (p2q * rv) == a0v as int * pow(rv, (2 * q + 1) as nat))
        by (nonlinear_arith)
        requires
            pow(rv, (2 * q + 1) as nat) == p2q * pow(rv, 1),
            pow(rv, 1) == rv,
            p2q == pow(rv, (q + q) as nat),
    {}
    assert(((a0v as int * pow(rv, (2 * q + 1) as nat)) * cap) % mi == ((pow(
        xi,
        (2 * q + 1) as nat,
    ) * rv) * cap) % mi);
    lemma_pow1(cap);
    assert(pow(cap, 1) == cap);
    lemma_mod_cancel_cap_pow(
        p,
        1,
        a0v as int * pow(rv, (2 * q + 1) as nat),
        pow(xi, (2 * q + 1) as nat) * rv,
    );
}

/// The candidate root squares to the criterion value times the base: from
/// `e = a1 * x` and `a0 = a1^2 * x` it follows that `e^2 ≡ a0 * x`.
proof fn lemma_shanks_root(p: &FieldParams, xv: nat, a1v: nat, sv: nat, a0v: nat, ev: nat)
    requires
        p.wf(),
        (sv * p.cap()) % p.m() == (a1v * a1v) % p.m(),
        (a0v * p.cap()) % p.m() == (sv * xv) % p.m(),
        (ev * p.cap()) % p.m() == (a1v * xv) % p.m(),
    ensures
        (ev * ev) % p.m() == (a0v * xv) % p.m(),
{
    let mi = p.m() as int;
    let cap = p.cap() as int;
    let ec = ev as int * cap;
    let ax = a1v as int * xv as int;
    assert((ec * ec) % mi == (ax * ax) % mi) by {
        lemma_mod_mul_congruent(ec, ax, ec, mi);
        lemma_mod_mul_congruent(ec, ax, ax, mi);
        assert(ax * ec == ec * ax) by (nonlinear_arith);
    }
    assert(ax * ax == (a1v as int * a1v as int) * (xv as int * xv as int)) by (nonlinear_arith)
        requires
            ax == a1v as int * xv as int,
    {}
    assert(((a1v as int * a1v as int) * (xv as int * xv as int)) % mi == ((sv as int * cap) * (
    xv as int * xv as int)) % mi) by {
        lemma_mod_mul_congruent(
            a1v as int * a1v as int,
            sv as int * cap,
            xv as int * xv as int,
            mi,
        );
    }
    assert((sv as int * cap) * (xv as int * xv as int) == (sv as int * xv as int) * (xv as int
        * cap)) by (nonlinear_arith);
    assert(((sv as int * xv as int) * (xv as int * cap)) % mi == ((a0v as int * cap) * (xv as int
        * cap)) % mi) by {
        lemma_mod_mul_congruent(sv as int * xv as int, a0v as int * cap, xv as int * cap, mi);
    }
    assert((a0v as int * cap) * (xv as int * cap) == (a0v as int * xv as int) * (cap * cap))
        by (nonlinear_arith);
    assert(ec * ec == (ev as int * ev as int) * (cap * cap)) by (nonlinear_arith)
        requires
            ec == ev as int * cap,
    {}
    let c2 = pow(cap, 2);
    vstd::arithmetic::power::lemma_square_is_pow2(cap);
    assert(c2 == cap * cap);
    lemma_mod_cancel_cap_pow(p, 2, ev as int * ev as int, a0v as int * xv as int);
    lemma_small_mod((ev * ev) as nat % p.m(), p.m());
    lemma_small_mod((a0v * xv) as nat % p.m(), p.m());
}

/// The two starting powers of Tonelli–Shanks already satisfy the loop's
/// claim: the square of `r0 = x^((t+1)/2)` is `t0 * x = x^t * x`, in the
/// Montgomery domain.
proof fn lemma_tonelli_init(p: &FieldParams, xv: nat, e1: nat, e2: nat, r0: nat, t0: nat)
    requires
        p.wf(),
        2 * e1 == e2 + 1,
        (r0 * pow(p.r_val() as int, e1)) % (p.m() as int) == (pow(xv as int, e1) * p.r_val()) % (
        p.m() as int),
        (t0 * pow(p.r_val() as int, e2)) % (p.m() as int) == (pow(xv as int, e2) * p.r_val()) % (
        p.m() as int),
    ensures
        (r0 * r0) % p.m() == (t0 * xv) % p.m(),
{
    let mi = p.m() as int;
    let rv = p.r_val() as int;
    let xi = xv as int;
    let a1 = r0 as int * pow(rv, e1);
    let b1 = pow(xi, e1) * rv;
    // square the first congruence
    assert((a1 * a1) % mi == (b1 * b1) % mi) by {
        lemma_mod_mul_congruent(a1, b1, a1, mi);
        lemma_mod_mul_congruent(a1, b1, b1, mi);
        assert(a1 * a1 == a1 * a1) by (nonlinear_arith);
        assert(b1 * a1 == a1 * b1) by (nonlinear_arith);
        assert(b1 * b1 == b1 * b1) by (nonlinear_arith);
    }
    lemma_pow_adds(rv, e1, e1);
    lemma_pow_adds(xi, e1, e1);
    assert(a1 * a1 == (r0 as int * r0 as int) * pow(rv, (e1 + e1) as nat)) by (nonlinear_arith)
        requires
            a1 == r0 as int * pow(rv, e1),
            pow(rv, (e1 + e1) as nat) == pow(rv, e1) * pow(rv, e1),
    {}
    assert(b1 * b1 == pow(xi, (e1 + e1) as nat) * (rv * rv)) by (nonlinear_arith)
        requires
            b1 == pow(xi, e1) * rv,
            pow(xi, (e1 + e1) as nat) == pow(xi, e1) * pow(xi, e1),
    {}
    // multiply the second congruence by x * rv
    let a2 = t0 as int * pow(rv, e2);
    let b2 = pow(xi, e2) * rv;
    assert((a2 * (xi * rv)) % mi == (b2 * (xi * rv)) % mi) by {
        lemma_mod_mul_congruent(a2, b2, xi * rv, mi);
    }
    lemma_pow_adds(xi, e2, 1);
    lemma_pow1(xi);
    assert(b2 * (xi * rv) == pow(xi, (e2 + 1) as nat) * (rv * rv)) by (nonlinear_arith)
        requires
            b2 == pow(xi, e2) * rv,
            pow(xi, (e2 + 1) as nat) == pow(xi, e2) * pow(xi, 1),
            pow(xi, 1) == xi,
    {}
    // both sides now share the factor pow(rv, e2 + 1)
    lemma_pow_adds(rv, e2, 1);
    lemma_pow1(rv);
    assert(a2 * (xi * rv) == (t0 as int * xi) * pow(rv, (e2 + 1) as nat)) by (nonlinear_arith)
        requires
            a2 == t0 as int * pow(rv, e2),
            pow(rv, (e2 + 1) as nat) == pow(rv, e2) * pow(rv, 1),
            pow(rv, 1) == rv,
    {}
    assert(a1 * a1 == (r0 as int * r0 as int) * pow(rv, (e2 + 1) as nat));
    assert((b1 * b1) % mi == (b2 * (xi * rv)) % mi);
    assert(((r0 as int * r0 as int) * pow(rv, (e2 + 1) as nat)) % mi == ((t0 as int * xi) * pow(
        rv,
        (e2 + 1) as nat,
    )) % mi);
    lemma_mod_cancel_r_pow(p, (e2 + 1) as nat, r0 as int * r0 as int, t0 as int * xi);
    lemma_small_mod((r0 * r0) as nat % p.m(), p.m());
}

/// One Tonelli–Shanks update keeps the loop's claim `r^2 ≡ t * x`: whatever
/// power of the root of unity `c` has become, multiplying `r` by `c`,
/// squaring `c`, and multiplying `t` by the square moves the claim along.
proof fn lemma_tonelli_step(
    p: &FieldParams,
    xv: nat,
    r0: nat,
    t0: nat,
    gam: nat,
    r1: nat,
    c1: nat,
    t1: nat,
)
    requires
        p.wf(),
        (r0 * r0) % p.m() == (t0 * xv) % p.m(),
        (r1 * p.cap()) % p.m() == (r0 * gam) % p.m(),
        (c1 * p.cap()) % p.m() == (gam * gam) % p.m(),
        (t1 * p.cap()) % p.m() == (t0 * c1) % p.m(),
    ensures
        (r1 * r1) % p.m() == (t1 * xv) % p.m(),
{
    let mi = p.m() as int;
    let cap = p.cap() as int;
    let c2 = pow(cap, 2);
    vstd::arithmetic::power::lemma_square_is_pow2(cap);
    assert(c2 == cap * cap);
    // square the r-update
    assert(((r1 as int * cap) * (r1 as int * cap)) % mi == ((r0 as int * gam) * (r0 as int
        * gam)) % mi) by {
        lemma_mod_mul_congruent(r1 as int * cap, r0 as int * gam, r1 as int * cap, mi);
        lemma_mod_mul_congruent(r1 as int * cap, r0 as int * gam, r0 as int * gam, mi);
        assert((r0 as int * gam) * (r1 as int * cap) == (r1 as int * cap) * (r0 as int * gam))
            by (nonlinear_arith);
    }
    assert((r1 as int * cap) * (r1 as int * cap) == (r1 as int * r1 as int) * (cap * cap))
        by (nonlinear_arith);
    assert((r0 as int * gam) * (r0 as int * gam) == (r0 as int * r0 as int) * (gam as int
        * gam as int)) by (nonlinear_arith);
    // replace r0^2 by t0 * x
    assert(((r0 as int * r0 as int) * (gam as int * gam as int)) % mi == ((t0 as int * xv as int)
        * (gam as int * gam as int)) % mi) by {
        lemma_mod_mul_congruent(
            r0 as int * r0 as int,
            t0 as int * xv as int,
            gam as int * gam as int,
            mi,
        );
    }
    // fold the squared gamma into c1 and then into t1
    assert(((t0 as int * xv as int) * (gam as int * gam as int)) % mi == ((t0 as int * xv as int)
        * (c1 as int * cap)) % mi) by {
        lemma_mod_mul_congruent(
            gam as int * gam as int,
            c1 as int * cap,
            t0 as int * xv as int,
            mi,
        );
        assert((t0 as int * xv as int) * (gam as int * gam as int) == (gam as int * gam as int)
            * (t0 as int * xv as int)) by (nonlinear_arith);
        assert((t0 as int * xv as int) * (c1 as int * cap) == (c1 as int * cap) * (t0 as int
            * xv as int)) by (nonlinear_arith);
    }
    assert((t0 as int * xv as int) * (c1 as int * cap) == ((t0 as int * c1 as int) * xv as int)
        * cap) by (nonlinear_arith);
    assert((((t0 as int * c1 as int) * xv as int) * cap) % mi == (((t1 as int * cap) * xv as int)
        * cap) % mi) by {
        lemma_mod_mul_congruent(
            t0 as int * c1 as int,
            t1 as int * cap,
            xv as int * cap,
            mi,
        );
        assert(((t0 as int * c1 as int) * xv as int) * cap == (t0 as int * c1 as int) * (
        xv as int * cap)) by (nonlinear_arith);
        assert(((t1 as int * cap) * xv as int) * cap == (t1 as int * cap) * (xv as int * cap))
            by (nonlinear_arith);
    }
    assert(((t1 as int * cap) * xv as int) * cap == (t1 as int * xv as int) * (cap * cap))
        by (nonlinear_arith);
    assert((r1 as int * r1 as int) * (cap * cap) == (r1 as int * r1 as int) * c2);
    assert((t1 as int * xv as int) * (cap * cap) == (t1 as int * xv as int) * c2);
    assert(((r1 as int * r1 as int) * c2) % mi == ((t1 as int * xv as int) * c2) % mi);
    lemma_mod_cancel_cap_pow(p, 2, r1 as int * r1 as int, t1 as int * xv as int);
    lemma_small_mod((r1 * r1) as nat % p.m(), p.m());
}

impl FieldElement {
    /// Modular square root.  When the modulus is 3 modulo 4, one
    /// exponentiation by `(m-3)/4` and a nonresidue test decide the answer;
    /// otherwise the general Tonelli–Shanks descent through the powers of
    /// the root of unity is run.  The contract proves: for the general
    /// branch a returned root squares back to this element, and for the
    /// 3-modulo-4 branch it squares to the Euler-criterion power of the
    /// element times the element.  The steps that need Euler's criterion
    /// itself (that the criterion power of a nonzero element of a prime
    /// field is one or minus one, hence that the 3-modulo-4 root squares
    /// back exactly, that `None` means no root exists, and that a root
    /// always comes back for a residue) are not proved here.
    pub fn sqrt(&self, p: &FieldParams) -> (r: Option<FieldElement>)
        requires
            p.wf(),
            self.wf(p),
        ensures
            match r {
                Some(e) => e.wf(p),
                None => true,
            },
            self.value() == 0 ==> r.is_some(),
            p.m() % 4 != 3 ==> match r {
                Some(e) => (e.value() * e.value()) % p.m() == (self.value() * p.r_val()) % p.m(),
                // nothing comes back only for a nonzero input, and then
                // either its Euler power is not the encoding of one (a
                // nonresidue, by Euler's criterion), or it is and the
                // descent ran out of its order bound: the latter cannot
                // happen for a prime modulus, but ruling it out needs
                // Euler's criterion itself, which is not proved here
                None => self.value() != 0 && {
                    ||| exists|ev: nat|
                        {
                            &&& ev < p.m()
                            &&& #[trigger] mont_pow_rel(
                                p,
                                self.value(),
                                ((p.m() - 1) / 2) as nat,
                                ev,
                            )
                            &&& ev != p.r_val()
                        }
                    ||| mont_pow_rel(p, self.value(), ((p.m() - 1) / 2) as nat, p.r_val())
                },
            },
            p.m() % 4 == 3 ==> match r {
                Some(e) => exists|a0v: nat|
                    {
                        &&& a0v < p.m()
                        &&& #[trigger] mont_pow_rel(p, self.value(), ((p.m() - 1) / 2) as nat, a0v)
                        &&& a0v as int != (p.m() - p.r_val()) % (p.m() as int)
                        &&& (e.value() * e.value()) % p.m() == (a0v * self.value()) % p.m()
                    },
                None => mont_pow_rel(
                    p,
                    self.value(),
                    ((p.m() - 1) / 2) as nat,
                    (((p.m() - p.r_val()) % (p.m() as int)) as nat),
                ),
            },
    {
        let ghost m = p.m();
        let ghost xv = self.value();
        let ghost rv = p.r_val();
        let n = p.modulus.limbs.len();
        let one_elem = FieldElement::one(p);
        proof {
            lemma_as_nat_mod4(p.modulus@);
        }
        if p.modulus.limbs[0] % 4 == 3 {
            // direct exponentiation for m ≡ 3 (mod 4)
            let mut e_repr = p.modulus.clone();
            let three = Repr::from_u64(3, n);
            let uf = e_repr.sub_noborrow(&three);
            proof {
                assert(!uf);
            }
            e_repr.div2();
            e_repr.div2();
            let ghost q = e_repr.value();
            proof {
                // m = 4w + 3, so the exponent is w and 2w + 1 = (m - 1) / 2
                lemma_fundamental_div_mod(m as int, 4);
                let w = m as int / 4;
                assert(m as int == 4 * w + 3);
                vstd::arithmetic::div_mod::lemma_div_denominator((m - 3) as int, 2, 2);
                assert((m - 3) as int / 2 / 2 == (m - 3) as int / 4);
                assert((m - 3) as int == 4 * w);
                lemma_fundamental_div_mod_converse((m - 3) as int, 4, w, 0);
                assert(q == w);
                lemma_fundamental_div_mod_converse((m - 1) as int, 2, 2 * w + 1, 0);
                assert(((m - 1) / 2) as nat == 2 * q + 1);
            }
            let a1 = self.pow(&e_repr, p);
            let ghost a1v = a1.value();
            let mut a0 = a1.clone();
            a0.square(p);
            let ghost sv = a0.value();
            a0.mul_assign(self, p);
            let ghost a0v = a0.value();
            let mut neg_one = one_elem;
            neg_one.negate(p);
            proof {
                lemma_shanks_criterion(p, xv, q, a1v, sv, a0v);
                assert(mont_pow_rel(p, xv, ((m - 1) / 2) as nat, a0v));
            }
            if a0.0 == neg_one.0 {
                proof {
                    assert(a0.value() == neg_one.value());
                    // zero never lands here: its criterion value is zero,
                    // while minus one is not, since the Montgomery factor
                    // is invertible and hence nonzero
                    if xv == 0 {
                        assert(sv * xv == 0) by (nonlinear_arith)
                            requires
                                xv == 0,
                        {}
                        lemma_small_mod(0, m);
                        assert(0 as nat * p.cap() == 0) by (nonlinear_arith);
                        lemma_mont_unique(p, a0v, 0);
                        assert(a0v == 0);
                        if rv == 0 {
                            vstd::arithmetic::power::lemma_pow1(p.cap() as int);
                            assert((1 * pow(p.cap() as int, 1)) % (m as int) == (0 * pow(
                                p.cap() as int,
                                1,
                            )) % (m as int));
                            lemma_mod_cancel_cap_pow(p, 1, 1, 0);
                            lemma_small_mod(1, m);
                            assert(false);
                        }
                        lemma_small_mod((m - rv) as nat, m);
                        assert(neg_one.value() == m - rv);
                        assert(false);
                    }
                }
                None
            } else {
                proof {
                    // differing limb vectors of equal width carry different
                    // values
                    if a0.value() == neg_one.value() {
                        lemma_as_nat_injective(a0.0@, neg_one.0@);
                        assert(false);
                    }
                }
                let mut root = a1;
                root.mul_assign(self, p);
                proof {
                    lemma_shanks_root(p, xv, a1v, sv, a0v, root.value());
                }
                Some(root)
            }
        } else {
            // Tonelli–Shanks for the remaining odd moduli
            if self.is_zero() {
                proof {
                    assert(xv * xv == 0) by (nonlinear_arith)
                        requires
                            xv == 0,
                    {}
                    assert(xv * rv == 0) by (nonlinear_arith)
                        requires
                            xv == 0,
                    {}
                    lemma_small_mod(0, m);
                }
                return Some(self.clone());
            }
            // Euler's criterion
            let mut e_half = p.modulus.clone();
            let one_repr = Repr::from_u64(1, n);
            let uf = e_half.sub_noborrow(&one_repr);
            proof {
                assert(!uf);
            }
            e_half.div2();
            proof {
                assert(e_half.value() == ((m - 1) / 2) as nat);
            }
            let euler = self.pow(&e_half, p);
            proof {
                assert(mont_pow_rel(p, xv, ((m - 1) / 2) as nat, euler.value()));
            }
            if !(euler.0 == one_elem.0) {
                proof {
                    // the Euler power differs from the encoding of one, so
                    // its value does too: equal values of equal width would
                    // be the same limb vector
                    if euler.value() == rv {
                        lemma_as_nat_injective(euler.0@, one_elem.0@);
                        assert(false);
                    }
                }
                return None;
            }
            proof {
                assert(euler.value() == rv);
                assert(mont_pow_rel(p, xv, ((m - 1) / 2) as nat, rv));
            }
            // r = x^((t+1)/2), t' = x^t, descending through the powers of
            // the root of unity
            let mut tp1 = p.t.clone();
            let ov = tp1.add_nocarry(&one_repr);
            proof {
                assert(p.t.value() * pow2(p.s as nat) == m - 1) by {
                    assert(m - 1 == p.t.value() * pow2(p.s as nat));
                }
                assert(p.t.value() <= m - 1) by (nonlinear_arith)
                    requires
                        p.t.value() * pow2(p.s as nat) == m - 1,
                        pow2(p.s as nat) >= 1,
                        p.t.value() >= 0,
                    {}
                assert(!ov);
            }
            tp1.div2();
            let ghost e1 = tp1.value();
            let ghost e2 = p.t.value();
            proof {
                lemma_fundamental_div_mod((e2 + 1) as int, 2);
                assert(2 * e1 == e2 + 1);
            }
            let mut c = FieldElement(p.root_of_unity.clone());
            let mut r = self.pow(&tp1, p);
            let mut t_e = self.pow(&p.t, p);
            let mut mprime: u32 = p.s;
            proof {
                lemma_tonelli_init(p, xv, e1, e2, r.value(), t_e.value());
            }
            while !(t_e.0 == one_elem.0)
                invariant
                    p.wf(),
                    m == p.m(),
                    rv == p.r_val(),
                    xv == self.value(),
                    0 < xv < m,
                    m % 4 != 3,
                    one_elem.wf(p),
                    one_elem.value() == rv,
                    r.wf(p),
                    c.wf(p),
                    t_e.wf(p),
                    (r.value() * r.value()) % m == (t_e.value() * xv) % m,
                    mont_pow_rel(p, xv, ((m - 1) / 2) as nat, rv),
                decreases mprime,
            {
                let mut t2i = t_e.clone();
                t2i.square(p);
                let mut i: u32 = 1;
                while i < mprime && !(t2i.0 == one_elem.0)
                    invariant
                        p.wf(),
                        t2i.wf(p),
                        one_elem.wf(p),
                        1 <= i,
                        i <= mprime || i == 1,
                    decreases mprime - i,
                {
                    t2i.square(p);
                    i = i + 1;
                }
                if i >= mprime {
                    // no power of t' reached one inside the order bound:
                    // impossible for a residue of a prime modulus, reported
                    // as having no root
                    return None;
                }
                let mut j2: u32 = 0;
                let reps = mprime - i - 1;
                while j2 < reps
                    invariant
                        p.wf(),
                        c.wf(p),
                    decreases reps - j2,
                {
                    c.square(p);
                    j2 = j2 + 1;
                }
                let ghost r0 = r.value();
                let ghost t0v = t_e.value();
                let ghost gam = c.value();
                r.mul_assign(&c, p);
                c.square(p);
                t_e.mul_assign(&c, p);
                mprime = i;
                proof {
                    lemma_tonelli_step(p, xv, r0, t0v, gam, r.value(), c.value(), t_e.value());
                }
            }
            proof {
                assert(t_e.value() == rv);
                assert((t_e.value() * xv) % m == (xv * rv) % m) by {
                    lemma_mul_is_commutative(rv as int, xv as int);
                }
            }
            Some(r)
        }
    }
}

} // verus!
