//! Modular-arithmetic facts the field proofs lean on, chiefly that factors of
//! two — and hence the Montgomery factor, a power of two — cancel modulo an
//! odd modulus.

use vstd::prelude::*;
use vstd::arithmetic::power2::{pow2, lemma_pow2_adds, lemma2_to64, lemma_pow2};
use vstd::arithmetic::power::{pow, lemma_pow_mod_noop, lemma_pow_multiplies};
use vstd::arithmetic::div_mod::{
    lemma_small_mod, lemma_fundamental_div_mod, lemma_mod_equivalence, lemma_mod_multiples_basic,
    lemma_mul_mod_noop_general, lemma_mod_add_multiples_vanish,
    lemma_sub_mod_noop,
};
use vstd::arithmetic::mul::{lemma_mul_is_associative, lemma_mul_is_commutative};
use crate::params::FieldParams;

verus! {

/// A factor of two cancels modulo an odd modulus.
pub proof fn lemma_odd_mod_cancel_two(m: nat, a: int, b: int)
    requires
        m % 2 == 1,
        m > 0,
        (2 * a) % (m as int) == (2 * b) % (m as int),
    ensures
        a % (m as int) == b % (m as int),
{
    let mi = m as int;
    let d = a - b;
    lemma_mod_equivalence(2 * a, 2 * b, mi);
    assert((2 * a - 2 * b) % mi == 0);
    assert(2 * d == 2 * a - 2 * b);
    lemma_fundamental_div_mod(2 * d, mi);
    let q = (2 * d) / mi;
    assert(2 * d == mi * q);
    let h = q / 2;
    let w = q % 2;
    lemma_fundamental_div_mod(q, 2);
    assert(q == 2 * h + w);
    if w == 1 {
        let mh = (m - 1) / 2;
        assert(m == 2 * mh + 1);
        assert(2 * d == mi * (2 * h + 1));
        assert(mi * (2 * h + 1) == 2 * (mi * h) + mi) by (nonlinear_arith);
        assert(2 * d == 2 * (mi * h) + 2 * mh + 1);
        assert(false);
    }
    assert(2 * d == mi * (2 * h));
    assert(mi * (2 * h) == 2 * (mi * h)) by (nonlinear_arith);
    assert(d == mi * h);
    lemma_mod_multiples_basic(h, mi);
    assert((mi * h) % mi == 0);
    lemma_mod_equivalence(a, b, mi);
}

/// Any power of two cancels modulo an odd modulus.
pub proof fn lemma_odd_mod_cancel_pow2(m: nat, j: nat, a: int, b: int)
    requires
        m % 2 == 1,
        m > 0,
        (pow2(j) * a) % (m as int) == (pow2(j) * b) % (m as int),
    ensures
        a % (m as int) == b % (m as int),
    decreases j,
{
    lemma2_to64();
    if j == 0 {
        assert(pow2(0) * a == a);
        assert(pow2(0) * b == b);
    } else {
        lemma_pow2_adds(1, (j - 1) as nat);
        assert(pow2(j) == 2 * pow2((j - 1) as nat));
        let pj = pow2((j - 1) as nat) as int;
        assert(pow2(j) * a == 2 * (pj * a)) by (nonlinear_arith)
            requires
                pow2(j) == 2 * pj,
        {}
        assert(pow2(j) * b == 2 * (pj * b)) by (nonlinear_arith)
            requires
                pow2(j) == 2 * pj,
        {}
        lemma_odd_mod_cancel_two(m, pj * a, pj * b);
        lemma_odd_mod_cancel_pow2(m, (j - 1) as nat, a, b);
    }
}

/// Two reduced values whose products with the full power of the backing
/// width agree modulo the odd modulus are the same value: the Montgomery
/// factor is invertible, so a Montgomery representative is unique.
pub proof fn lemma_mont_unique(p: &FieldParams, x: nat, y: nat)
    requires
        p.wf(),
        x < p.m(),
        y < p.m(),
        (x * p.cap()) % p.m() == (y * p.cap()) % p.m(),
    ensures
        x == y,
{
    let m = p.m();
    let c = p.cap() as int;
    assert(x * p.cap() == p.cap() * x) by {
        lemma_mul_is_commutative(x as int, c);
    }
    assert(y * p.cap() == p.cap() * y) by {
        lemma_mul_is_commutative(y as int, c);
    }
    lemma_odd_mod_cancel_pow2(m, 64 * p.nlimbs(), x as int, y as int);
    lemma_small_mod(x, m);
    lemma_small_mod(y, m);
}

/// Primality, stated by trial divisor: no divisor strictly between 1 and `m`.
pub open spec fn is_prime(m: nat) -> bool {
    2 <= m && forall|d: nat| 2 <= d < m ==> #[trigger] (m % d) != 0
}

/// No divisor of 2 or more splits both numbers.
pub open spec fn no_common_factor(a: nat, b: nat) -> bool {
    forall|d: nat| 2 <= d ==> !(#[trigger] (a % d) == 0 && #[trigger] (b % d) == 0)
}

/// A divisor of half an even number divides the number.
pub proof fn lemma_divides_halved(u: nat, d: nat)
    requires
        u % 2 == 0,
        (u / 2) % d == 0,
        d >= 1,
    ensures
        u % d == 0,
{
    lemma_fundamental_div_mod(u as int, 2);
    lemma_fundamental_div_mod((u / 2) as int, d as int);
    let q = (u / 2) as int / d as int;
    assert(u as int == (2 * q) * d as int) by (nonlinear_arith)
        requires
            u as int == 2 * ((u / 2) as int),
            (u / 2) as int == d as int * q,
    {}
    lemma_mod_multiples_basic(2 * q, d as int);
}

/// A common divisor of a difference and the subtrahend divides the minuend.
pub proof fn lemma_divides_sub(u: nat, v: nat, d: nat)
    requires
        v <= u,
        (u - v) % (d as int) == 0,
        v % d == 0,
        d >= 1,
    ensures
        u % d == 0,
{
    lemma_fundamental_div_mod(u as int - v as int, d as int);
    lemma_fundamental_div_mod(v as int, d as int);
    let q1 = (u as int - v as int) / d as int;
    let q2 = v as int / d as int;
    assert(u as int == (q1 + q2) * d as int) by (nonlinear_arith)
        requires
            u as int - v as int == d as int * q1,
            v as int == d as int * q2,
    {}
    lemma_mod_multiples_basic(q1 + q2, d as int);
}

/// A divisor of a positive number is no larger than it.
pub proof fn lemma_divides_le(d: nat, x: nat)
    requires
        x % d == 0,
        x >= 1,
        d >= 1,
    ensures
        d <= x,
{
    lemma_fundamental_div_mod(x as int, d as int);
    let q = x as int / d as int;
    assert(x as int == d as int * q);
    assert(d <= x) by (nonlinear_arith)
        requires
            x as int == d as int * q,
            x >= 1,
            d >= 1,
    {}
}

/// A nonzero residue of a prime shares no divisor with it.
pub proof fn lemma_prime_coprime(m: nat, x: nat)
    requires
        is_prime(m),
        0 < x < m,
    ensures
        no_common_factor(x, m),
{
    assert forall|d: nat| 2 <= d implies !(#[trigger] (x % d) == 0 && #[trigger] (m % d) == 0)
        by {
        if x % d == 0 && m % d == 0 {
            lemma_divides_le(d, x);
            assert(2 <= d < m);
            assert(m % d != 0);
        }
    }
}

/// Halving one side of a congruence pair: if twice the new values are
/// congruent to the old ones, the congruence between the pairs survives,
/// because two cancels modulo an odd modulus.
pub proof fn lemma_halve_congruence(
    m: nat,
    x: nat,
    bold: nat,
    bnew: nat,
    uold: nat,
    unew: nat,
    rr: nat,
)
    requires
        m % 2 == 1,
        m > 0,
        (2 * bnew) % m == bold % m,
        2 * unew == uold,
        (bold * x) % m == (uold * rr) % m,
    ensures
        (bnew * x) % m == (unew * rr) % m,
{
    let mi = m as int;
    let bx = (bnew * x) as int;
    let ur = (unew * rr) as int;
    assert(2 * bx == ((2 * bnew) * x) as int) by (nonlinear_arith)
        requires
            bx == (bnew * x) as int,
    {}
    assert(2 * ur == ((2 * unew) * rr) as int) by (nonlinear_arith)
        requires
            ur == (unew * rr) as int,
    {}
    assert(((2 * bnew) * x) % m == (bold * x) % m) by {
        lemma_mul_mod_noop_general(((2 * bnew) as nat) as int, x as int, mi);
        lemma_mul_mod_noop_general(bold as int, x as int, mi);
    }
    assert((2 * bx) % mi == (2 * ur) % mi);
    lemma_odd_mod_cancel_two(m, bx, ur);
}

/// Subtracting one congruence pair from another: the modular difference of
/// the coefficients tracks the difference of the tracked values.
pub proof fn lemma_sub_congruence(
    m: nat,
    x: nat,
    bold: nat,
    cold: nat,
    bnew: nat,
    uold: nat,
    vold: nat,
    rr: nat,
)
    requires
        m > 0,
        bnew < m,
        bnew as int == (bold + m - cold) % (m as int),
        cold <= m,
        (bold * x) % m == (uold * rr) % m,
        (cold * x) % m == (vold * rr) % m,
        vold <= uold,
    ensures
        (bnew * x) % m == ((uold - vold) * rr) % (m as int),
{
    let mi = m as int;
    assert((bold + m - cold) % mi == (bold - cold) % mi) by {
        lemma_mod_add_multiples_vanish(bold as int - cold as int, mi);
    }
    lemma_small_mod(bnew, m);
    assert((bnew as int * x as int) % mi == ((bold - cold) * x) % mi) by {
        lemma_mul_mod_noop_general(bnew as int, x as int, mi);
        lemma_mul_mod_noop_general(bold as int - cold as int, x as int, mi);
    }
    assert((bold - cold) * x == bold * x - cold * x) by (nonlinear_arith);
    assert((uold - vold) * rr == uold * rr - vold * rr) by (nonlinear_arith);
    assert((bold * x - cold * x) % mi == (uold * rr - vold * rr) % mi) by {
        lemma_sub_mod_noop(bold as int * x as int, cold as int * x as int, mi);
        lemma_sub_mod_noop(uold as int * rr as int, vold as int * rr as int, mi);
    }
}

/// Multiplying both sides of a congruence by the same factor keeps it.
pub proof fn lemma_mod_mul_congruent(a: int, b: int, c: int, m: int)
    requires
        m > 0,
        a % m == b % m,
    ensures
        (a * c) % m == (b * c) % m,
{
    lemma_mul_mod_noop_general(a, c, m);
    lemma_mul_mod_noop_general(b, c, m);
}

/// Raising both sides of a congruence to the same power keeps it.
pub proof fn lemma_mod_pow_congruent(a: int, b: int, k: nat, m: int)
    requires
        m > 0,
        a % m == b % m,
    ensures
        pow(a, k) % m == pow(b, k) % m,
{
    lemma_pow_mod_noop(a, k, m);
    lemma_pow_mod_noop(b, k, m);
}

/// A power of the full backing width cancels modulo the odd modulus, like
/// the width itself: it is again a power of two.
pub proof fn lemma_mod_cancel_cap_pow(p: &FieldParams, k: nat, a: int, b: int)
    requires
        p.wf(),
        (a * pow(p.cap() as int, k)) % (p.m() as int) == (b * pow(p.cap() as int, k)) % (
        p.m() as int),
    ensures
        a % (p.m() as int) == b % (p.m() as int),
{
    let n64 = 64 * p.nlimbs();
    lemma_pow2(n64);
    lemma_pow_multiplies(2, n64, k);
    lemma_pow2(n64 * k);
    assert(pow(p.cap() as int, k) == pow2(n64 * k) as int);
    let c = pow2(n64 * k) as int;
    assert(a * c == c * a) by (nonlinear_arith);
    assert(b * c == c * b) by (nonlinear_arith);
    lemma_odd_mod_cancel_pow2(p.m(), n64 * k, a, b);
}

/// The statement that `y` is the Montgomery-domain power of `x` by `e`:
/// the unique reduced value with `y * R^e ≡ x^e * R (mod m)`.
pub open spec fn mont_pow_rel(p: &FieldParams, x: nat, e: nat, y: nat) -> bool {
    (y * pow(p.r_val() as int, e)) % (p.m() as int) == (pow(x as int, e) * p.r_val()) % (
    p.m() as int)
}

} // verus!
