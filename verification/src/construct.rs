//! Derivation of the field constants from the construction parameters: the
//! Montgomery factors by repeated modular doubling, the word inverse of the
//! modulus by Newton iteration, the odd-part split of `m - 1`, and the
//! Montgomery encodings of the generator and the root of unity.

use vstd::prelude::*;
use vstd::arithmetic::power2::{
    pow2, lemma_pow2_adds, lemma_pow2_pos, lemma2_to64, lemma2_to64_rest,
    lemma_pow2_strictly_increases,
};
use vstd::arithmetic::power::pow;
use vstd::arithmetic::div_mod::{
    lemma_small_mod, lemma_fundamental_div_mod, lemma_fundamental_div_mod_converse,
    lemma_mul_mod_noop_right, lemma_mul_mod_noop, lemma_mod_mod, lemma_mod_multiples_vanish,
    lemma_mul_mod_noop_left,
};
use crate::limbs::{Repr, as_nat, lemma_as_nat_parity, lemma_as_nat_injective};
use crate::params::FieldParams;
use crate::field::FieldElement;
use crate::modmath::mont_pow_rel;

verus! {

/// Doubles a reduced residue modulo the value of `md`, with one conditional
/// subtraction; the doubling cannot overflow the width because twice the
/// modulus fits it.
fn double_mod(x: &mut Repr, md: &Repr, Ghost(m): Ghost<nat>)
    requires
        md@.len() == old(x)@.len(),
        m == as_nat(md@),
        3 <= m,
        2 * m <= pow2(64 * old(x)@.len()),
        old(x).value() < m,
    ensures
        final(x)@.len() == old(x)@.len(),
        final(x).value() == (2 * old(x).value()) % m,
{
    x.mul2();
    proof {
        lemma_small_mod((2 * old(x).value()) as nat, pow2(64 * old(x)@.len()));
    }
    if !x.lt(md) {
        let uf = x.sub_noborrow(md);
        proof {
            assert(!uf);
            lemma_fundamental_div_mod_converse(
                (2 * old(x).value()) as int,
                m as int,
                1,
                2 * old(x).value() - m,
            );
        }
    } else {
        proof {
            lemma_small_mod((2 * old(x).value()) as nat, m);
        }
    }
}

/// One Newton step for the word inverse: squaring the iterate and
/// multiplying by the modulus word doubles nothing but gains one more
/// correct low bit.
proof fn lemma_newton_step(ipre: u64, m0: u64, inext: u64, k: nat)
    requires
        k <= 62,
        (ipre as nat * m0 as nat) % pow2(k + 1) == 1,
        inext as nat == (((ipre as nat * ipre as nat) % pow2(64)) * m0 as nat) % pow2(64),
    ensures
        (inext as nat * m0 as nat) % pow2(k + 2) == 1,
{
    lemma2_to64();
    lemma2_to64_rest();
    let p64 = pow2(64);
    let w = ipre as nat * m0 as nat;
    // inext * m0 is congruent to w * w modulo 2^64
    assert((inext as nat * m0 as nat) % p64 == (w * w) % p64) by {
        lemma_mul_mod_noop_left((ipre as nat * ipre as nat) as int, m0 as int, p64 as int);
        lemma_mul_mod_noop_left(
            ((ipre as nat * ipre as nat) * m0 as nat) as int,
            m0 as int,
            p64 as int,
        );
        assert(inext as nat * m0 as nat == (((ipre as nat * ipre as nat) % p64) * m0 as nat)
            % p64 * m0 as nat);
        lemma_mul_mod_noop_left(
            (((ipre as nat * ipre as nat) % p64) * m0 as nat) as int,
            m0 as int,
            p64 as int,
        );
        assert((ipre as nat * ipre as nat) * m0 as nat * m0 as nat == w * w)
            by (nonlinear_arith)
            requires
                w == ipre as nat * m0 as nat,
        {}
    }
    // w has its low k+1 bits equal to one, so its square has k+2 such bits
    lemma_fundamental_div_mod(w as int, pow2(k + 1) as int);
    let q = w as int / pow2(k + 1) as int;
    assert(w as int == pow2(k + 1) * q + 1);
    lemma_pow2_adds(k + 1, k + 1);
    lemma_pow2_adds(k + 2, k);
    lemma_pow2_adds(k + 1, 1);
    assert(w as int * w as int == pow2(k + 2) * (pow2(k) * q * q + q) + 1) by (nonlinear_arith)
        requires
            w as int == pow2(k + 1) * q + 1,
            pow2(2 * k + 2) == pow2(k + 2) * pow2(k),
            pow2(k + 1) * pow2(k + 1) == pow2(2 * k + 2),
            pow2(k + 2) == pow2(k + 1) * 2,
    {}
    assert((w as int * w as int) % pow2(k + 2) as int == 1) by {
        lemma_mod_multiples_vanish(
            pow2(k) as int * q * q + q,
            1,
            pow2(k + 2) as int,
        );
        lemma_small_mod(1, pow2(k + 2));
        lemma_pow2_pos(k + 2);
    }
    // reduce the 64-bit congruence down to k+2 bits
    lemma_pow2_adds(k + 2, (62 - k) as nat);
    lemma_mod_mod((inext as nat * m0 as nat) as int, pow2(k + 2) as int, pow2((62 - k) as nat) as int);
    lemma_mod_mod((w * w) as int, pow2(k + 2) as int, pow2((62 - k) as nat) as int);
    lemma_pow2_pos(k + 2);
    lemma_pow2_pos((62 - k) as nat);
}

impl FieldParams {
    /// Derives all field constants from a modulus and a quadratic-nonresidue
    /// generator, both given in the limb width the field is to use.
    /// Construction fails exactly when the inputs are malformed: a zero
    /// width or one too large, mismatched widths, an even or too small
    /// modulus, a modulus whose double does not fit the width, or a
    /// generator that is zero or not reduced.
    pub fn new(modulus: Repr, generator: Repr) -> (r: Option<FieldParams>)
        ensures
            r.is_some() <==> {
                &&& 1 <= modulus@.len()
                &&& modulus@.len() <= 0x3f_ffff
                &&& generator@.len() == modulus@.len()
                &&& as_nat(modulus@) % 2 == 1
                &&& 3 <= as_nat(modulus@)
                &&& 2 * as_nat(modulus@) <= pow2(64 * modulus@.len())
                &&& 0 < as_nat(generator@) < as_nat(modulus@)
            },
            match r {
                Some(fp) => {
                    &&& fp.wf()
                    &&& fp.modulus@ == modulus@
                    &&& fp.generator.value() == (as_nat(generator@) * fp.r_val()) % fp.m()
                    &&& mont_pow_rel(
                        &fp,
                        fp.generator.value(),
                        fp.t.value(),
                        fp.root_of_unity.value(),
                    )
                },
                None => true,
            },
    {
        let n = modulus.limbs.len();
        if n == 0 || n > 0x3f_ffff {
            return None;
        }
        if generator.limbs.len() != n {
            return None;
        }
        if !modulus.is_odd() {
            return None;
        }
        let one_repr = Repr::from_u64(1, n);
        let ghost m = as_nat(modulus@);
        if modulus == one_repr {
            return None;
        }
        proof {
            if m < 3 {
                assert(m % 2 == 1);
                assert(m == 1);
                lemma_as_nat_injective(modulus@, one_repr@);
                assert(false);
            }
        }
        let bits = modulus.num_bits();
        let nbits: u32 = 64 * (n as u32);
        proof {
            lemma_pow2_pos(64 * n as nat);
        }
        if bits >= nbits {
            proof {
                // an odd modulus of full width cannot have its double fit
                assert(bits >= 1);
                assert(pow2((bits - 1) as nat) <= m);
                if ((bits - 1) as nat) >= 64 * (n as nat) {
                    if ((bits - 1) as nat) > 64 * (n as nat) {
                        lemma_pow2_strictly_increases(64 * n as nat, (bits - 1) as nat);
                    }
                    assert(pow2(64 * n as nat) <= m);
                    assert(2 * m > pow2(64 * n as nat));
                } else {
                    assert((bits - 1) as nat == (64 * n as nat - 1) as nat);
                    lemma2_to64();
                    lemma_pow2_adds(1, (64 * n as nat - 1) as nat);
                    assert(pow2(64 * n as nat) == 2 * pow2((64 * n as nat - 1) as nat));
                    assert(2 * m >= pow2(64 * n as nat));
                    if 2 * m == pow2(64 * n as nat) {
                        assert(m == pow2((64 * n as nat - 1) as nat));
                        lemma2_to64();
                        lemma_pow2_adds(1, (64 * n as nat - 2) as nat);
                        assert(m % 2 == 1);
                        assert(pow2((64 * n as nat - 1) as nat) == 2 * pow2(
                            (64 * n as nat - 2) as nat,
                        ));
                        assert(false);
                    }
                }
            }
            return None;
        }
        proof {
            // the double of the modulus fits: one more bit suffices
            assert(m < pow2(bits as nat));
            assert(2 * m < pow2((bits + 1) as nat)) by {
                lemma2_to64();
                lemma_pow2_adds(1, bits as nat);
            }
            if ((bits + 1) as nat) < 64 * (n as nat) {
                lemma_pow2_strictly_increases((bits + 1) as nat, 64 * n as nat);
            }
            assert(2 * m <= pow2(64 * n as nat));
        }
        if generator.is_zero() {
            return None;
        }
        if !generator.lt(&modulus) {
            return None;
        }
        // the word inverse by Newton iteration, 63 steps from one correct bit
        let m0 = modulus.limbs[0];
        proof {
            lemma_as_nat_parity(modulus@);
            lemma2_to64();
            assert(m0 % 2 == 1);
            assert((1 as nat * m0 as nat) % pow2(1) == 1);
        }
        let mut inv: u64 = 1;
        let mut k: usize = 0;
        while k < 63
            invariant
                k <= 63,
                m0 == modulus@[0],
                (inv as nat * m0 as nat) % pow2((k + 1) as nat) == 1,
            decreases 63 - k,
        {
            let ghost ipre = inv;
            inv = inv.wrapping_mul(inv).wrapping_mul(m0);
            k += 1;
            proof {
                lemma2_to64();
                lemma2_to64_rest();
                lemma_newton_step(ipre, m0, inv, (k - 1) as nat);
            }
        }
        proof {
            lemma2_to64();
            lemma2_to64_rest();
            lemma_pow2_pos(64);
            if inv == 0 {
                assert(inv as nat * m0 as nat == 0) by (nonlinear_arith)
                    requires
                        inv as nat == 0,
                {}
                lemma_small_mod(0, pow2(64));
                assert(false);
            }
        }
        let inv_neg: u64 = 0u64.wrapping_sub(inv);
        proof {
            let p64 = pow2(64);
            assert(inv_neg as nat == p64 - inv as nat);
            lemma_fundamental_div_mod((inv as nat * m0 as nat) as int, p64 as int);
            let q = (inv as nat * m0 as nat) as int / p64 as int;
            assert(inv as nat * m0 as nat == p64 * q + 1);
            assert(inv_neg as nat * m0 as nat + 1 == p64 * (m0 as int - q)) by (nonlinear_arith)
                requires
                    inv_neg as nat == p64 - inv as nat,
                    inv as nat * m0 as nat == p64 * q + 1,
            {}
            assert((inv_neg as nat * m0 as nat + 1) % p64 == 0) by {
                vstd::arithmetic::div_mod::lemma_mod_multiples_basic(m0 as int - q, p64 as int);
                assert(p64 * (m0 as int - q) == (m0 as int - q) * p64 as int)
                    by (nonlinear_arith);
            }
        }
        // the Montgomery factors by repeated modular doubling
        let mut x = one_repr.clone();
        let mut dk: usize = 0;
        let total: usize = 64 * n;
        proof {
            lemma2_to64();
            lemma_small_mod(1, m);
        }
        while dk < total
            invariant
                dk <= total,
                total == 64 * n,
                total <= 0xfff_ffc0,
                n == modulus@.len(),
                3 <= m,
                m % 2 == 1,
                m == as_nat(modulus@),
                2 * m <= pow2(64 * n as nat),
                x@.len() == n,
                x.value() == pow2(dk as nat) % m,
            decreases total - dk,
        {
            proof {
                vstd::arithmetic::div_mod::lemma_mod_bound(
                    pow2(dk as nat) as int,
                    m as int,
                );
            }
            double_mod(&mut x, &modulus, Ghost(m));
            dk += 1;
            proof {
                lemma_mul_mod_noop_right(2, pow2((dk - 1) as nat) as int, m as int);
                lemma_pow2_adds(1, (dk - 1) as nat);
                lemma2_to64();
            }
        }
        let r_repr = x.clone();
        proof {
            vstd::arithmetic::div_mod::lemma_mod_bound(pow2(64 * n as nat) as int, m as int);
        }
        while dk < 2 * total
            invariant
                total <= dk <= 2 * total,
                total == 64 * n,
                total <= 0xfff_ffc0,
                n == modulus@.len(),
                3 <= m,
                m % 2 == 1,
                m == as_nat(modulus@),
                2 * m <= pow2(64 * n as nat),
                x@.len() == n,
                x.value() == pow2(dk as nat) % m,
            decreases 2 * total - dk,
        {
            proof {
                vstd::arithmetic::div_mod::lemma_mod_bound(
                    pow2(dk as nat) as int,
                    m as int,
                );
            }
            double_mod(&mut x, &modulus, Ghost(m));
            dk += 1;
            proof {
                lemma_mul_mod_noop_right(2, pow2((dk - 1) as nat) as int, m as int);
                lemma_pow2_adds(1, (dk - 1) as nat);
                lemma2_to64();
            }
        }
        let r2_repr = x;
        proof {
            // R^2 mod m is the residue of the square of R
            lemma_pow2_adds(64 * n as nat, 64 * n as nat);
            lemma_mul_mod_noop(
                pow2(64 * n as nat) as int,
                pow2(64 * n as nat) as int,
                m as int,
            );
            vstd::arithmetic::div_mod::lemma_mod_bound(pow2(64 * n as nat) as int, m as int);
        }
        // the odd part of m - 1
        let mut t = modulus.clone();
        let uf = t.sub_noborrow(&one_repr);
        proof {
            assert(!uf);
            lemma2_to64();
            assert(pow2(0) == 1);
            assert(t.value() * pow2(0) == t.value());
        }
        let mut s: u32 = 0;
        while t.is_even()
            invariant
                n == modulus@.len(),
                64 * n <= 0xffff_ffff,
                3 <= m,
                m == as_nat(modulus@),
                2 * m <= pow2(64 * n as nat),
                t@.len() == n,
                1 <= t.value(),
                t.value() * pow2(s as nat) == m - 1,
                s <= 64 * n,
            decreases t.value(),
        {
            let ghost tpre = t.value();
            t.div2();
            s = s + 1;
            proof {
                lemma_fundamental_div_mod(tpre as int, 2);
                assert(2 * t.value() == tpre);
                assert(1 <= t.value());
                lemma_pow2_adds(1, (s - 1) as nat);
                lemma2_to64();
                assert(t.value() * pow2(s as nat) == m - 1) by (nonlinear_arith)
                    requires
                        tpre * pow2((s - 1) as nat) == m - 1,
                        2 * t.value() == tpre,
                        pow2(s as nat) == 2 * pow2((s - 1) as nat),
                {}
                // the exponent stays below the bit width
                assert(pow2(s as nat) <= m - 1) by (nonlinear_arith)
                    requires
                        t.value() * pow2(s as nat) == m - 1,
                        1 <= t.value(),
                {}
                assert(s <= 64 * n) by {
                    if (s as nat) > 64 * (n as nat) {
                        lemma_pow2_strictly_increases(64 * n as nat, s as nat);
                        assert(pow2(s as nat) > pow2(64 * n as nat));
                    }
                }
            }
        }
        // assemble the parameters, encoding the generator and deriving the
        // root of unity through the now-complete Montgomery machinery
        let zero_repr = Repr::from_u64(0, n);
        let mut fp = FieldParams {
            modulus,
            modulus_bits: bits,
            repr_shave_bits: nbits - bits,
            r: r_repr,
            r2: r2_repr,
            inv: inv_neg,
            generator: zero_repr.clone(),
            s,
            t,
            root_of_unity: zero_repr,
        };
        proof {
            assert(fp.m() == m);
            assert(fp.t.value() * pow2(fp.s as nat) == m - 1);
            assert(fp.wf());
        }
        let gen_elem = match FieldElement::from_repr(generator, &fp) {
            Ok(e) => e,
            Err(_) => {
                proof {
                    assert(false);
                }
                return None;
            },
        };
        let root = gen_elem.pow(&fp.t, &fp);
        fp.generator = gen_elem.0;
        fp.root_of_unity = root.0;
        proof {
            assert(fp.wf());
            // the root of unity is the Montgomery power of the encoded
            // generator by the odd part of m - 1; swapping the placeholder
            // fields in changed neither the modulus nor the Montgomery
            // factor the relation speaks of
            assert(mont_pow_rel(
                &fp,
                fp.generator.value(),
                fp.t.value(),
                fp.root_of_unity.value(),
            ));
        }
        Some(fp)
    }
}

} // verus!
