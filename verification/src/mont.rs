//! Montgomery multiplication: the schoolbook double-width product, the
//! Montgomery reduction that divides by the Montgomery factor modulo `m`,
//! and the conversions between canonical and Montgomery representation.

use vstd::prelude::*;
use vstd::arithmetic::power2::{pow2, lemma_pow2_adds, lemma2_to64, lemma2_to64_rest};
use vstd::arithmetic::div_mod::{
    lemma_small_mod, lemma_fundamental_div_mod, lemma_fundamental_div_mod_converse,
    lemma_mod_bound, lemma_mod_multiples_vanish, lemma_mul_mod_noop_left,
    lemma_mul_mod_noop_right, lemma_add_mod_noop_right,
};
use vstd::arithmetic::mul::{
    lemma_mul_is_associative, lemma_mul_is_commutative, lemma_mul_inequality,
    lemma_mul_strict_inequality,
};
use crate::limbs::{
    Repr, as_nat, mac_with_carry, adc, lemma_as_nat_zero, lemma_as_nat_bound, lemma_as_nat_split,
    lemma_as_nat_update, lemma_as_nat_take_succ,
};
use crate::params::FieldParams;
use crate::field::FieldElement;
use crate::modmath::lemma_mont_unique;

verus! {

/// The error reported when a canonical representation is rejected because it
/// is not below the modulus.
#[derive(Clone, Debug, PartialEq, Eq, Structural)]
pub struct InvalidReprError;

/// One multiply-accumulate written back at weight `pk` advances the running
/// accumulation by exactly `x * y` at that weight: the bookkeeping step all
/// the carry-chain loops share.
proof fn lemma_mac_value_step(
    vpre: nat,
    vpost: nat,
    pk: nat,
    p64: nat,
    pi: nat,
    pj: nat,
    r: nat,
    cur: nat,
    x: nat,
    y: nat,
    c0: nat,
    c1: nat,
    p0: nat,
    acc: nat,
)
    requires
        vpost as int == vpre + pk * (r as int - cur as int),
        r + p64 * c1 == cur + x * y + c0,
        vpre + c0 * pk == p0 + x * (pi * acc),
        pk == pi * pj,
    ensures
        vpost + c1 * (pk * p64) == p0 + x * (pi * (acc + y * pj)),
{
    assert(pk * (r as int - cur as int) == pk * (x * y) + pk * c0 - pk * (p64 * c1))
        by (nonlinear_arith)
        requires
            r + p64 * c1 == cur + x * y + c0,
    {}
    assert(c1 * (pk * p64) == pk * (p64 * c1)) by (nonlinear_arith);
    assert(pk * c0 == c0 * pk) by (nonlinear_arith);
    assert(vpost + c1 * (pk * p64) == p0 + x * (pi * acc) + pk * (x * y));
    assert(pk * (x * y) == x * (pi * (y * pj))) by (nonlinear_arith)
        requires
            pk == pi * pj,
    {}
    assert(x * (pi * acc) + x * (pi * (y * pj)) == x * (pi * (acc + y * pj)))
        by (nonlinear_arith);
}

/// Propagating a carry one limb upward keeps the value-with-carry
/// bookkeeping unchanged.
proof fn lemma_carry_value_step(
    vpre: nat,
    vpost: nat,
    pk: nat,
    p64: nat,
    r: nat,
    cur: nat,
    c0: nat,
    c1: nat,
)
    requires
        vpost as int == vpre + pk * (r as int - cur as int),
        r + p64 * c1 == cur + c0,
    ensures
        vpost + c1 * (pk * p64) == vpre + c0 * pk,
{
    assert(pk * (r as int - cur as int) == pk * c0 - pk * (p64 * c1)) by (nonlinear_arith)
        requires
            r + p64 * c1 == cur + c0,
    {}
    assert(c1 * (pk * p64) == pk * (p64 * c1)) by (nonlinear_arith);
    assert(pk * c0 == c0 * pk) by (nonlinear_arith);
}

/// Schoolbook product of two equally wide limb vectors: the double-width
/// limb vector holding the exact product of the represented values.
fn mul_limbs(a: &Repr, b: &Repr) -> (prod: Vec<u64>)
    requires
        a@.len() == b@.len(),
        1 <= a@.len(),
        64 * a@.len() <= 0xffff_ffff,
    ensures
        prod@.len() == 2 * a@.len(),
        as_nat(prod@) == a.value() * b.value(),
{
    let n = a.limbs.len();
    let mut prod: Vec<u64> = Vec::new();
    while prod.len() < 2 * n
        invariant
            n == a@.len(),
            64 * n <= 0xffff_ffff,
            prod@.len() <= 2 * n,
            forall|j: int| 0 <= j < prod@.len() ==> prod@[j] == 0,
        decreases 2 * n - prod@.len(),
    {
        prod.push(0u64);
    }
    proof {
        lemma_as_nat_zero(prod@);
        assert(a@.take(0) =~= Seq::<u64>::empty());
        reveal_with_fuel(as_nat, 2);
        assert(as_nat(a@.take(0)) == 0);
        assert(as_nat(a@.take(0)) * b.value() == 0) by (nonlinear_arith)
            requires
                as_nat(a@.take(0)) == 0,
        {}
    }
    let mut i: usize = 0;
    while i < n
        invariant
            n == a@.len(),
            n == b@.len(),
            64 * n <= 0xffff_ffff,
            prod@.len() == 2 * n,
            0 <= i <= n,
            forall|j: int| n + i <= j < 2 * n ==> prod@[j] == 0,
            as_nat(prod@) == as_nat(a@.take(i as int)) * b.value(),
        decreases n - i,
    {
        let mut carry: u64 = 0;
        let mut j: usize = 0;
        let ghost p0val = as_nat(prod@);
        let ai = a.limbs[i];
        proof {
            assert(b@.take(0) =~= Seq::<u64>::empty());
            reveal_with_fuel(as_nat, 2);
            assert(ai as nat * (pow2(64 * i as nat) * 0) == 0) by (nonlinear_arith);
        }
        while j < n
            invariant
                n == a@.len(),
                n == b@.len(),
                64 * n <= 0xffff_ffff,
                prod@.len() == 2 * n,
                0 <= i < n,
                0 <= j <= n,
                ai == a@[i as int],
                forall|jj: int| n + i <= jj < 2 * n ==> prod@[jj] == 0,
                as_nat(prod@) + carry as nat * pow2(64 * (i + j) as nat) == p0val + ai as nat * (
                pow2(64 * i as nat) * as_nat(b@.take(j as int))),
            decreases n - j,
        {
            let ghost pre = prod@;
            let ghost c0 = carry;
            let cur = prod[i + j];
            let r = mac_with_carry(cur, ai, b.limbs[j], &mut carry);
            prod[i + j] = r;
            j += 1;
            proof {
                let k = i as int + j - 1;
                let jj = j as int - 1;
                assert(prod@ == pre.update(k, r));
                assert(cur == pre[k]);
                lemma_as_nat_update(pre, k, r);
                lemma_as_nat_take_succ(b@, jj);
                lemma_pow2_adds(64 * k as nat, 64);
                lemma_pow2_adds(64 * i as nat, 64 * jj as nat);
                let pk = pow2(64 * k as nat);
                let p64 = pow2(64);
                let pi = pow2(64 * i as nat);
                let pj = pow2(64 * jj as nat);
                let bj = b@[jj];
                let btj = as_nat(b@.take(jj));
                let btj1 = as_nat(b@.take(jj + 1));
                assert(pk == pi * pj);
                assert(pow2(64 * (k + 1) as nat) == pk * p64);
                lemma_mac_value_step(
                    as_nat(pre),
                    as_nat(prod@),
                    pk,
                    p64,
                    pi,
                    pj,
                    r as nat,
                    cur as nat,
                    ai as nat,
                    bj as nat,
                    c0 as nat,
                    carry as nat,
                    p0val,
                    btj,
                );
                assert(btj + bj as nat * pj == btj1);
                assert(as_nat(prod@) + carry as nat * (pk * p64) == p0val + ai as nat * (pi
                    * btj1));
                assert(pow2(64 * (i + j) as nat) == pk * p64);
            }
        }
        let ghost pre2 = prod@;
        let idx = i + n;
        prod[idx] = carry;
        i += 1;
        proof {
            let ii = i as int - 1;
            assert(prod@ == pre2.update(idx as int, carry));
            assert(pre2[idx as int] == 0);
            lemma_as_nat_update(pre2, idx as int, carry);
            assert(b@.take(n as int) =~= b@);
            assert(as_nat(b@.take(n as int)) == b.value());
            let pi = pow2(64 * ii as nat);
            let pw = pow2(64 * idx as nat);
            assert(as_nat(prod@) as int == as_nat(pre2) + pw * (carry as int));
            assert(pw * (carry as int) == carry as nat * pw) by (nonlinear_arith);
            assert(as_nat(pre2) + carry as nat * pow2(64 * (ii + n) as nat) == p0val + ai as nat
                * (pi * b.value()));
            assert(pow2(64 * (ii + n) as nat) == pw);
            assert(as_nat(prod@) == p0val + ai as nat * (pi * b.value()));
            lemma_as_nat_take_succ(a@, ii);
            assert(as_nat(prod@) == as_nat(a@.take(ii + 1)) * b.value()) by (nonlinear_arith)
                requires
                    as_nat(prod@) == p0val + ai as nat * (pi * b.value()),
                    p0val == as_nat(a@.take(ii)) * b.value(),
                    as_nat(a@.take(ii + 1)) == as_nat(a@.take(ii)) + ai as nat * pi,
            {}
        }
    }
    proof {
        assert(a@.take(n as int) =~= a@);
    }
    prod
}

/// Montgomery reduction of a double-width value, following Algorithm 14.32
/// of the Handbook of Applied Cryptography: for each low limb, add the
/// multiple of the modulus chosen with `inv` that zeroes it, then take the
/// top half and subtract the modulus once if needed.  The result is the
/// unique reduced value congruent to the input divided by the Montgomery
/// factor.
fn mont_reduce(t: Vec<u64>, p: &FieldParams) -> (res: Repr)
    requires
        p.wf(),
        t@.len() == 2 * p.nlimbs(),
        as_nat(t@) < p.m() * p.cap(),
    ensures
        res@.len() == p.nlimbs(),
        res.value() < p.m(),
        (res.value() * p.cap()) % p.m() == as_nat(t@) % p.m(),
{
    let n = p.modulus.limbs.len();
    let ghost t0 = as_nat(t@);
    let ghost m = p.m();
    let mut t = t;
    let mut i: usize = 0;
    let ghost mut kacc: nat = 0;
    proof {
        lemma2_to64();
        assert(m * 0 == 0) by (nonlinear_arith);
    }
    while i < n
        invariant
            p.wf(),
            n == p.nlimbs(),
            m == p.m(),
            t@.len() == 2 * n,
            0 <= i <= n,
            t0 < m * p.cap(),
            forall|j: int| 0 <= j < i ==> t@[j] == 0,
            as_nat(t@) == t0 + m * kacc,
            kacc < pow2(64 * i as nat),
        decreases n - i,
    {
        let ghost vi = as_nat(t@);
        let ti = t[i];
        let k = ti.wrapping_mul(p.inv);
        let mut carry: u64 = 0;
        let ghost pre0 = t@;
        let r0 = mac_with_carry(ti, k, p.modulus.limbs[0], &mut carry);
        t[i] = r0;
        proof {
            lemma2_to64();
            lemma2_to64_rest();
            let p64 = pow2(64);
            assert(p64 == 0x1_0000_0000_0000_0000);
            let m0 = p.modulus@[0];
            let inv = p.inv;
            assert(k as nat == (ti as nat * inv as nat) % p64);
            // k * m0 and ti * inv * m0 agree modulo 2^64
            assert(((ti as nat * inv as nat) % p64 * m0 as nat) % p64 == (ti as nat
                * inv as nat * m0 as nat) % p64) by {
                lemma_mul_mod_noop_left((ti as nat * inv as nat) as int, m0 as int, p64 as int);
            }
            assert((ti as nat + k as nat * m0 as nat) % p64 == (ti as nat + ti as nat
                * inv as nat * m0 as nat) % p64) by {
                lemma_add_mod_noop_right(
                    ti as int,
                    (k as nat * m0 as nat) as int,
                    p64 as int,
                );
                lemma_add_mod_noop_right(
                    ti as int,
                    (ti as nat * inv as nat * m0 as nat) as int,
                    p64 as int,
                );
            }
            assert(ti as nat + ti as nat * inv as nat * m0 as nat == ti as nat * (1 + inv as nat
                * m0 as nat)) by (nonlinear_arith);
            assert((ti as nat * (1 + inv as nat * m0 as nat)) % p64 == (ti as nat * ((1
                + inv as nat * m0 as nat) % p64)) % p64) by {
                lemma_mul_mod_noop_right(
                    ti as int,
                    (1 + inv as nat * m0 as nat) as int,
                    p64 as int,
                );
            }
            assert((inv as nat * m0 as nat + 1) % p64 == 0);
            assert(ti as nat * 0 == 0) by (nonlinear_arith);
            assert((ti as nat + k as nat * m0 as nat) % p64 == 0);
            assert(r0 as nat + p64 * (carry as nat) == ti as nat + k as nat * m0 as nat);
            assert((ti as nat + k as nat * m0 as nat) as int == carry as int * (p64 as int)
                + r0 as int) by (nonlinear_arith)
                requires
                    r0 as nat + p64 * (carry as nat) == ti as nat + k as nat * m0 as nat,
            {}
            lemma_fundamental_div_mod_converse(
                (ti as nat + k as nat * m0 as nat) as int,
                p64 as int,
                carry as int,
                r0 as int,
            );
            assert(r0 == 0);
            // the update wrote zero at position i
            assert(t@ == pre0.update(i as int, r0));
            lemma_as_nat_update(pre0, i as int, r0);
            lemma_as_nat_take_succ(p.modulus@, 0);
            assert(p.modulus@.take(0) =~= Seq::<u64>::empty());
            reveal_with_fuel(as_nat, 2);
            assert(as_nat(p.modulus@.take(1)) == m0 as nat);
            let pi = pow2(64 * i as nat);
            lemma_pow2_adds(64 * i as nat, 64);
            assert(pow2(64 * (i + 1) as nat) == pi * p64);
            assert(0 as nat * pi == 0) by (nonlinear_arith);
            assert(k as nat * (pi * 0) == 0) by (nonlinear_arith);
            assert(pi * 1 == pi) by (nonlinear_arith);
            lemma_mac_value_step(
                vi,
                as_nat(t@),
                pi,
                p64,
                pi,
                1,
                r0 as nat,
                ti as nat,
                k as nat,
                m0 as nat,
                0,
                carry as nat,
                vi,
                0,
            );
            assert(0 + m0 as nat * 1 == m0 as nat);
            assert(as_nat(t@) + carry as nat * (pi * p64) == vi + k as nat * (pi * as_nat(
                p.modulus@.take(1),
            )));
        }
        let mut j: usize = 1;
        while j < n
            invariant
                p.wf(),
                n == p.nlimbs(),
                64 * n <= 0xffff_ffff,
                t@.len() == 2 * n,
                0 <= i < n,
                1 <= j <= n,
                forall|jj: int| 0 <= jj <= i ==> t@[jj] == 0,
                as_nat(t@) + carry as nat * pow2(64 * (i + j) as nat) == vi + k as nat * (pow2(
                    64 * i as nat,
                ) * as_nat(p.modulus@.take(j as int))),
            decreases n - j,
        {
            let ghost pre = t@;
            let ghost c0 = carry;
            let cur = t[i + j];
            let r = mac_with_carry(cur, k, p.modulus.limbs[j], &mut carry);
            t[i + j] = r;
            j += 1;
            proof {
                let kk = i as int + j - 1;
                let jj = j as int - 1;
                assert(t@ == pre.update(kk, r));
                assert(cur == pre[kk]);
                lemma_as_nat_update(pre, kk, r);
                lemma_as_nat_take_succ(p.modulus@, jj);
                lemma_pow2_adds(64 * kk as nat, 64);
                lemma_pow2_adds(64 * i as nat, 64 * jj as nat);
                let pk = pow2(64 * kk as nat);
                let p64 = pow2(64);
                let pi = pow2(64 * i as nat);
                let pj = pow2(64 * jj as nat);
                let mj = p.modulus@[jj];
                let mtj = as_nat(p.modulus@.take(jj));
                let mtj1 = as_nat(p.modulus@.take(jj + 1));
                assert(pk == pi * pj);
                assert(pow2(64 * (kk + 1) as nat) == pk * p64);
                lemma_mac_value_step(
                    as_nat(pre),
                    as_nat(t@),
                    pk,
                    p64,
                    pi,
                    pj,
                    r as nat,
                    cur as nat,
                    k as nat,
                    mj as nat,
                    c0 as nat,
                    carry as nat,
                    vi,
                    mtj,
                );
                assert(mtj + mj as nat * pj == mtj1);
                assert(as_nat(t@) + carry as nat * (pk * p64) == vi + k as nat * (pi * mtj1));
                assert(pow2(64 * (i + j) as nat) == pk * p64);
            }
        }
        proof {
            assert(p.modulus@.take(n as int) =~= p.modulus@);
        }
        let mut idx: usize = i + n;
        while idx < 2 * n
            invariant
                p.wf(),
                n == p.nlimbs(),
                64 * n <= 0xffff_ffff,
                t@.len() == 2 * n,
                0 <= i < n,
                i + n <= idx <= 2 * n,
                forall|jj: int| 0 <= jj <= i ==> t@[jj] == 0,
                as_nat(t@) + carry as nat * pow2(64 * idx as nat) == vi + k as nat * (pow2(
                    64 * i as nat,
                ) * p.m()),
            decreases 2 * n - idx,
        {
            let ghost pre = t@;
            let ghost c0 = carry;
            let cur = t[idx];
            let r = adc(cur, 0, &mut carry);
            t[idx] = r;
            idx += 1;
            proof {
                let kk = idx as int - 1;
                assert(t@ == pre.update(kk, r));
                assert(cur == pre[kk]);
                lemma_as_nat_update(pre, kk, r);
                lemma_pow2_adds(64 * kk as nat, 64);
                let pk = pow2(64 * kk as nat);
                let p64 = pow2(64);
                assert(pow2(64 * (kk + 1) as nat) == pk * p64);
                lemma_carry_value_step(
                    as_nat(pre),
                    as_nat(t@),
                    pk,
                    p64,
                    r as nat,
                    cur as nat,
                    c0 as nat,
                    carry as nat,
                );
                assert(pow2(64 * idx as nat) == pk * p64);
            }
        }
        i += 1;
        proof {
            let ii = i as int - 1;
            let pi = pow2(64 * ii as nat);
            let cap = p.cap();
            // the outstanding carry must be zero: the running value fits the
            // double width
            lemma_pow2_adds(64 * n as nat, 64 * n as nat);
            assert(pow2(64 * (2 * n) as nat) == cap * cap);
            let knew = kacc + k as nat * pi;
            vstd::arithmetic::power2::lemma_pow2_pos(64 * ii as nat);
            lemma2_to64();
            lemma2_to64_rest();
            assert(pow2(64 * (ii + 1) as nat) == pi * pow2(64)) by {
                lemma_pow2_adds(64 * ii as nat, 64);
            }
            assert(knew < pow2(64 * (ii + 1) as nat)) by (nonlinear_arith)
                requires
                    knew == kacc + k as nat * pi,
                    kacc < pi,
                    (k as nat) < pow2(64),
                    pow2(64 * (ii + 1) as nat) == pi * pow2(64),
                    pi >= 1,
                {}
            assert(vi + k as nat * (pi * m) == t0 + m * knew) by (nonlinear_arith)
                requires
                    vi == t0 + m * kacc,
                    knew == kacc + k as nat * pi,
            {}
            assert(knew < pow2(64 * i as nat));
            assert(pow2(64 * i as nat) <= cap) by {
                if i < n {
                    vstd::arithmetic::power2::lemma_pow2_strictly_increases(
                        64 * i as nat,
                        64 * n as nat,
                    );
                }
            }
            assert(t0 + m * knew < cap * cap) by (nonlinear_arith)
                requires
                    t0 < m * cap,
                    knew < cap,
                    2 * m <= cap,
                    m >= 1,
            {}
            assert(carry == 0) by {
                if carry >= 1 {
                    assert(carry as nat * pow2(64 * (2 * n) as nat) >= pow2(
                        64 * (2 * n) as nat,
                    )) by (nonlinear_arith)
                        requires
                            carry as nat >= 1,
                    {}
                }
            }
            kacc = knew;
            assert(as_nat(t@) == t0 + m * kacc);
        }
    }
    // the low half is now zero; the top half is the reduced value before the
    // final conditional subtraction
    let mut out: Vec<u64> = Vec::new();
    let mut q: usize = n;
    while q < 2 * n
        invariant
            t@.len() == 2 * n,
            64 * n <= 0xffff_ffff,
            n <= q <= 2 * n,
            out@ =~= t@.subrange(n as int, q as int),
        decreases 2 * n - q,
    {
        out.push(t[q]);
        q += 1;
    }
    let mut res = Repr { limbs: out };
    proof {
        let cap = p.cap();
        assert(res@ =~= t@.skip(n as int));
        lemma_as_nat_split(t@, n as int);
        lemma_as_nat_zero(t@.take(n as int));
        assert(forall|j: int| 0 <= j < n ==> t@.take(n as int)[j] == t@[j]);
        assert(as_nat(t@.take(n as int)) == 0);
        assert(as_nat(t@) == cap * res.value());
        assert(cap * res.value() == res.value() * cap) by {
            lemma_mul_is_commutative(cap as int, res.value() as int);
        }
        // value bound below 2m
        assert(res.value() < 2 * m) by (nonlinear_arith)
            requires
                res.value() * cap == t0 + m * kacc,
                t0 < m * cap,
                kacc < cap,
                cap >= 1,
                m >= 1,
        {}
        // congruence: the multiples of m vanish
        lemma_mod_multiples_vanish(kacc as int, t0 as int, m as int);
        assert((res.value() * cap) % m == t0 % m);
    }
    let ghost v0 = res.value();
    if !res.lt(&p.modulus) {
        let underflow = res.sub_noborrow(&p.modulus);
        proof {
            assert(!underflow);
            // subtracting m once keeps the congruence
            assert(res.value() * p.cap() as int == v0 * p.cap() - m * p.cap()) by (nonlinear_arith)
                requires
                    res.value() as int == v0 - m,
            {}
            assert((v0 * p.cap() - m * p.cap()) % (m as int) == (v0 * p.cap()) as int % (m as int)) by {
                lemma_mod_multiples_vanish(
                    -(p.cap() as int),
                    (v0 * p.cap()) as int,
                    m as int,
                );
                assert(m as int * -(p.cap() as int) == -(m * p.cap() as int)) by (nonlinear_arith);
            }
        }
    }
    res
}

impl FieldElement {
    /// Montgomery product: the result is the unique reduced representative
    /// with `new * 2^(64*limb_count) ≡ old * other (mod m)`, i.e. the
    /// Montgomery encoding of the product of the represented values.
    pub fn mul_assign(&mut self, other: &FieldElement, p: &FieldParams)
        requires
            p.wf(),
            old(self).wf(p),
            other.wf(p),
        ensures
            final(self).wf(p),
            (final(self).value() * p.cap()) % p.m() == (old(self).value() * other.value())
                % p.m(),
    {
        proof {
            let a = old(self).value();
            let b = other.value();
            assert(a * b < p.m() * p.cap()) by (nonlinear_arith)
                requires
                    a < p.m(),
                    b < p.m(),
                    2 * p.m() <= p.cap(),
                    p.m() >= 1,
            {}
        }
        let prod = mul_limbs(&self.0, &other.0);
        self.0 = mont_reduce(prod, p);
    }

    /// Montgomery squaring: the same reduction applied to the square of the
    /// representative.
    pub fn square(&mut self, p: &FieldParams)
        requires
            p.wf(),
            old(self).wf(p),
        ensures
            final(self).wf(p),
            (final(self).value() * p.cap()) % p.m() == (old(self).value() * old(self).value())
                % p.m(),
    {
        proof {
            let a = old(self).value();
            assert(a * a < p.m() * p.cap()) by (nonlinear_arith)
                requires
                    a < p.m(),
                    2 * p.m() <= p.cap(),
                    p.m() >= 1,
            {}
        }
        let prod = mul_limbs(&self.0, &self.0);
        self.0 = mont_reduce(prod, p);
    }

    /// Converts a canonical integer into Montgomery form by multiplying with
    /// `R^2`; a representation at or above the modulus is rejected.
    pub fn from_repr(r: Repr, p: &FieldParams) -> (res: Result<FieldElement, InvalidReprError>)
        requires
            p.wf(),
            r@.len() == p.nlimbs(),
        ensures
            match res {
                Ok(e) => r.value() < p.m() && e.wf(p) && e.value() == (r.value() * p.r_val())
                    % p.m(),
                Err(_) => r.value() >= p.m(),
            },
    {
        let ghost a = r.value();
        let ghost m = p.m();
        let ghost rv = p.r_val();
        let ghost cap = p.cap();
        let mut e = FieldElement(r);
        if e.is_valid(p) {
            proof {
                lemma_mod_bound((rv * rv) as int, m as int);
            }
            let r2e = FieldElement(p.r2.clone());
            e.mul_assign(&r2e, p);
            proof {
                // e * cap ≡ a * r2 ≡ a * rv * rv ≡ (a * rv) * cap, and both
                // sides are reduced, so e is exactly (a * rv) mod m.
                let target = (a * rv) % m;
                assert((e.value() * cap) % m == (a * ((rv * rv) % m)) % m);
                assert((a * ((rv * rv) % m)) % m == (a * (rv * rv)) % m) by {
                    lemma_mul_mod_noop_right(a as int, (rv * rv) as int, m as int);
                }
                assert(a * (rv * rv) == (a * rv) * rv) by (nonlinear_arith);
                assert(rv == cap % m);
                assert(((a * rv) * rv) % m == ((a * rv) * (cap % m)) % m);
                assert(((a * rv) * (cap % m)) % m == ((a * rv) * cap) % m) by {
                    lemma_mul_mod_noop_right((a * rv) as int, cap as int, m as int);
                }
                assert((target * cap) % m == ((a * rv) * cap) % m) by {
                    lemma_mul_mod_noop_left((a * rv) as int, cap as int, m as int);
                }
                lemma_mod_bound((a * rv) as int, m as int);
                lemma_mont_unique(p, e.value(), target);
            }
            Ok(e)
        } else {
            Err(InvalidReprError)
        }
    }

    /// Strips the Montgomery factor by reducing the representative padded
    /// with zero high limbs, yielding the canonical integer the element
    /// stands for.
    pub fn into_repr(&self, p: &FieldParams) -> (r: Repr)
        requires
            p.wf(),
            self.wf(p),
        ensures
            r@.len() == p.nlimbs(),
            r.value() < p.m(),
            (r.value() * p.cap()) % p.m() == self.value(),
    {
        let n = p.modulus.limbs.len();
        let mut t: Vec<u64> = self.0.limbs.clone();
        proof {
            assert(t@ =~= self.0@);
        }
        while t.len() < 2 * n
            invariant
                n == p.nlimbs(),
                64 * n <= 0xffff_ffff,
                n <= t@.len() <= 2 * n,
                as_nat(t@) == self.value(),
            decreases 2 * n - t@.len(),
        {
            let ghost pre = t@;
            t.push(0u64);
            proof {
                assert(t@ =~= pre.push(0u64));
                crate::limbs::lemma_as_nat_snoc(pre, 0u64);
                assert(0 as nat * pow2(64 * pre.len()) == 0) by (nonlinear_arith);
            }
        }
        proof {
            assert(self.value() < p.m() * p.cap()) by (nonlinear_arith)
                requires
                    self.value() < p.m(),
                    p.cap() >= 1,
                    p.m() >= 1,
            {}
            vstd::arithmetic::power2::lemma_pow2_pos(64 * p.nlimbs());
            lemma_small_mod(self.value(), p.m());
        }
        mont_reduce(t, p)
    }
}


} // verus!
