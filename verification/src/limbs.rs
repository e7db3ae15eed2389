//! Little-endian 64-bit limb vectors: the big-integer representation that
//! backs the field elements, with its carry- and borrow-propagating
//! primitives.

use vstd::prelude::*;
use vstd::arithmetic::power2::{
    pow2, lemma_pow2_adds, lemma_pow2_pos, lemma2_to64, lemma2_to64_rest,
    lemma_pow2_strictly_increases,
};
use vstd::arithmetic::div_mod::{
    lemma_mod_multiples_vanish, lemma_small_mod, lemma_fundamental_div_mod,
    lemma_fundamental_div_mod_converse, lemma_div_is_ordered, lemma_div_denominator,
    lemma_basic_div, lemma_small_div_converse,
};
use vstd::arithmetic::mul::{
    lemma_mul_is_distributive_add, lemma_mul_is_distributive_sub, lemma_mul_is_associative,
    lemma_mul_is_commutative, lemma_mul_inequality, lemma_mul_strict_inequality,
    lemma_mul_is_distributive_add_other_way, lemma_mul_strictly_positive,
};

verus! {

/// Numeric value of a little-endian sequence of 64-bit limbs.
pub open spec fn as_nat(s: Seq<u64>) -> nat
    decreases s.len(),
{
    if s.len() == 0 {
        0
    } else {
        s[0] as nat + pow2(64) * as_nat(s.drop_first())
    }
}

/// Appending a limb on the most-significant end adds its value scaled by the
/// weight of that position.
pub proof fn lemma_as_nat_snoc(s: Seq<u64>, x: u64)
    ensures
        as_nat(s.push(x)) == as_nat(s) + x as nat * pow2(64 * s.len()),
    decreases s.len(),
{
    reveal_with_fuel(as_nat, 3);
    lemma2_to64();
    if s.len() == 0 {
        assert(s.push(x).drop_first() =~= Seq::<u64>::empty());
        assert(s.push(x)[0] == x);
        assert(as_nat(s.push(x).drop_first()) == 0);
        assert(as_nat(s.push(x)) == x as nat + pow2(64) * 0);
        assert(pow2(64 * s.len()) == 1);
        assert(as_nat(s) == 0);
        assert(x as nat * 1 == x as nat);
        assert(as_nat(s.push(x)) == as_nat(s) + x as nat * pow2(64 * s.len()));
    } else {
        let d = s.drop_first();
        let p1 = pow2(64 * (s.len() - 1) as nat);
        let pl = pow2(64 * s.len());
        assert(s.push(x).drop_first() =~= d.push(x));
        lemma_as_nat_snoc(d, x);
        lemma_pow2_adds(64, 64 * (s.len() - 1) as nat);
        assert(pl == pow2(64) * p1);
        assert(as_nat(s.push(x)) == s[0] as nat + pow2(64) * as_nat(d.push(x)));
        assert(as_nat(d.push(x)) == as_nat(d) + x as nat * p1);
        assert(pow2(64) * (as_nat(d) + x as nat * p1) == pow2(64) * as_nat(d) + pow2(64) * (
        x as nat * p1)) by {
            lemma_mul_is_distributive_add(
                pow2(64) as int,
                as_nat(d) as int,
                (x as nat * p1) as int,
            );
        }
        assert(pow2(64) * (x as nat * p1) == x as nat * (pow2(64) * p1)) by {
            lemma_mul_is_associative(pow2(64) as int, x as int, p1 as int);
            lemma_mul_is_commutative(pow2(64) as int, x as int);
            lemma_mul_is_associative(x as int, pow2(64) as int, p1 as int);
        }
        assert(x as nat * (pow2(64) * p1) == x as nat * pl);
        assert(as_nat(s) == s[0] as nat + pow2(64) * as_nat(d));
        assert(pow2(64) * as_nat(d.push(x)) == pow2(64) * (as_nat(d) + x as nat * p1));
        assert(as_nat(s.push(x)) == s[0] as nat + pow2(64) * as_nat(d) + x as nat * pl);
        assert(as_nat(s.push(x)) == as_nat(s) + x as nat * pow2(64 * s.len()));
    }
}

/// The value of a limb sequence is bounded by the capacity of its width.
pub proof fn lemma_as_nat_bound(s: Seq<u64>)
    ensures
        as_nat(s) < pow2(64 * s.len()),
    decreases s.len(),
{
    reveal_with_fuel(as_nat, 3);
    lemma2_to64();
    if s.len() == 0 {
    } else {
        lemma_as_nat_bound(s.drop_first());
        lemma_pow2_adds(64, 64 * (s.len() - 1) as nat);
        let r = as_nat(s.drop_first());
        assert(pow2(64) * r <= pow2(64) * (pow2(64 * (s.len() - 1) as nat) - 1)) by {
            lemma_mul_inequality(
                r as int,
                pow2(64 * (s.len() - 1) as nat) - 1,
                pow2(64) as int,
            );
            lemma_mul_is_commutative(pow2(64) as int, r as int);
            lemma_mul_is_commutative(pow2(64) as int, pow2(64 * (s.len() - 1) as nat) - 1);
        }
        assert(pow2(64) * (pow2(64 * (s.len() - 1) as nat) - 1) == pow2(64 * s.len()) - pow2(64))
            by {
            lemma_mul_is_distributive_sub(
                pow2(64) as int,
                pow2(64 * (s.len() - 1) as nat) as int,
                1,
            );
        }
    }
}

/// Splitting a limb sequence at index `k` splits its value at weight
/// `pow2(64 * k)`.
pub proof fn lemma_as_nat_split(s: Seq<u64>, k: int)
    requires
        0 <= k <= s.len(),
    ensures
        as_nat(s) == as_nat(s.take(k)) + pow2(64 * k as nat) * as_nat(s.skip(k)),
    decreases k,
{
    reveal_with_fuel(as_nat, 3);
    lemma2_to64();
    if k == 0 {
        assert(s.take(0) =~= Seq::<u64>::empty());
        assert(s.skip(0) =~= s);
        assert(as_nat(s.take(0)) == 0);
        assert(pow2(64 * k as nat) == 1);
        assert(1 * as_nat(s.skip(0)) == as_nat(s));
    } else {
        let d = s.drop_first();
        lemma_as_nat_split(d, k - 1);
        assert(s.take(k).drop_first() =~= d.take(k - 1));
        assert(s.skip(k) =~= d.skip(k - 1));
        assert(s.take(k)[0] == s[0]);
        assert(s.take(k).len() == k);
        lemma_pow2_adds(64, 64 * (k - 1) as nat);
        assert(64 + 64 * (k - 1) as nat == 64 * k as nat);
        let h = as_nat(d.skip(k - 1));
        assert(as_nat(s) == s[0] as nat + pow2(64) * as_nat(d));
        assert(as_nat(d) == as_nat(d.take(k - 1)) + pow2(64 * (k - 1) as nat) * h);
        assert(as_nat(s.take(k)) == s[0] as nat + pow2(64) * as_nat(d.take(k - 1)));
        assert(pow2(64) * (as_nat(d.take(k - 1)) + pow2(64 * (k - 1) as nat) * h) == pow2(64)
            * as_nat(d.take(k - 1)) + pow2(64) * (pow2(64 * (k - 1) as nat) * h)) by {
            lemma_mul_is_distributive_add(
                pow2(64) as int,
                as_nat(d.take(k - 1)) as int,
                (pow2(64 * (k - 1) as nat) * h) as int,
            );
        }
        assert(pow2(64) * (pow2(64 * (k - 1) as nat) * h) == pow2(64 * k as nat) * h) by {
            lemma_mul_is_associative(
                pow2(64) as int,
                pow2(64 * (k - 1) as nat) as int,
                h as int,
            );
        }
        assert(as_nat(s.skip(k)) == h);
        assert(pow2(64) * as_nat(d) == pow2(64) * (as_nat(d.take(k - 1)) + pow2(
            64 * (k - 1) as nat,
        ) * h));
        assert(as_nat(s) == s[0] as nat + pow2(64) * as_nat(d.take(k - 1)) + pow2(
            64 * k as nat,
        ) * h);
        assert(as_nat(s) == as_nat(s.take(k)) + pow2(64 * k as nat) * as_nat(s.skip(k)));
    }
}

/// Reading one limb out of the middle: the value decomposes into the low
/// part, the limb at `i`, and the high part.
pub proof fn lemma_as_nat_decompose_at(s: Seq<u64>, i: int)
    requires
        0 <= i < s.len(),
    ensures
        as_nat(s) == as_nat(s.take(i)) + pow2(64 * i as nat) * (s[i] as nat) + pow2(
            64 * (i + 1) as nat,
        ) * as_nat(s.skip(i + 1)),
{
    lemma_as_nat_split(s, i);
    let t = s.skip(i);
    assert(t.len() == s.len() - i);
    assert(t[0] == s[i]);
    assert(t.drop_first() =~= s.skip(i + 1));
    let h = as_nat(s.skip(i + 1));
    assert(as_nat(t) == s[i] as nat + pow2(64) * h);
    lemma_pow2_adds(64 * i as nat, 64);
    assert(pow2(64 * i as nat) * (s[i] as nat + pow2(64) * h) == pow2(64 * i as nat) * (
    s[i] as nat) + pow2(64 * i as nat) * (pow2(64) * h)) by {
        lemma_mul_is_distributive_add(
            pow2(64 * i as nat) as int,
            s[i] as int,
            (pow2(64) * h) as int,
        );
    }
    assert(pow2(64 * i as nat) * (pow2(64) * h) == pow2(64 * (i + 1) as nat) * h) by {
        lemma_mul_is_associative(pow2(64 * i as nat) as int, pow2(64) as int, h as int);
    }
}

/// A limb sequence has value zero exactly when every limb is zero.
pub proof fn lemma_as_nat_zero(s: Seq<u64>)
    ensures
        (as_nat(s) == 0) <==> (forall|i: int| 0 <= i < s.len() ==> s[i] == 0),
    decreases s.len(),
{
    reveal_with_fuel(as_nat, 3);
    lemma2_to64();
    if s.len() == 0 {
    } else {
        lemma_as_nat_zero(s.drop_first());
        assert(forall|i: int| 1 <= i < s.len() ==> s.drop_first()[i - 1] == s[i]);
        if as_nat(s) == 0 {
            assert(pow2(64) * as_nat(s.drop_first()) >= 0);
            assert(s[0] == 0);
            assert(as_nat(s.drop_first()) == 0) by {
                if as_nat(s.drop_first()) > 0 {
                    lemma_mul_strict_inequality(0, as_nat(s.drop_first()) as int, pow2(64) as int);
                    lemma_mul_is_commutative(pow2(64) as int, as_nat(s.drop_first()) as int);
                }
            }
        }
        if forall|i: int| 0 <= i < s.len() ==> s[i] == 0 {
            assert(as_nat(s.drop_first()) == 0);
        }
    }
}

/// The parity of the value is the parity of the least-significant limb.
pub proof fn lemma_as_nat_parity(s: Seq<u64>)
    requires
        s.len() > 0,
    ensures
        as_nat(s) % 2 == s[0] as nat % 2,
{
    lemma2_to64();
    lemma_pow2_adds(1, 63);
    let r = as_nat(s.drop_first());
    assert(pow2(64) * r == 2 * (pow2(63) * r)) by {
        lemma_mul_is_associative(2, pow2(63) as int, r as int);
    }
    lemma_mod_multiples_vanish((pow2(63) * r) as int, s[0] as int, 2);
}

/// One word of a carry-propagating addition: returns the low 64 bits of
/// `a + b + carry` and leaves the carried-out bit in `carry`.
pub fn adc(a: u64, b: u64, carry: &mut u64) -> (r: u64)
    ensures
        *old(carry) <= 1 ==> *final(carry) <= 1,
        r as nat + pow2(64) * (*final(carry) as nat) == a as nat + b as nat + *old(carry) as nat,
{
    proof {
        lemma2_to64();
    }
    let t: u128 = a as u128 + b as u128 + *carry as u128;
    let r: u64 = (t % 0x1_0000_0000_0000_0000u128) as u64;
    *carry = (t / 0x1_0000_0000_0000_0000u128) as u64;
    proof {
        lemma_fundamental_div_mod(t as int, 0x1_0000_0000_0000_0000);
    }
    r
}

/// One word of a borrow-propagating subtraction: returns the low 64 bits of
/// `a - b - borrow` and leaves the borrowed bit in `borrow`.
pub fn sbb(a: u64, b: u64, borrow: &mut u64) -> (r: u64)
    requires
        *old(borrow) <= 1,
    ensures
        *final(borrow) <= 1,
        r as int == a - b - *old(borrow) + pow2(64) * (*final(borrow) as int),
{
    proof {
        lemma2_to64();
    }
    let t: u128 = 0x1_0000_0000_0000_0000u128 + a as u128 - b as u128 - *borrow as u128;
    let r: u64 = (t % 0x1_0000_0000_0000_0000u128) as u64;
    *borrow = if t / 0x1_0000_0000_0000_0000u128 == 0 {
        1u64
    } else {
        0u64
    };
    proof {
        lemma_fundamental_div_mod(t as int, 0x1_0000_0000_0000_0000);
    }
    r
}

/// One word of a multiply-accumulate: returns the low 64 bits of
/// `a + b * c + carry` and leaves the high 64 bits in `carry`.
pub fn mac_with_carry(a: u64, b: u64, c: u64, carry: &mut u64) -> (r: u64)
    ensures
        r as nat + pow2(64) * (*final(carry) as nat) == a as nat + b as nat * c as nat + *old(
            carry,
        ) as nat,
{
    proof {
        lemma2_to64();
        assert(b as nat * c as nat <= 0xffff_ffff_ffff_ffff * 0xffff_ffff_ffff_ffff) by {
            lemma_mul_upper_bound_u64(b, c);
        }
    }
    let t: u128 = a as u128 + (b as u128) * (c as u128) + *carry as u128;
    let r: u64 = (t % 0x1_0000_0000_0000_0000u128) as u64;
    *carry = (t / 0x1_0000_0000_0000_0000u128) as u64;
    proof {
        lemma_fundamental_div_mod(t as int, 0x1_0000_0000_0000_0000);
    }
    r
}

/// Bound on the product of two 64-bit words.
proof fn lemma_mul_upper_bound_u64(b: u64, c: u64)
    ensures
        b as nat * c as nat <= 0xffff_ffff_ffff_ffff * 0xffff_ffff_ffff_ffff,
{
    lemma_mul_inequality(b as int, 0xffff_ffff_ffff_ffff, c as int);
    lemma_mul_inequality(c as int, 0xffff_ffff_ffff_ffff, 0xffff_ffff_ffff_ffff);
    lemma_mul_is_commutative(b as int, c as int);
    lemma_mul_is_commutative(c as int, 0xffff_ffff_ffff_ffff);
}

/// Reading the value one limb further: the next limb enters at its weight.
pub proof fn lemma_as_nat_take_succ(s: Seq<u64>, i: int)
    requires
        0 <= i < s.len(),
    ensures
        as_nat(s.take(i + 1)) == as_nat(s.take(i)) + s[i] as nat * pow2(64 * i as nat),
{
    assert(s.take(i + 1) =~= s.take(i).push(s[i]));
    lemma_as_nat_snoc(s.take(i), s[i]);
}

/// Unfolding the value of a tail at its first limb.
pub proof fn lemma_as_nat_skip_unfold(s: Seq<u64>, i: int)
    requires
        0 <= i < s.len(),
    ensures
        as_nat(s.skip(i)) == s[i] as nat + pow2(64) * as_nat(s.skip(i + 1)),
{
    let t = s.skip(i);
    assert(t[0] == s[i]);
    assert(t.drop_first() =~= s.skip(i + 1));
}

/// Overwriting one limb shifts the value by the weighted difference of the
/// new and old limb.
pub proof fn lemma_as_nat_update(s: Seq<u64>, k: int, v: u64)
    requires
        0 <= k < s.len(),
    ensures
        as_nat(s.update(k, v)) as int == as_nat(s) + pow2(64 * k as nat) * (v as int - s[k] as int),
{
    let u = s.update(k, v);
    lemma_as_nat_decompose_at(s, k);
    lemma_as_nat_decompose_at(u, k);
    assert(u.take(k) =~= s.take(k));
    assert(u.skip(k + 1) =~= s.skip(k + 1));
    assert(u[k] == v);
    let p = pow2(64 * k as nat) as int;
    assert(p * (v as int) - p * (s[k] as int) == p * (v as int - s[k] as int)) by {
        lemma_mul_is_distributive_sub(p, v as int, s[k] as int);
    }
}

/// Two sequences that agree from position `i` on also agree from `i + 1` on.
proof fn lemma_skip_succ_eq(a: Seq<u64>, b: Seq<u64>, i: int)
    requires
        0 <= i < a.len(),
        a.len() == b.len(),
        a.skip(i) == b.skip(i),
    ensures
        a.skip(i + 1) == b.skip(i + 1),
        a[i] == b[i],
{
    assert(a.skip(i)[0] == b.skip(i)[0]);
    assert forall|j: int| 0 <= j < a.skip(i + 1).len() implies #[trigger] (a.skip(i + 1)[j])
        == b.skip(i + 1)[j] by {
        assert(a.skip(i)[j + 1] == b.skip(i)[j + 1]);
    }
    assert(a.skip(i + 1) =~= b.skip(i + 1));
}

/// If two equally long limb sequences agree above position `i` and differ at
/// `i`, the one with the smaller limb has the smaller value.
pub proof fn lemma_value_lt_at(lo: Seq<u64>, hi: Seq<u64>, i: int)
    requires
        lo.len() == hi.len(),
        0 <= i < lo.len(),
        lo[i] < hi[i],
        lo.skip(i + 1) == hi.skip(i + 1),
    ensures
        as_nat(lo) < as_nat(hi),
{
    lemma_as_nat_decompose_at(lo, i);
    lemma_as_nat_decompose_at(hi, i);
    lemma_as_nat_bound(lo.take(i));
    let p = pow2(64 * i as nat);
    assert(p * (lo[i] as nat) + p <= p * (hi[i] as nat)) by {
        lemma_mul_is_distributive_add(p as int, lo[i] as int, 1);
        lemma_mul_inequality(lo[i] as int + 1, hi[i] as int, p as int);
        lemma_mul_is_commutative(p as int, lo[i] as int + 1);
        lemma_mul_is_commutative(p as int, hi[i] as int);
    }
    assert(as_nat(lo.take(i)) < p);
}

/// A fixed-width little-endian vector of 64-bit limbs: the big-integer
/// representation of field elements.  It carries no sign and no knowledge of
/// any modulus.
#[derive(Debug)]
pub struct Repr {
    pub limbs: Vec<u64>,
}

impl View for Repr {
    type V = Seq<u64>;

    open spec fn view(&self) -> Seq<u64> {
        self.limbs@
    }
}

impl Clone for Repr {
    fn clone(&self) -> (r: Repr)
        ensures
            r@ == self@,
    {
        let limbs = self.limbs.clone();
        proof {
            assert(limbs@ =~= self.limbs@);
        }
        Repr { limbs }
    }
}

impl PartialEq for Repr {
    fn eq(&self, other: &Repr) -> (r: bool) {
        if self.limbs.len() != other.limbs.len() {
            return false;
        }
        let n = self.limbs.len();
        let mut i: usize = 0;
        while i < n
            invariant
                0 <= i <= n,
                n == self@.len(),
                n == other@.len(),
                forall|j: int| 0 <= j < i ==> self@[j] == other@[j],
            decreases n - i,
        {
            if self.limbs[i] != other.limbs[i] {
                return false;
            }
            i += 1;
        }
        proof {
            assert(self.limbs@ =~= other.limbs@);
        }
        true
    }
}

impl vstd::std_specs::cmp::PartialEqSpecImpl for Repr {
    open spec fn obeys_eq_spec() -> bool {
        true
    }

    open spec fn eq_spec(&self, other: &Repr) -> bool {
        self.limbs@ == other.limbs@
    }
}

impl Eq for Repr {

}

impl Repr {
    /// The numeric value this vector represents.
    pub open spec fn value(&self) -> nat {
        as_nat(self@)
    }

    /// A representation of `v` in `n` limbs.
    pub fn from_u64(v: u64, n: usize) -> (r: Repr)
        requires
            1 <= n,
        ensures
            r@.len() == n,
            r.value() == v,
    {
        let mut limbs: Vec<u64> = Vec::new();
        limbs.push(v);
        proof {
            lemma2_to64();
            lemma_as_nat_snoc(Seq::<u64>::empty(), v);
            assert(limbs@ =~= Seq::<u64>::empty().push(v));
            assert(as_nat(Seq::<u64>::empty()) == 0);
            assert(pow2(64 * Seq::<u64>::empty().len()) == 1);
            assert(v as nat * 1 == v as nat);
            assert(as_nat(limbs@) == v);
        }
        while limbs.len() < n
            invariant
                1 <= limbs@.len() <= n,
                as_nat(limbs@) == v,
            decreases n - limbs@.len(),
        {
            let ghost pre = limbs@;
            limbs.push(0u64);
            proof {
                assert(limbs@ =~= pre.push(0u64));
                lemma_as_nat_snoc(pre, 0u64);
                assert(0 as nat * pow2(64 * pre.len()) == 0);
            }
        }
        Repr { limbs }
    }

    /// Tests bit 0: whether the value is odd.
    pub fn is_odd(&self) -> (r: bool)
        requires
            self@.len() > 0,
        ensures
            r == (self.value() % 2 == 1),
    {
        proof {
            lemma_as_nat_parity(self@);
        }
        self.limbs[0] % 2 == 1
    }

    /// Whether the value is even.
    pub fn is_even(&self) -> (r: bool)
        requires
            self@.len() > 0,
        ensures
            r == (self.value() % 2 == 0),
    {
        !self.is_odd()
    }

    /// Whether every limb, hence the value, is zero.
    pub fn is_zero(&self) -> (r: bool)
        ensures
            r == (self.value() == 0),
    {
        let n = self.limbs.len();
        let mut i: usize = 0;
        while i < n
            invariant
                0 <= i <= n,
                n == self@.len(),
                forall|j: int| 0 <= j < i ==> self@[j] == 0,
            decreases n - i,
        {
            if self.limbs[i] != 0 {
                proof {
                    lemma_as_nat_zero(self@);
                }
                return false;
            }
            i += 1;
        }
        proof {
            lemma_as_nat_zero(self@);
        }
        true
    }

    /// Total-order comparison of the represented values, scanning limbs from
    /// the most significant down.
    pub fn cmp(&self, other: &Repr) -> (r: core::cmp::Ordering)
        requires
            self@.len() == other@.len(),
        ensures
            (r == core::cmp::Ordering::Less <==> self.value() < other.value()),
            (r == core::cmp::Ordering::Equal <==> self.value() == other.value()),
            (r == core::cmp::Ordering::Greater <==> self.value() > other.value()),
    {
        let n = self.limbs.len();
        let mut k: usize = 0;
        while k < n
            invariant
                0 <= k <= n,
                n == self@.len(),
                n == other@.len(),
                self@.skip(n - k) == other@.skip(n - k),
            decreases n - k,
        {
            let i = n - 1 - k;
            let a = self.limbs[i];
            let b = other.limbs[i];
            if a < b {
                proof {
                    lemma_value_lt_at(self@, other@, i as int);
                }
                return core::cmp::Ordering::Less;
            }
            if a > b {
                proof {
                    lemma_value_lt_at(other@, self@, i as int);
                }
                return core::cmp::Ordering::Greater;
            }
            proof {
                let ii = i as int;
                assert forall|j: int| 0 <= j < self@.skip(ii).len() implies #[trigger] (self@.skip(
                    ii,
                )[j]) == other@.skip(ii)[j] by {
                    if j > 0 {
                        assert(self@.skip(ii + 1)[j - 1] == other@.skip(ii + 1)[j - 1]);
                    }
                }
                assert(self@.skip(ii) =~= other@.skip(ii));
            }
            k += 1;
        }
        proof {
            assert(self@.skip(0) =~= self@);
            assert(other@.skip(0) =~= other@);
            assert(self@ == other@);
        }
        core::cmp::Ordering::Equal
    }

    /// Whether this value is strictly below the other.
    pub fn lt(&self, other: &Repr) -> (r: bool)
        requires
            self@.len() == other@.len(),
        ensures
            r == (self.value() < other.value()),
    {
        match self.cmp(other) {
            core::cmp::Ordering::Less => true,
            _ => false,
        }
    }

    /// Shifts the whole value right by one bit (halves it, rounding down).
    pub fn div2(&mut self)
        ensures
            final(self)@.len() == old(self)@.len(),
            final(self).value() == old(self).value() / 2,
    {
        let n = self.limbs.len();
        let mut t: u64 = 0;
        let mut k: usize = 0;
        proof {
            assert(self@.skip(n as int) =~= Seq::<u64>::empty());
            assert(old(self)@.skip(n as int) =~= Seq::<u64>::empty());
            reveal_with_fuel(as_nat, 2);
        }
        while k < n
            invariant
                0 <= k <= n,
                n == self@.len(),
                n == old(self)@.len(),
                self@.take(n - k) == old(self)@.take(n - k),
                as_nat(self@.skip(n - k)) == as_nat(old(self)@.skip(n - k)) / 2,
                t as nat == (as_nat(old(self)@.skip(n - k)) % 2) * 0x8000_0000_0000_0000,
            decreases n - k,
        {
            let ghost pre = self@;
            let ghost a_high = as_nat(old(self)@.skip(n - k as int));
            let i = n - 1 - k;
            let x = self.limbs[i];
            proof {
                lemma2_to64();
                lemma2_to64_rest();
                assert(x as nat / 2 <= 0x7fff_ffff_ffff_ffff) by {
                    lemma_div_is_ordered(x as int, 0xffff_ffff_ffff_ffff, 2);
                }
            }
            let y = x / 2 + t;
            self.limbs[i] = y;
            t = (x % 2) * 0x8000_0000_0000_0000;
            k += 1;
            proof {
                let ii = i as int;
                let p63: nat = 0x8000_0000_0000_0000;
                let p64 = pow2(64);
                assert(p64 == 0x1_0000_0000_0000_0000);
                assert(self@ == pre.update(ii, y));
                assert(pre.take(ii + 1)[ii] == old(self)@.take(ii + 1)[ii]);
                assert(x == old(self)@[ii]);
                lemma_as_nat_skip_unfold(old(self)@, ii);
                let b_val = as_nat(old(self)@.skip(ii));
                assert(b_val == x as nat + p64 * a_high);
                assert(self@.skip(ii + 1) =~= pre.skip(ii + 1));
                assert(as_nat(self@.skip(ii + 1)) == a_high / 2);
                lemma_as_nat_skip_unfold(self@, ii);
                assert(self@[ii] == y);
                let v_new = as_nat(self@.skip(ii));
                assert(v_new == y as nat + p64 * (a_high / 2));
                assert(x as nat == 2 * (x as nat / 2) + x as nat % 2) by {
                    lemma_fundamental_div_mod(x as int, 2);
                }
                assert(a_high == 2 * (a_high / 2) + a_high % 2) by {
                    lemma_fundamental_div_mod(a_high as int, 2);
                }
                assert(b_val == 2 * v_new + x as nat % 2) by (nonlinear_arith)
                    requires
                        b_val == x as nat + p64 * a_high,
                        v_new == y as nat + p64 * (a_high / 2),
                        y as nat == x as nat / 2 + (a_high % 2) * p63,
                        x as nat == 2 * (x as nat / 2) + x as nat % 2,
                        a_high == 2 * (a_high / 2) + a_high % 2,
                        p64 == 2 * p63,
                {}
                lemma_fundamental_div_mod_converse(
                    b_val as int,
                    2,
                    v_new as int,
                    (x as nat % 2) as int,
                );
                assert(as_nat(self@.skip(ii)) == b_val / 2);
                assert(b_val % 2 == x as nat % 2);
                assert(self@.take(ii) =~= old(self)@.take(ii));
            }
        }
        proof {
            assert(self@.skip(0) =~= self@);
            assert(old(self)@.skip(0) =~= old(self)@);
        }
    }

    /// Shifts the whole value left by one bit within the fixed width; the bit
    /// shifted out of the top limb is discarded.
    pub fn mul2(&mut self)
        ensures
            final(self)@.len() == old(self)@.len(),
            final(self).value() == (2 * old(self).value()) % pow2(64 * old(self)@.len()),
            2 * old(self).value() < pow2(64 * old(self)@.len()) ==> final(self).value() == 2 * old(
                self,
            ).value(),
    {
        let n = self.limbs.len();
        let mut carry: u64 = 0;
        let mut i: usize = 0;
        proof {
            assert(self@.take(0) =~= Seq::<u64>::empty());
            assert(old(self)@.take(0) =~= Seq::<u64>::empty());
            reveal_with_fuel(as_nat, 2);
        }
        while i < n
            invariant
                0 <= i <= n,
                n == self@.len(),
                n == old(self)@.len(),
                carry <= 1,
                self@.skip(i as int) == old(self)@.skip(i as int),
                as_nat(self@.take(i as int)) + carry as nat * pow2(64 * i as nat) == 2 * as_nat(
                    old(self)@.take(i as int),
                ),
            decreases n - i,
        {
            let ghost pre = self@;
            let ghost c0 = carry;
            let x = self.limbs[i];
            proof {
                lemma2_to64();
                lemma2_to64_rest();
                assert(x as nat % 0x8000_0000_0000_0000 < 0x8000_0000_0000_0000);
            }
            let y = (x % 0x8000_0000_0000_0000) * 2 + carry;
            self.limbs[i] = y;
            carry = x / 0x8000_0000_0000_0000;
            i += 1;
            proof {
                let ii = i as int - 1;
                let p63: nat = 0x8000_0000_0000_0000;
                let p64 = pow2(64);
                let pw = pow2(64 * ii as nat);
                assert(p64 == 0x1_0000_0000_0000_0000);
                assert(self@ == pre.update(ii, y));
                assert(self@[ii] == y);
                lemma_skip_succ_eq(pre, old(self)@, ii);
                assert(x == old(self)@[ii]);
                assert(self@.skip(ii + 1) =~= pre.skip(ii + 1));
                assert(self@.take(ii) =~= pre.take(ii));
                lemma_as_nat_take_succ(self@, ii);
                lemma_as_nat_take_succ(old(self)@, ii);
                let q = x as nat / p63;
                let w = x as nat % p63;
                assert(x as nat == p63 * q + w) by {
                    lemma_fundamental_div_mod(x as int, p63 as int);
                }
                lemma_pow2_adds(64 * ii as nat, 64);
                assert(pow2(64 * (ii + 1) as nat) == pw * p64);
                let t_new = as_nat(self@.take(ii + 1));
                let t_cur = as_nat(self@.take(ii));
                let o_new = as_nat(old(self)@.take(ii + 1));
                let o_cur = as_nat(old(self)@.take(ii));
                assert(t_new + q * (pw * p64) == 2 * o_new) by (nonlinear_arith)
                    requires
                        t_new == t_cur + y as nat * pw,
                        o_new == o_cur + x as nat * pw,
                        t_cur + c0 as nat * pw == 2 * o_cur,
                        y as nat == w * 2 + c0 as nat,
                        x as nat == p63 * q + w,
                        p64 == 2 * p63,
                {}
                assert(carry as nat == q);
            }
        }
        proof {
            assert(self@.take(n as int) =~= self@);
            assert(old(self)@.take(n as int) =~= old(self)@);
            lemma_as_nat_bound(self@);
            lemma_fundamental_div_mod_converse(
                2 * old(self).value() as int,
                pow2(64 * n as nat) as int,
                carry as int,
                self.value() as int,
            );
            if 2 * old(self).value() < pow2(64 * n as nat) {
                lemma_small_mod(2 * old(self).value(), pow2(64 * n as nat));
            }
        }
    }

    /// Limb-wise addition with carry propagation across the fixed width;
    /// reports whether a carry left the top limb.
    pub fn add_nocarry(&mut self, other: &Repr) -> (overflow: bool)
        requires
            old(self)@.len() == other@.len(),
        ensures
            final(self)@.len() == old(self)@.len(),
            final(self).value() + (if overflow {
                pow2(64 * old(self)@.len())
            } else {
                0
            }) == old(self).value() + other.value(),
            overflow == (old(self).value() + other.value() >= pow2(64 * old(self)@.len())),
    {
        let n = self.limbs.len();
        let mut carry: u64 = 0;
        let mut i: usize = 0;
        proof {
            assert(self@.take(0) =~= Seq::<u64>::empty());
            assert(old(self)@.take(0) =~= Seq::<u64>::empty());
            assert(other@.take(0) =~= Seq::<u64>::empty());
            reveal_with_fuel(as_nat, 2);
        }
        while i < n
            invariant
                0 <= i <= n,
                n == self@.len(),
                n == old(self)@.len(),
                n == other@.len(),
                carry <= 1,
                self@.skip(i as int) == old(self)@.skip(i as int),
                as_nat(self@.take(i as int)) + carry as nat * pow2(64 * i as nat) == as_nat(
                    old(self)@.take(i as int),
                ) + as_nat(other@.take(i as int)),
            decreases n - i,
        {
            let ghost pre = self@;
            let ghost c0 = carry;
            let a = self.limbs[i];
            let b = other.limbs[i];
            let r = adc(a, b, &mut carry);
            self.limbs[i] = r;
            i += 1;
            proof {
                let ii = i as int - 1;
                let p64 = pow2(64);
                let pw = pow2(64 * ii as nat);
                assert(self@ == pre.update(ii, r));
                assert(self@[ii] == r);
                lemma_skip_succ_eq(pre, old(self)@, ii);
                assert(a == old(self)@[ii]);
                assert(self@.skip(ii + 1) =~= pre.skip(ii + 1));
                assert(self@.take(ii) =~= pre.take(ii));
                lemma_as_nat_take_succ(self@, ii);
                lemma_as_nat_take_succ(old(self)@, ii);
                lemma_as_nat_take_succ(other@, ii);
                lemma_pow2_adds(64 * ii as nat, 64);
                let t_new = as_nat(self@.take(ii + 1));
                let t_cur = as_nat(self@.take(ii));
                let o_new = as_nat(old(self)@.take(ii + 1));
                let o_cur = as_nat(old(self)@.take(ii));
                let w_new = as_nat(other@.take(ii + 1));
                let w_cur = as_nat(other@.take(ii));
                assert(t_new + carry as nat * (pw * p64) == o_new + w_new) by (nonlinear_arith)
                    requires
                        t_new == t_cur + r as nat * pw,
                        o_new == o_cur + a as nat * pw,
                        w_new == w_cur + b as nat * pw,
                        t_cur + c0 as nat * pw == o_cur + w_cur,
                        r as nat + p64 * carry as nat == a as nat + b as nat + c0 as nat,
                {}
                assert(pow2(64 * (ii + 1) as nat) == pw * p64);
            }
        }
        proof {
            assert(self@.take(n as int) =~= self@);
            assert(old(self)@.take(n as int) =~= old(self)@);
            assert(other@.take(n as int) =~= other@);
            lemma_as_nat_bound(self@);
        }
        carry != 0
    }

    /// Limb-wise subtraction with borrow propagation across the fixed width;
    /// reports whether a borrow left the top limb, i.e. whether the
    /// subtrahend was larger.
    pub fn sub_noborrow(&mut self, other: &Repr) -> (underflow: bool)
        requires
            old(self)@.len() == other@.len(),
        ensures
            final(self)@.len() == old(self)@.len(),
            final(self).value() as int == old(self).value() - other.value() + (if underflow {
                pow2(64 * old(self)@.len()) as int
            } else {
                0
            }),
            underflow == (other.value() > old(self).value()),
    {
        let n = self.limbs.len();
        let mut borrow: u64 = 0;
        let mut i: usize = 0;
        proof {
            assert(self@.take(0) =~= Seq::<u64>::empty());
            assert(old(self)@.take(0) =~= Seq::<u64>::empty());
            assert(other@.take(0) =~= Seq::<u64>::empty());
            reveal_with_fuel(as_nat, 2);
        }
        while i < n
            invariant
                0 <= i <= n,
                n == self@.len(),
                n == old(self)@.len(),
                n == other@.len(),
                borrow <= 1,
                self@.skip(i as int) == old(self)@.skip(i as int),
                as_nat(self@.take(i as int)) as int == as_nat(old(self)@.take(i as int)) - as_nat(
                    other@.take(i as int),
                ) + borrow as int * pow2(64 * i as nat),
            decreases n - i,
        {
            let ghost pre = self@;
            let ghost b0 = borrow;
            let a = self.limbs[i];
            let b = other.limbs[i];
            let r = sbb(a, b, &mut borrow);
            self.limbs[i] = r;
            i += 1;
            proof {
                let ii = i as int - 1;
                let p64 = pow2(64);
                let pw = pow2(64 * ii as nat);
                assert(self@ == pre.update(ii, r));
                assert(self@[ii] == r);
                lemma_skip_succ_eq(pre, old(self)@, ii);
                assert(a == old(self)@[ii]);
                assert(self@.skip(ii + 1) =~= pre.skip(ii + 1));
                assert(self@.take(ii) =~= pre.take(ii));
                lemma_as_nat_take_succ(self@, ii);
                lemma_as_nat_take_succ(old(self)@, ii);
                lemma_as_nat_take_succ(other@, ii);
                lemma_pow2_adds(64 * ii as nat, 64);
                let t_new = as_nat(self@.take(ii + 1));
                let t_cur = as_nat(self@.take(ii));
                let o_new = as_nat(old(self)@.take(ii + 1));
                let o_cur = as_nat(old(self)@.take(ii));
                let w_new = as_nat(other@.take(ii + 1));
                let w_cur = as_nat(other@.take(ii));
                assert(t_new as int == o_new - w_new + borrow as int * (pw * p64) as int)
                    by (nonlinear_arith)
                    requires
                        t_new == t_cur + r as nat * pw,
                        o_new == o_cur + a as nat * pw,
                        w_new == w_cur + b as nat * pw,
                        t_cur as int == o_cur - w_cur + b0 as int * pw as int,
                        r as int == a - b - b0 + p64 * (borrow as int),
                {}
                assert(pow2(64 * (ii + 1) as nat) == pw * p64);
            }
        }
        proof {
            assert(self@.take(n as int) =~= self@);
            assert(old(self)@.take(n as int) =~= old(self)@);
            assert(other@.take(n as int) =~= other@);
            lemma_as_nat_bound(self@);
            lemma_as_nat_bound(old(self)@);
        }
        borrow != 0
    }

    /// The position of the highest set bit plus one; zero for the value zero.
    pub fn num_bits(&self) -> (r: u32)
        requires
            64 * self@.len() <= 0xffff_ffff,
        ensures
            self.value() < pow2(r as nat),
            self.value() > 0 ==> r >= 1 && self.value() >= pow2((r - 1) as nat),
            self.value() == 0 ==> r == 0,
    {
        let n = self.limbs.len();
        let mut k: usize = 0;
        while k < n
            invariant
                0 <= k <= n,
                n == self@.len(),
                64 * n <= 0xffff_ffff,
                forall|j: int| n - k <= j < n ==> self@[j] == 0,
            decreases n - k,
        {
            let i = n - 1 - k;
            let x = self.limbs[i];
            if x != 0 {
                let b = bits_u64(x);
                proof {
                    let ii = i as int;
                    lemma_as_nat_decompose_at(self@, ii);
                    lemma_as_nat_zero(self@.skip(ii + 1));
                    assert forall|j: int| 0 <= j < self@.skip(ii + 1).len() implies #[trigger] (
                    self@.skip(ii + 1)[j]) == 0 by {
                        assert(self@[j + ii + 1] == 0);
                    }
                    assert(as_nat(self@.skip(ii + 1)) == 0);
                    lemma_as_nat_bound(self@.take(ii));
                    let p = pow2(64 * ii as nat);
                    assert(self.value() == as_nat(self@.take(ii)) + p * (x as nat));
                    lemma_pow2_pos(64 * ii as nat);
                    assert(p * (x as nat) > 0) by {
                        lemma_mul_strictly_positive(p as int, x as int);
                    }
                    assert(self.value() > 0);
                    lemma_pow2_adds(64 * ii as nat, b as nat);
                    assert(self.value() < p * (x as nat) + p);
                    assert(p * (x as nat) + p == p * (x as nat + 1)) by {
                        lemma_mul_is_distributive_add(p as int, x as int, 1);
                    }
                    assert(p * (x as nat + 1) <= p * pow2(b as nat)) by {
                        lemma_mul_inequality(x as int + 1, pow2(b as nat) as int, p as int);
                        lemma_mul_is_commutative(p as int, x as int + 1);
                        lemma_mul_is_commutative(p as int, pow2(b as nat) as int);
                    }
                    assert(b >= 1);
                    lemma_pow2_adds(64 * ii as nat, (b - 1) as nat);
                    assert(p * (x as nat) >= p * pow2((b - 1) as nat)) by {
                        lemma_mul_inequality(pow2((b - 1) as nat) as int, x as int, p as int);
                        lemma_mul_is_commutative(p as int, x as int);
                        lemma_mul_is_commutative(p as int, pow2((b - 1) as nat) as int);
                    }
                    assert(64 * ii as nat + b as nat >= 1);
                    assert(64 * self@.len() <= 0xffff_ffff);
                    assert(64 * ii + 64 <= 64 * self@.len());
                    assert(64 * ii + b <= 0xffff_ffff);
                }
                return (i as u32) * 64 + b;
            }
            k += 1;
        }
        proof {
            lemma_as_nat_zero(self@);
            lemma2_to64();
        }
        0
    }
}

/// Bit length of a single 64-bit word.
fn bits_u64(x: u64) -> (r: u32)
    ensures
        x < pow2(r as nat),
        x > 0 ==> r >= 1 && x >= pow2((r - 1) as nat),
        x == 0 ==> r == 0,
        r <= 64,
{
    let mut v = x;
    let mut r: u32 = 0;
    proof {
        lemma2_to64();
        lemma2_to64_rest();
    }
    while v > 0
        invariant
            v as nat == x as nat / pow2(r as nat),
            r > 0 ==> x as nat / pow2((r - 1) as nat) > 0,
            r <= 64,
        decreases v,
    {
        proof {
            lemma2_to64();
            lemma2_to64_rest();
            lemma_pow2_adds(r as nat, 1);
            lemma_div_denominator(x as int, pow2(r as nat) as int, 2);
            assert(x as nat / pow2(r as nat) / 2 == x as nat / pow2(r as nat + 1));
            assert(r < 64) by {
                if r >= 64 {
                    if r > 64 {
                        lemma_pow2_strictly_increases(64, r as nat);
                    }
                    lemma_pow2_pos(r as nat);
                    assert(pow2(r as nat) >= pow2(64));
                    assert(x as nat / pow2(r as nat) == 0) by {
                        lemma_basic_div(x as int, pow2(r as nat) as int);
                    }
                }
            }
        }
        v = v / 2;
        r = r + 1;
    }
    proof {
        assert(x as nat / pow2(r as nat) == 0);
        lemma_pow2_pos(r as nat);
        assert(x < pow2(r as nat)) by {
            lemma_small_div_converse(x as int, pow2(r as nat) as int);
        }
        if r > 0 {
            assert(x as nat / pow2((r - 1) as nat) > 0);
            lemma_pow2_pos((r - 1) as nat);
            if x < pow2((r - 1) as nat) {
                lemma_basic_div(x as int, pow2((r - 1) as nat) as int);
                assert(false);
            }
        }
    }
    r
}

/// Equally wide limb sequences representing the same value are identical:
/// the fixed-width representation is canonical.
pub proof fn lemma_as_nat_injective(a: Seq<u64>, b: Seq<u64>)
    requires
        a.len() == b.len(),
        as_nat(a) == as_nat(b),
    ensures
        a == b,
    decreases a.len(),
{
    lemma2_to64();
    lemma2_to64_rest();
    if a.len() == 0 {
        assert(a =~= b);
    } else {
        let p64 = pow2(64);
        lemma_as_nat_head(a);
        lemma_as_nat_head(b);
        assert(a[0] == b[0]);
        lemma_as_nat_injective(a.drop_first(), b.drop_first());
        assert forall|i: int| 0 <= i < a.len() implies a[i] == b[i] by {
            if i > 0 {
                assert(a.drop_first()[i - 1] == b.drop_first()[i - 1]);
            }
        }
        assert(a =~= b);
    }
}

/// The first limb and the rest are the residue and quotient of the value by
/// the limb base.
proof fn lemma_as_nat_head(s: Seq<u64>)
    requires
        s.len() > 0,
    ensures
        s[0] as nat == as_nat(s) % pow2(64),
        as_nat(s.drop_first()) == as_nat(s) / pow2(64),
{
    lemma2_to64();
    lemma2_to64_rest();
    let p64 = pow2(64);
    assert(as_nat(s) == s[0] as nat + p64 * as_nat(s.drop_first()));
    lemma_fundamental_div_mod_converse(
        as_nat(s) as int,
        p64 as int,
        as_nat(s.drop_first()) as int,
        s[0] as int,
    );
}

} // verus!
