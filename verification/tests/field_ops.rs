//! Exercises the field arithmetic on a small prime and on a large one.

use prime_field::field::FieldElement;
use prime_field::limbs::Repr;
use prime_field::params::FieldParams;
use prime_field::sample::EntropySource;
use std::cmp::Ordering;

/// A small deterministic word source for the sampling tests.
struct XorShift {
    state: u64,
}

impl EntropySource for XorShift {
    fn next_u64(&mut self) -> u64 {
        let mut x = self.state;
        x ^= x << 13;
        x ^= x >> 7;
        x ^= x << 17;
        self.state = x;
        x
    }
}

fn repr(limbs: Vec<u64>) -> Repr {
    Repr { limbs }
}

/// The field of thirteen elements, one limb wide, generator two.
fn f13() -> FieldParams {
    FieldParams::new(repr(vec![13]), repr(vec![2])).unwrap()
}

/// The field of seven elements, where the modulus is 3 modulo 4.
fn f7() -> FieldParams {
    FieldParams::new(repr(vec![7]), repr(vec![3])).unwrap()
}

/// A 255-bit prime modulus, four limbs wide, generator seven.
fn f_big() -> FieldParams {
    // 52435875175126190479447740508185965837690552500527637822603658699938581184513
    let m = repr(vec![
        0xffffffff00000001,
        0x53bda402fffe5bfe,
        0x3339d80809a1d805,
        0x73eda753299d7d48,
    ]);
    let g = repr(vec![7, 0, 0, 0]);
    FieldParams::new(m, g).unwrap()
}

fn enc(a: u64, p: &FieldParams) -> FieldElement {
    let n = p.modulus.limbs.len();
    let mut limbs = vec![0u64; n];
    limbs[0] = a;
    FieldElement::from_repr(repr(limbs), p).unwrap()
}

fn dec(e: &FieldElement, p: &FieldParams) -> u64 {
    e.into_repr(p).limbs[0]
}

#[test]
fn test_exp() {
    // 4398572349857239485729348572983472345 ^ 5489673498567349856734895
    // modulo the large prime is
    // 4371221214068404307866768905142520595925044802278091865033317963560480051536
    let p = f_big();
    let base = repr(vec![0xf9bb007beaf230d9, 0x034f225c3fd9b8c1, 0, 0]);
    let exponent = repr(vec![0xcbf282426b558eaf, 0x48a7b, 0, 0]);
    let expected = repr(vec![
        0x572b196aeb729150,
        0xe51c20f695dc6213,
        0xac8df41f0de92720,
        0x09aa060621e390d2,
    ]);
    let b = FieldElement::from_repr(base, &p).unwrap();
    let r = b.pow(&exponent, &p);
    assert_eq!(r.into_repr(&p), expected);
}

#[test]
fn round_trip_all_small() {
    let p = f13();
    for a in 0..13u64 {
        let e = FieldElement::from_repr(repr(vec![a]), &p).unwrap();
        assert_eq!(e.into_repr(&p), repr(vec![a]));
    }
}

#[test]
fn from_repr_rejects_unreduced() {
    let p = f13();
    assert!(FieldElement::from_repr(repr(vec![13]), &p).is_err());
    assert!(FieldElement::from_repr(repr(vec![27]), &p).is_err());
    assert!(FieldElement::from_repr(repr(vec![12]), &p).is_ok());
}

#[test]
fn additive_identity() {
    let p = f13();
    for a in 0..13u64 {
        let mut x = enc(a, &p);
        let z = FieldElement::zero(&p);
        x.add_assign(&z, &p);
        assert_eq!(dec(&x, &p), a);
    }
}

#[test]
fn multiplicative_identity() {
    let p = f13();
    for a in 0..13u64 {
        let mut x = enc(a, &p);
        let one = FieldElement::one(&p);
        x.mul_assign(&one, &p);
        assert_eq!(dec(&x, &p), a);
    }
}

#[test]
fn additive_inverse() {
    let p = f13();
    for a in 0..13u64 {
        let x = enc(a, &p);
        let mut nx = x.clone();
        nx.negate(&p);
        nx.add_assign(&x, &p);
        assert!(nx.is_zero());
    }
}

#[test]
fn multiplicative_inverse() {
    let p = f13();
    assert!(FieldElement::zero(&p).inverse(&p).is_none());
    for a in 1..13u64 {
        let x = enc(a, &p);
        let mut ix = x.inverse(&p).unwrap();
        ix.mul_assign(&x, &p);
        assert_eq!(dec(&ix, &p), 1);
    }
}

#[test]
fn encode_five_times_one_is_five() {
    // the concrete scenario over m = 13: R = 2^64 mod 13 = 3, so the
    // encoding of five is 2 and of one is 3
    let p = f13();
    let five = enc(5, &p);
    assert_eq!(five.0, repr(vec![2]));
    assert_eq!(FieldElement::one(&p).0, repr(vec![3]));
    let mut x = five.clone();
    x.mul_assign(&FieldElement::one(&p), &p);
    assert_eq!(x, five);
    let mut ix = five.inverse(&p).unwrap();
    ix.mul_assign(&five, &p);
    assert_eq!(ix, FieldElement::one(&p));
}

#[test]
fn sqrt_of_four_mod_13() {
    // 2^2 = 4 and 11^2 = 121 = 4 modulo 13
    let p = f13();
    let r = enc(4, &p).sqrt(&p).unwrap();
    let v = dec(&r, &p);
    assert!(v == 2 || v == 11);
}

#[test]
fn sqrt_exhaustive_mod_13() {
    let p = f13();
    let squares: Vec<u64> = (0..13u64).map(|a| a * a % 13).collect();
    for a in 0..13u64 {
        match enc(a, &p).sqrt(&p) {
            Some(r) => {
                let v = dec(&r, &p);
                assert_eq!(v * v % 13, a);
            },
            None => {
                assert!(!squares.contains(&a));
            },
        }
    }
}

#[test]
fn sqrt_exhaustive_mod_7() {
    // exercises the branch for a modulus that is 3 modulo 4
    let p = f7();
    let squares: Vec<u64> = (0..7u64).map(|a| a * a % 7).collect();
    for a in 0..7u64 {
        match enc(a, &p).sqrt(&p) {
            Some(r) => {
                let v = dec(&r, &p);
                assert_eq!(v * v % 7, a);
            },
            None => {
                assert!(!squares.contains(&a));
            },
        }
    }
}

#[test]
fn doubling_matches_addition() {
    let p = f13();
    for a in 0..13u64 {
        let x = enc(a, &p);
        let mut d = x.clone();
        d.double(&p);
        let mut s = x.clone();
        s.add_assign(&x, &p);
        assert_eq!(d, s);
    }
}

#[test]
fn squaring_matches_multiplication() {
    let p = f13();
    for a in 0..13u64 {
        let x = enc(a, &p);
        let mut sq = x.clone();
        sq.square(&p);
        let mut ml = x.clone();
        ml.mul_assign(&x, &p);
        assert_eq!(sq, ml);
    }
}

#[test]
fn subtraction_and_negation() {
    let p = f13();
    for a in 0..13u64 {
        for b in 0..13u64 {
            let mut x = enc(a, &p);
            x.sub_assign(&enc(b, &p), &p);
            assert_eq!(dec(&x, &p), (a + 13 - b) % 13);
        }
    }
}

#[test]
fn repr_comparison_is_value_order() {
    let a = repr(vec![5, 1]);
    let b = repr(vec![3, 2]);
    assert_eq!(a.cmp(&b), Ordering::Less);
    assert_eq!(b.cmp(&a), Ordering::Greater);
    assert_eq!(a.cmp(&repr(vec![5, 1])), Ordering::Equal);
    let c = repr(vec![u64::MAX, 0]);
    let d = repr(vec![0, 1]);
    assert_eq!(c.cmp(&d), Ordering::Less);
}

#[test]
fn repr_bit_operations() {
    let mut a = repr(vec![1, 1]);
    assert!(a.is_odd());
    a.div2();
    assert_eq!(a, repr(vec![0x8000_0000_0000_0000, 0]));
    assert!(a.is_even());
    a.mul2();
    assert_eq!(a, repr(vec![0, 1]));
    assert_eq!(a.num_bits(), 65);
    assert_eq!(repr(vec![0, 0]).num_bits(), 0);
    assert!(repr(vec![0, 0]).is_zero());
}

#[test]
fn repr_add_sub_carry_chains() {
    let mut a = repr(vec![u64::MAX, 0]);
    let overflow = a.add_nocarry(&repr(vec![1, 0]));
    assert!(!overflow);
    assert_eq!(a, repr(vec![0, 1]));
    let underflow = a.sub_noborrow(&repr(vec![1, 0]));
    assert!(!underflow);
    assert_eq!(a, repr(vec![u64::MAX, 0]));
    let mut b = repr(vec![u64::MAX, u64::MAX]);
    let overflow2 = b.add_nocarry(&repr(vec![1, 0]));
    assert!(overflow2);
    assert!(b.is_zero());
}

#[test]
fn constructor_rejects_bad_parameters() {
    assert!(FieldParams::new(repr(vec![12]), repr(vec![2])).is_none());
    assert!(FieldParams::new(repr(vec![1]), repr(vec![2])).is_none());
    assert!(FieldParams::new(repr(vec![13]), repr(vec![13])).is_none());
    assert!(FieldParams::new(repr(vec![13]), repr(vec![0])).is_none());
    assert!(FieldParams::new(repr(vec![13]), repr(vec![2, 0])).is_none());
    assert!(FieldParams::new(repr(vec![]), repr(vec![])).is_none());
    assert!(FieldParams::new(repr(vec![13]), repr(vec![2])).is_some());
}

#[test]
fn derived_constants_mod_13() {
    let p = f13();
    assert_eq!(p.r.limbs[0], 3);
    assert_eq!(p.r2.limbs[0], 9);
    assert_eq!(p.modulus_bits, 4);
    assert_eq!(p.repr_shave_bits, 60);
    // 13 - 1 = 3 * 2^2
    assert_eq!(p.s, 2);
    assert_eq!(p.t.limbs[0], 3);
    assert_eq!(p.num_bits(), 4);
    assert_eq!(p.capacity(), 3);
    assert_eq!(p.two_adicity(), 2);
    assert_eq!(p.char(), repr(vec![13]));
    // the encoding of the generator two is 2 * 3 mod 13 = 6, and the root
    // of unity is the encoding of 2^3 mod 13 = 8, which is 8 * 3 mod 13 = 11
    assert_eq!(p.generator.limbs[0], 6);
    assert_eq!(p.root_of_unity.limbs[0], 11);
    // -13^-1 mod 2^64 times 13 is -1 mod 2^64
    assert_eq!(p.inv.wrapping_mul(13).wrapping_add(1), 0);
}

#[test]
fn candidate_shaves_exactly_the_top_bits() {
    // with m = 13 the modulus width is 4 bits, so 60 of 64 are shaved:
    // the all-ones word becomes 15
    let p = f13();
    let c = prime_field::sample::candidate_from_words(vec![u64::MAX], &p);
    assert_eq!(c.limbs[0], 15);
    let c2 = prime_field::sample::candidate_from_words(vec![0], &p);
    assert!(c2.is_zero());
    // the large modulus is 255 bits wide in 256, so exactly one bit goes
    let pb = f_big();
    let c3 = prime_field::sample::candidate_from_words(vec![3, 0, 0, 0], &pb);
    assert_eq!(c3.limbs, vec![1, 0, 0, 0]);
}

#[test]
fn rejection_sampling_stays_reduced() {
    let p = f13();
    let mut rng = XorShift { state: 0x1234_5678_9abc_def0 };
    for _ in 0..500 {
        let x = FieldElement::random(&mut rng, &p);
        assert!(x.into_repr(&p).limbs[0] < 13);
    }
    let pb = f_big();
    let mut rng2 = XorShift { state: 42 };
    for _ in 0..50 {
        let x = FieldElement::random(&mut rng2, &pb);
        assert!(x.is_valid(&pb));
    }
}

/// A source that always yields the same word, to force every draw to be
/// rejected.
struct ConstantWords(u64);

impl EntropySource for ConstantWords {
    fn next_u64(&mut self) -> u64 {
        self.0
    }
}

#[test]
fn sampling_fold_in_after_exhausted_redraws() {
    // every draw shaves to 15, which is never below 13, so after the redraw
    // limit the last candidate is folded into range by one subtraction:
    // 15 - 13 = 2
    let p = f13();
    let mut rng = ConstantWords(u64::MAX);
    let x = FieldElement::random(&mut rng, &p);
    // the draw becomes the Montgomery representative of the element
    assert_eq!(x.0.limbs[0], 2);
}

#[test]
fn frobenius_is_identity() {
    let p = f13();
    let mut x = enc(5, &p);
    let before = x.clone();
    x.frobenius_map(3);
    assert_eq!(x, before);
}

#[test]
fn big_field_inverse_and_sqrt() {
    let p = f_big();
    let x = enc(123456789, &p);
    let mut ix = x.inverse(&p).unwrap();
    ix.mul_assign(&x, &p);
    assert_eq!(ix, FieldElement::one(&p));
    // 4 is a square everywhere
    let four = enc(4, &p);
    let r = four.sqrt(&p).unwrap();
    let mut rr = r.clone();
    rr.square(&p);
    assert_eq!(rr, four);
}
