//! Uniform random sampling of field elements by rejection, over a
//! caller-supplied source of random words.

use vstd::prelude::*;
use vstd::arithmetic::power2::{pow2, lemma_pow2_adds, lemma_pow2_pos, lemma2_to64};
use vstd::arithmetic::div_mod::{lemma_div_denominator, lemma_multiply_divide_lt};
use crate::limbs::{Repr, as_nat, lemma_as_nat_bound};
use crate::params::FieldParams;
use crate::field::FieldElement;

verus! {

/// How many rejected draws `random` tolerates before folding the last draw
/// into range by one subtraction.  With the top bits shaved, each draw is
/// accepted with probability at least one half, so reaching this bound has
/// vanishing probability with a real entropy source.
pub const REDRAW_LIMIT: u32 = 128;

/// A caller-supplied source of random 64-bit words.  Nothing is promised
/// about the values drawn: the sampling below is proved to return a reduced
/// element for every sequence of draws.
pub trait EntropySource {
    /// Draws the next 64-bit word.
    fn next_u64(&mut self) -> u64;
}

/// Draws one word per limb from the source and hands them over unchanged.
fn draw_words<S: EntropySource>(rng: &mut S, p: &FieldParams) -> (w: Vec<u64>)
    requires
        p.wf(),
    ensures
        w@.len() == p.nlimbs(),
{
    let n = p.modulus.limbs.len();
    let mut words: Vec<u64> = Vec::new();
    while words.len() < n
        invariant
            words@.len() <= n,
        decreases n - words@.len(),
    {
        let w = rng.next_u64();
        words.push(w);
    }
    words
}

/// Builds one rejection-sampling candidate from a full width of drawn
/// words: exactly the bits above the modulus width are shaved off, so the
/// candidate is the drawn value shifted right by `repr_shave_bits`, and
/// therefore below twice the modulus.
pub fn candidate_from_words(words: Vec<u64>, p: &FieldParams) -> (r: Repr)
    requires
        p.wf(),
        words@.len() == p.nlimbs(),
    ensures
        r@.len() == p.nlimbs(),
        r.value() == as_nat(words@) / pow2(p.repr_shave_bits as nat),
        r.value() < 2 * p.m(),
{
    let ghost w0 = as_nat(words@);
    let mut r = Repr { limbs: words };
    proof {
        lemma_as_nat_bound(r@);
        lemma2_to64();
        assert(w0 / pow2(0) == w0);
    }
    let shave = p.repr_shave_bits;
    let mut k: u32 = 0;
    while k < shave
        invariant
            p.wf(),
            shave == p.repr_shave_bits,
            r@.len() == p.nlimbs(),
            k <= shave,
            w0 < pow2(64 * p.nlimbs()),
            r.value() == w0 / pow2(k as nat),
        decreases shave - k,
    {
        r.div2();
        k = k + 1;
        proof {
            lemma_pow2_adds((k - 1) as nat, 1);
            lemma2_to64();
            lemma_pow2_pos((k - 1) as nat);
            lemma_div_denominator(w0 as int, pow2((k - 1) as nat) as int, 2);
            assert(pow2(k as nat) == pow2((k - 1) as nat) * 2);
            assert(w0 / pow2((k - 1) as nat) / 2 == w0 / pow2(k as nat));
        }
    }
    proof {
        // the shaved value fits the modulus width, which holds values below
        // twice the modulus
        let bits = p.modulus_bits as nat;
        lemma_pow2_adds(bits, shave as nat);
        lemma_pow2_pos(shave as nat);
        assert(pow2(64 * p.nlimbs()) == pow2(bits) * pow2(shave as nat));
        lemma_multiply_divide_lt(w0 as int, pow2(shave as nat) as int, pow2(bits) as int);
        assert(w0 < pow2(shave as nat) * pow2(bits)) by (nonlinear_arith)
            requires
                w0 < pow2(bits) * pow2(shave as nat),
        {}
        assert(r.value() < pow2(bits));
        assert(pow2(bits) == 2 * pow2((bits - 1) as nat)) by {
            lemma_pow2_adds(1, (bits - 1) as nat);
            lemma2_to64();
        }
        assert(r.value() < 2 * p.m());
    }
    r
}

impl FieldElement {
    /// A uniformly random field element by rejection sampling: each round
    /// draws one word per limb, shaves the bits above the modulus width
    /// (`candidate_from_words`, whose contract fixes the candidate as a
    /// function of the drawn words), and accepts exactly when the candidate
    /// is reduced.  After `REDRAW_LIMIT` rejections — unreachable in
    /// practice with a real source — the last candidate is folded into
    /// range by the one conditional subtraction of `reduce`, so the
    /// function is total; that fold is a deviation from a pure rejection
    /// loop, whose redraws cannot be bounded.  Which round's candidate is
    /// returned cannot be stated here, since the entropy trait promises
    /// nothing about the words it yields.
    pub fn random<S: EntropySource>(rng: &mut S, p: &FieldParams) -> (r: FieldElement)
        requires
            p.wf(),
        ensures
            r.wf(p),
    {
        let mut tries: u32 = 0;
        while tries < REDRAW_LIMIT
            invariant
                p.wf(),
            decreases REDRAW_LIMIT - tries,
        {
            let words = draw_words(rng, p);
            let cand = candidate_from_words(words, p);
            let elem = FieldElement(cand);
            if elem.is_valid(p) {
                return elem;
            }
            tries = tries + 1;
        }
        let words = draw_words(rng, p);
        let cand = candidate_from_words(words, p);
        let mut elem = FieldElement(cand);
        elem.reduce(p);
        elem
    }
}

} // verus!
