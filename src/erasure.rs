//! A decoder for the classical erasure channel.

use vstd::prelude::*;

use crate::decoder::Decoder;
use crate::matrix::{bounded, kept, kept_checks, strictly_sorted, ParityCheckMatrix};
use crate::random::{chacha8_word, StreamRng};
use crate::ranker::{gf2_rank, Ressources};
use crate::simulation_result::DecodingResult;

verus! {

/// The erasure threshold that stands for probability 1: a bit is erased when
/// the 53 high bits of its random word, read as an integer, are below the
/// threshold, so that threshold `t` erases with probability `t / 2^53`.
pub const ERASURE_THRESHOLD_SCALE: u64 = 9007199254740992;

/// The outcome of erasure decoding.
#[derive(Clone, Copy, Debug, PartialEq, Eq, Structural)]
pub enum ErasureResult {
    Success,
    Failure,
}

impl DecodingResult for ErasureResult {
    open spec fn spec_is_success(&self) -> bool {
        *self == ErasureResult::Success
    }

    fn is_success(&self) -> (r: bool) {
        *self == ErasureResult::Success
    }
}

/// The positions below `k` erased by the words of the stream of `seed` from
/// position `drawn` on: bit `b` is erased by the word at `drawn + b`.
pub open spec fn erased_from(seed: u64, drawn: nat, threshold: u64, k: nat) -> Seq<usize>
    decreases k,
{
    if k == 0 {
        seq![]
    } else {
        let prev = erased_from(seed, drawn, threshold, (k - 1) as nat);
        if (chacha8_word(seed, (drawn + k - 1) as nat) >> 11u64) < threshold {
            prev.push((k - 1) as usize)
        } else {
            prev
        }
    }
}

/// The erased positions are increasing and below `k`; no position is erased
/// at threshold 0 and every position at threshold `ERASURE_THRESHOLD_SCALE`.
pub proof fn lemma_erased_from(seed: u64, drawn: nat, threshold: u64, k: nat)
    requires
        k <= usize::MAX + 1,
    ensures
        strictly_sorted(erased_from(seed, drawn, threshold, k)),
        bounded(erased_from(seed, drawn, threshold, k), k),
        erased_from(seed, drawn, threshold, k).len() <= k,
        threshold == 0 ==> erased_from(seed, drawn, threshold, k) == Seq::<usize>::empty(),
        threshold == ERASURE_THRESHOLD_SCALE ==> erased_from(seed, drawn, threshold, k)
            == Seq::new(k, |i: int| i as usize),
    decreases k,
{
    if k > 0 {
        lemma_erased_from(seed, drawn, threshold, (k - 1) as nat);
        let w = chacha8_word(seed, (drawn + k - 1) as nat);
        assert(w >> 11u64 < 9007199254740992u64) by (bit_vector);
        if threshold == ERASURE_THRESHOLD_SCALE {
            assert(erased_from(seed, drawn, threshold, k) =~= Seq::new(k, |i: int| i as usize));
        }
    }
}

proof fn lemma_kept_by_members(check: Seq<usize>, a: Seq<usize>, b: Seq<usize>)
    requires
        forall|x: usize| a.contains(x) == b.contains(x),
    ensures
        kept(check, a) == kept(check, b),
    decreases check.len(),
{
    if check.len() > 0 {
        lemma_kept_by_members(check.drop_last(), a, b);
    }
}

proof fn lemma_kept_checks_by_members(checks: Seq<Seq<usize>>, a: Seq<usize>, b: Seq<usize>)
    requires
        forall|x: usize| a.contains(x) == b.contains(x),
    ensures
        kept_checks(checks, a) == kept_checks(checks, b),
    decreases checks.len(),
{
    if checks.len() > 0 {
        lemma_kept_checks_by_members(checks.drop_last(), a, b);
        lemma_kept_by_members(checks.last(), a, b);
    }
}

/// Whether an erasure is corrected depends on the set of erased positions
/// alone: not on their order, nor on repetitions.
pub proof fn lemma_erasure_outcome_depends_on_set(d: ErasureDecoder, e1: Seq<usize>, e2: Seq<usize>)
    requires
        e1.to_set() == e2.to_set(),
    ensures
        d.succeeds_on(e1) == d.succeeds_on(e2),
{
    assert forall|x: usize| e1.contains(x) == e2.contains(x) by {
        vstd::set::axiom_set_new(|a: usize| e1.contains(a), x);
        vstd::set::axiom_set_new(|a: usize| e2.contains(a), x);
        assert(e1.to_set().contains(x) == e2.to_set().contains(x));
    }
    lemma_kept_checks_by_members(d.code().checks(), e1, e2);
}

/// Decoder for the classical erasure channel.
#[derive(Debug)]
pub struct ErasureDecoder {
    code: ParityCheckMatrix,
    erasure_threshold: u64,
    ressources: Ressources,
}

/// The number of distinct positions of `error`.
fn count_distinct(error: &Vec<usize>, n: usize) -> (r: usize)
    requires
        bounded(error@, n as nat),
    ensures
        r == error@.to_set().len(),
{
    let mut marks: Vec<bool> = Vec::new();
    let mut c: usize = 0;
    while c < n
        invariant
            c <= n,
            marks@.len() == c,
            forall|j: int| 0 <= j < c ==> !marks@[j],
        decreases n - c,
    {
        marks.push(false);
        c = c + 1;
    }
    let mut count: usize = 0;
    let mut k: usize = 0;
    proof {
        assert(error@.subrange(0, 0).to_set() =~= Set::<usize>::empty());
    }
    while k < error.len()
        invariant
            k <= error@.len(),
            bounded(error@, n as nat),
            marks@.len() == n,
            forall|j: int| 0 <= j < n ==> marks@[j] == error@.subrange(0, k as int).contains(j as usize),
            count == error@.subrange(0, k as int).to_set().len(),
            count <= k,
        decreases error@.len() - k,
    {
        let b = error[k];
        let ghost p = error@.subrange(0, k as int);
        let ghost q = error@.subrange(0, k + 1);
        assert(q =~= p.push(b));
        assert forall|x: usize| #[trigger] q.contains(x) == (p.contains(x) || x == b) by {
            if q.contains(x) {
                let t = choose|t: int| 0 <= t < q.len() && q[t] == x;
                if t < k {
                    assert(p[t] == x);
                }
            }
            if p.contains(x) {
                let t = choose|t: int| 0 <= t < p.len() && p[t] == x;
                assert(q[t] == x);
            }
            if x == b {
                assert(q[k as int] == x);
            }
        }
        assert(q.to_set() =~= p.to_set().insert(b));
        proof {
            vstd::seq_lib::seq_to_set_is_finite(p);
            vstd::set::axiom_set_insert_len(p.to_set(), b);
        }
        if !marks[b] {
            assert(!p.to_set().contains(b));
            count = count + 1;
            marks.set(b, true);
        } else {
            assert(p.to_set().contains(b));
            assert(p.to_set().insert(b) =~= p.to_set());
        }
        k = k + 1;
    }
    assert(error@.subrange(0, k as int) =~= error@);
    count
}

impl ErasureDecoder {
    /// The erasure threshold.
    pub closed spec fn threshold(&self) -> u64 {
        self.erasure_threshold
    }

    /// The bound code.
    pub closed spec fn code(&self) -> ParityCheckMatrix {
        self.code
    }

    /// Creates an erasure decoder that erases each bit with probability
    /// `erasure_threshold / 2^53`, bound to the empty code.
    pub fn with_erasure_threshold(erasure_threshold: u64) -> (r: Self)
        requires
            erasure_threshold <= ERASURE_THRESHOLD_SCALE,
        ensures
            r.threshold() == erasure_threshold,
            r.wf(),
            r.is_unbound(),
            r.code().wf(),
            r.code().spec_n_bits() == 0,
            r.code().checks().len() == 0,
    {
        Self {
            code: ParityCheckMatrix::new(),
            erasure_threshold,
            ressources: Ressources::with_n_bits(0),
        }
    }

    /// Draws one word of `rng` and tells whether it erases a bit.
    fn next_bit_is_erased(&self, rng: &mut StreamRng) -> (r: bool)
        ensures
            r == ((chacha8_word(old(rng).seed(), old(rng).drawn()) >> 11u64) < self.threshold()),
            final(rng).seed() == old(rng).seed(),
            final(rng).drawn() == old(rng).drawn() + 1,
    {
        let w = rng.next_word();
        (w >> 11u64) < self.erasure_threshold
    }
}

impl Decoder for ErasureDecoder {
    type Code = ParityCheckMatrix;
    type Error = Vec<usize>;
    type Result = ErasureResult;
    type Noise = u64;

    closed spec fn wf(&self) -> bool {
        &&& self.code.wf()
        &&& self.ressources.clean()
        &&& self.ressources.size() == self.code.spec_n_bits()
        &&& self.erasure_threshold <= ERASURE_THRESHOLD_SCALE
    }

    open spec fn accepts(&self, code: &ParityCheckMatrix) -> bool {
        &&& code.wf()
        &&& self.threshold() <= ERASURE_THRESHOLD_SCALE
    }

    open spec fn bound_code(&self) -> ParityCheckMatrix {
        self.code()
    }

    /// The erasure threshold.
    open spec fn noise(&self) -> u64 {
        self.threshold()
    }

    /// Bound to the code of 0 bit and no check.
    open spec fn is_unbound(&self) -> bool {
        &&& self.code().spec_n_bits() == 0
        &&& self.code().checks().len() == 0
    }

    open spec fn valid_error(&self, error: Seq<usize>) -> bool {
        bounded(error, self.code().spec_n_bits())
    }

    /// An erasure is corrected iff the columns of the erased bits are
    /// independent: the rank of the code restricted to them is their number.
    open spec fn succeeds_on(&self, error: Seq<usize>) -> bool {
        gf2_rank(kept_checks(self.code().checks(), error), self.code().spec_n_bits())
            == error.to_set().len()
    }

    /// Each bit is erased by one word of the stream, in order.
    open spec fn sampled(&self, seed: u64, drawn: nat) -> (Seq<usize>, nat) {
        (
            erased_from(seed, drawn, self.threshold(), self.code().spec_n_bits()),
            drawn + self.code().spec_n_bits(),
        )
    }

    fn for_code(self, code: ParityCheckMatrix) -> (r: Self) {
        let ressources = Ressources::with_n_bits(code.get_n_bits());
        ErasureDecoder { code, erasure_threshold: self.erasure_threshold, ressources }
    }

    fn take_code(&mut self) -> (r: ParityCheckMatrix) {
        let mut code = ParityCheckMatrix::new();
        std::mem::swap(&mut self.code, &mut code);
        self.ressources = Ressources::with_n_bits(0);
        code
    }

    fn decode(&mut self, error: &Vec<usize>) -> (r: ErasureResult) {
        let erased_parity_check = self.code.keep(error.as_slice());
        let erased_rank = erased_parity_check.rank_mut(&mut self.ressources);
        let n_erased = count_distinct(error, self.code.get_n_bits());
        if erased_rank == n_erased {
            ErasureResult::Success
        } else {
            ErasureResult::Failure
        }
    }

    fn get_random_error_with_rng(&self, rng: &mut StreamRng) -> (e: Vec<usize>) {
        let ghost seed = rng.seed();
        let ghost d0 = rng.drawn();
        let n = self.code.get_n_bits();
        let mut erased: Vec<usize> = Vec::new();
        let mut b: usize = 0;
        while b < n
            invariant
                b <= n,
                n == self.code.spec_n_bits(),
                rng.seed() == seed,
                rng.drawn() == d0 + b,
                erased@ == erased_from(seed, d0, self.erasure_threshold, b as nat),
                bounded(erased@, b as nat),
            decreases n - b,
        {
            if self.next_bit_is_erased(rng) {
                erased.push(b);
            }
            b = b + 1;
        }
        erased
    }
}

} // verus!
