//! Success and failure counts of a simulation, combinable by elementwise sum.

use vstd::prelude::*;

verus! {

/// An outcome of decoding that tells whether it succeeded.
pub trait DecodingResult {
    spec fn spec_is_success(&self) -> bool;

    fn is_success(&self) -> (r: bool)
        ensures
            r == self.spec_is_success(),
    ;
}

/// The numbers of successes and failures observed by a simulation.
#[derive(Clone, Copy, PartialEq, Eq, Debug, Structural)]
pub struct SimulationResult {
    n_successes: u64,
    n_failures: u64,
}

impl SimulationResult {
    pub closed spec fn successes(&self) -> nat {
        self.n_successes as nat
    }

    pub closed spec fn failures(&self) -> nat {
        self.n_failures as nat
    }

    /// `true` when the failure rate of `self` is below that of `other`; a
    /// result without trials has no rate and is never better nor worse.
    pub open spec fn spec_is_better_than(&self, other: &Self) -> bool {
        &&& self.successes() + self.failures() > 0
        &&& other.successes() + other.failures() > 0
        &&& self.failures() * other.successes() < other.failures() * self.successes()
    }

    /// `true` when the counts of `self` are the sums of those of `a` and `b`.
    pub open spec fn is_combination_of(&self, a: Self, b: Self) -> bool {
        &&& self.successes() == a.successes() + b.successes()
        &&& self.failures() == a.failures() + b.failures()
    }

    /// The counts fit in a `u64`.
    pub proof fn lemma_counts_fit(&self)
        ensures
            self.successes() <= u64::MAX,
            self.failures() <= u64::MAX,
    {
    }

    /// Combining is commutative.
    pub proof fn lemma_combine_commutative(a: Self, b: Self, ab: Self, ba: Self)
        requires
            ab.is_combination_of(a, b),
            ba.is_combination_of(b, a),
        ensures
            ab == ba,
    {
    }

    /// Combining is associative.
    pub proof fn lemma_combine_associative(
        a: Self,
        b: Self,
        c: Self,
        ab: Self,
        ab_c: Self,
        bc: Self,
        a_bc: Self,
    )
        requires
            ab.is_combination_of(a, b),
            ab_c.is_combination_of(ab, c),
            bc.is_combination_of(b, c),
            a_bc.is_combination_of(a, bc),
        ensures
            ab_c == a_bc,
    {
    }

    /// Combining with a result that holds only failures never lowers the failure rate.
    pub proof fn lemma_combine_with_failures_never_better(r: Self, w: Self, c: Self)
        requires
            w.successes() == 0,
            c.is_combination_of(r, w),
        ensures
            !c.spec_is_better_than(&r),
    {
        assert(c.failures() * r.successes() >= r.failures() * c.successes()) by (nonlinear_arith)
            requires
                c.failures() == r.failures() + w.failures(),
                c.successes() == r.successes(),
        ;
    }

    // ***** Construction *****

    /// Creates an empty `SimulationResult`.
    pub fn new() -> (r: Self)
        ensures
            r.successes() == 0,
            r.failures() == 0,
    {
        Self { n_successes: 0, n_failures: 0 }
    }

    /// Creates a `SimulationResult` from the numbers of successes and failures.
    pub fn with_n_successes_and_failures(n_successes: u64, n_failures: u64) -> (r: Self)
        ensures
            r.successes() == n_successes,
            r.failures() == n_failures,
    {
        Self { n_successes, n_failures }
    }

    /// Creates the worst `SimulationResult`: one failure and no success.
    pub fn worse_result() -> (r: Self)
        ensures
            r.successes() == 0,
            r.failures() == 1,
    {
        Self { n_successes: 0, n_failures: 1 }
    }

    // ***** Updaters *****

    /// Counts one more decoding outcome.
    pub fn add_decoding_result<D: DecodingResult>(&mut self, result: D)
        requires
            old(self).successes() < u64::MAX,
            old(self).failures() < u64::MAX,
        ensures
            result.spec_is_success() ==> final(self).successes() == old(self).successes() + 1
                && final(self).failures() == old(self).failures(),
            !result.spec_is_success() ==> final(self).failures() == old(self).failures() + 1
                && final(self).successes() == old(self).successes(),
    {
        if result.is_success() {
            self.n_successes = self.n_successes + 1;
        } else {
            self.n_failures = self.n_failures + 1;
        }
    }

    // ***** Predicates *****

    /// `true` unless `self` has at least one success and one failure.
    pub fn has_not_at_least_one_success_and_one_failure(&self) -> (r: bool)
        ensures
            r == (self.successes() == 0 || self.failures() == 0),
    {
        self.n_successes == 0 || self.n_failures == 0
    }

    /// Checks if `self` has a lower failure rate than `other`.
    pub fn is_better_than(&self, other: &Self) -> (r: bool)
        ensures
            r == self.spec_is_better_than(other),
    {
        if (self.n_successes == 0 && self.n_failures == 0) || (other.n_successes == 0
            && other.n_failures == 0) {
            return false;
        }
        // f1 / (s1 + f1) < f2 / (s2 + f2) exactly when f1 * s2 < f2 * s1.
        let f1 = self.n_failures as u128;
        let s2 = other.n_successes as u128;
        let f2 = other.n_failures as u128;
        let s1 = self.n_successes as u128;
        proof {
            let m: int = 0xffff_ffff_ffff_ffff;
            assert(f1 * s2 <= m * m) by (nonlinear_arith)
                requires 0 <= f1 <= m, 0 <= s2 <= m;
            assert(f2 * s1 <= m * m) by (nonlinear_arith)
                requires 0 <= f2 <= m, 0 <= s1 <= m;
        }
        let lhs = f1 * s2;
        let rhs = f2 * s1;
        lhs < rhs
    }

    // ***** Getters *****

    /// Returns the elementwise sum of the counts of `self` and `other`.
    pub fn combine_with(&self, other: SimulationResult) -> (r: Self)
        requires
            self.successes() + other.successes() <= u64::MAX,
            self.failures() + other.failures() <= u64::MAX,
        ensures
            r.is_combination_of(*self, other),
    {
        Self {
            n_successes: self.n_successes + other.n_successes,
            n_failures: self.n_failures + other.n_failures,
        }
    }

    /// The number of trials: successes and failures.
    pub fn get_n_iterations(&self) -> (r: u64)
        requires
            self.successes() + self.failures() <= u64::MAX,
        ensures
            r == self.successes() + self.failures(),
    {
        self.n_failures + self.n_successes
    }

    pub fn get_n_failures(&self) -> (r: u64)
        ensures
            r == self.failures(),
    {
        self.n_failures
    }

    pub fn get_n_successes(&self) -> (r: u64)
        ensures
            r == self.successes(),
    {
        self.n_successes
    }
}

} // verus!
