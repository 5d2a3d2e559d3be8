//! A reproducible Monte-Carlo harness.
//!
//! A master stream first yields one seed per trial stream. Each trial stream
//! then runs on its own generator seeded from its seed, until it has seen a
//! success and a failure, and the per-stream counts are summed. The outcome of
//! a stream depends on its seed alone, so the streams can be run in any order
//! and split among any number of workers.

use vstd::prelude::*;

use crate::decoder::Decoder;
use crate::random::{chacha8_word, StreamRng};
use crate::simulation_result::{DecodingResult, SimulationResult};

verus! {

/// The seeds of `n` trial streams drawn from the stream of `master_seed`.
pub open spec fn seed_table(master_seed: u64, n: nat) -> Seq<u64> {
    Seq::new(n, |i: int| chacha8_word(master_seed, i as nat))
}

/// The counts `(successes, failures)` that a stream reaches: trials on the
/// stream of `seed` from position `drawn` on, with `s` successes and `f`
/// failures so far and at most `fuel` trials left, until both counts are
/// nonzero; `None` when the trials run out first.
pub open spec fn stream_run<D: Decoder>(
    d: D,
    seed: u64,
    drawn: nat,
    s: nat,
    f: nat,
    fuel: nat,
) -> Option<(nat, nat)>
    decreases fuel,
{
    if s > 0 && f > 0 {
        Some((s, f))
    } else if fuel == 0 {
        None
    } else {
        let (e, next) = d.sampled(seed, drawn);
        if d.succeeds_on(e) {
            stream_run(d, seed, next, s + 1, f, (fuel - 1) as nat)
        } else {
            stream_run(d, seed, next, s, f + 1, (fuel - 1) as nat)
        }
    }
}

/// The counts that the stream of `seed` reaches within `max_trials` trials.
pub open spec fn stream_outcome<D: Decoder>(d: D, seed: u64, max_trials: nat) -> Option<(nat, nat)> {
    stream_run(d, seed, 0, 0, 0, max_trials)
}

/// The sum of two optional counts; `None` when either is.
pub open spec fn add_counts(a: Option<(nat, nat)>, b: Option<(nat, nat)>) -> Option<(nat, nat)> {
    match (a, b) {
        (Some((s1, f1)), Some((s2, f2))) => Some((s1 + s2, f1 + f2)),
        _ => None,
    }
}

/// The summed counts of the streams of `seeds`; `None` when one runs out of trials.
pub open spec fn streams_total<D: Decoder>(d: D, seeds: Seq<u64>, max_trials: nat) -> Option<(nat, nat)>
    decreases seeds.len(),
{
    if seeds.len() == 0 {
        Some((0, 0))
    } else {
        add_counts(
            streams_total(d, seeds.drop_last(), max_trials),
            stream_outcome(d, seeds.last(), max_trials),
        )
    }
}

/// `r` holds the counts `o`, or is `None` when `o` is.
pub open spec fn matches_counts(r: Option<SimulationResult>, o: Option<(nat, nat)>) -> bool {
    match (r, o) {
        (Some(x), Some((s, f))) => x.successes() == s && x.failures() == f,
        (None, None) => true,
        _ => false,
    }
}

/// `b` decides as `a` does and draws its errors as `a` does.
pub open spec fn same_strategy<D: Decoder>(a: D, b: D) -> bool {
    &&& forall|e| #[trigger] b.succeeds_on(e) == a.succeeds_on(e)
    &&& forall|e| #[trigger] b.valid_error(e) == a.valid_error(e)
    &&& forall|s: u64, d: nat| #[trigger] b.sampled(s, d) == a.sampled(s, d)
}

/// The aggregate over the streams of `seeds` is the sum of the aggregates over
/// `seeds[..k]` and `seeds[k..]`: the streams may be split into consecutive
/// parts, one per worker, and the parts summed, with the same result.
pub proof fn lemma_streams_total_split<D: Decoder>(d: D, seeds: Seq<u64>, k: int, max_trials: nat)
    requires
        0 <= k <= seeds.len(),
    ensures
        streams_total(d, seeds, max_trials) == add_counts(
            streams_total(d, seeds.subrange(0, k), max_trials),
            streams_total(d, seeds.subrange(k, seeds.len() as int), max_trials),
        ),
    decreases seeds.len(),
{
    if k == seeds.len() {
        assert(seeds.subrange(0, k) =~= seeds);
        assert(seeds.subrange(k, seeds.len() as int) =~= Seq::<u64>::empty());
    } else {
        let rest = seeds.subrange(k, seeds.len() as int);
        lemma_streams_total_split(d, seeds.drop_last(), k, max_trials);
        assert(seeds.drop_last().subrange(0, k) =~= seeds.subrange(0, k));
        assert(rest.drop_last() =~= seeds.drop_last().subrange(k, seeds.len() - 1));
        assert(rest.last() == seeds.last());
    }
}

/// The seeds of `n_events` trial streams drawn from the stream of `master_seed`.
pub fn initialize_random_seeds(master_seed: u64, n_events: usize) -> (r: Vec<u64>)
    ensures
        r@ == seed_table(master_seed, n_events as nat),
{
    let mut rng = StreamRng::from_seed(master_seed);
    let mut seeds: Vec<u64> = Vec::new();
    let mut i: usize = 0;
    while i < n_events
        invariant
            i <= n_events,
            rng.seed() == master_seed,
            rng.drawn() == i,
            seeds@ == seed_table(master_seed, i as nat),
        decreases n_events - i,
    {
        seeds.push(rng.next_word());
        i = i + 1;
        assert(seeds@ =~= seed_table(master_seed, i as nat));
    }
    seeds
}

/// Runs the trial stream of `seed` until it has seen a success and a failure,
/// or `max_trials` trials have run without, in which case it returns `None`.
pub fn simulate_thread_until_one_event_is_found<D: Decoder>(
    decoder: &mut D,
    seed: u64,
    max_trials: u64,
) -> (r: Option<SimulationResult>)
    requires
        old(decoder).wf(),
    ensures
        final(decoder).wf(),
        same_strategy(*old(decoder), *final(decoder)),
        matches_counts(r, stream_outcome(*old(decoder), seed, max_trials as nat)),
        r matches Some(x) ==> x.successes() + x.failures() <= max_trials,
{
    let ghost d0 = *decoder;
    let mut rng = StreamRng::from_seed(seed);
    let mut result = SimulationResult::new();
    let mut trials: u64 = 0;
    while result.has_not_at_least_one_success_and_one_failure() && trials < max_trials
        invariant
            decoder.wf(),
            same_strategy(d0, *decoder),
            rng.seed() == seed,
            trials <= max_trials,
            result.successes() + result.failures() == trials,
            stream_run(
                d0,
                seed,
                rng.drawn(),
                result.successes(),
                result.failures(),
                (max_trials - trials) as nat,
            ) == stream_outcome(d0, seed, max_trials as nat),
        decreases max_trials - trials,
    {
        let ghost drawn = rng.drawn();
        let error = decoder.get_random_error_with_rng(&mut rng);
        assert(d0.sampled(seed, drawn) == (error@, rng.drawn()));
        let outcome = decoder.decode(&error);
        assert(outcome.spec_is_success() == d0.succeeds_on(error@));
        result.add_decoding_result(outcome);
        trials = trials + 1;
    }
    if result.has_not_at_least_one_success_and_one_failure() {
        None
    } else {
        Some(result)
    }
}

/// Runs `n_events` trial streams, with seeds drawn from the stream of
/// `master_seed`, and sums their counts. Returns `None` when a stream sees no
/// success or no failure within `max_trials` trials, or when a sum does not
/// fit in a `u64`.
pub fn simulate_until_n_events_are_found<D: Decoder>(
    decoder: &mut D,
    n_events: usize,
    master_seed: u64,
    max_trials: u64,
) -> (r: Option<SimulationResult>)
    requires
        old(decoder).wf(),
    ensures
        final(decoder).wf(),
        match streams_total(*old(decoder), seed_table(master_seed, n_events as nat), max_trials as nat) {
            Some((s, f)) => if s <= u64::MAX && f <= u64::MAX {
                matches_counts(r, Some((s, f)))
            } else {
                r is None
            },
            None => r is None,
        },
{
    let ghost d0 = *decoder;
    assert(d0 == *old(decoder));
    let ghost table = seed_table(master_seed, n_events as nat);
    let seeds = initialize_random_seeds(master_seed, n_events);
    let mut total = SimulationResult::new();
    let mut i: usize = 0;
    assert(table.subrange(0, 0) =~= Seq::<u64>::empty());
    while i < n_events
        invariant
            i <= n_events,
            seeds@ == table,
            table == seed_table(master_seed, n_events as nat),
            d0 == *old(decoder),
            decoder.wf(),
            same_strategy(d0, *decoder),
            streams_total(d0, table.subrange(0, i as int), max_trials as nat) == Some(
                (total.successes(), total.failures()),
            ),
        decreases n_events - i,
    {
        let ghost before = *decoder;
        let stream = simulate_thread_until_one_event_is_found(decoder, seeds[i], max_trials);
        assert(table.subrange(0, i + 1).drop_last() =~= table.subrange(0, i as int));
        assert(stream_outcome(before, seeds@[i as int], max_trials as nat) == stream_outcome(
            d0,
            seeds@[i as int],
            max_trials as nat,
        )) by {
            lemma_same_strategy_same_run(d0, before, seeds@[i as int], 0, 0, 0, max_trials as nat);
        }
        match stream {
            Some(x) => {
                if x.get_n_successes() > u64::MAX - total.get_n_successes() || x.get_n_failures()
                    > u64::MAX - total.get_n_failures() {
                    proof {
                        assert(table.subrange(0, i + 1).last() == seeds@[i as int]);
                        if streams_total(d0, table, max_trials as nat) is Some {
                            lemma_streams_total_grows(d0, table, i + 1, max_trials as nat);
                        }
                    }
                    return None;
                }
                total = total.combine_with(x);
                assert(table.subrange(0, i + 1).last() == seeds@[i as int]);
            },
            None => {
                proof {
                    assert(table.subrange(0, i + 1).last() == seeds@[i as int]);
                    assert(streams_total(d0, table.subrange(0, i + 1), max_trials as nat) is None);
                    lemma_total_stays_none(d0, table, i as int + 1, max_trials as nat);
                    assert(matches_counts(None, streams_total(d0, table, max_trials as nat)));
                }
                return None;
            },
        }
        i = i + 1;
    }
    assert(table.subrange(0, n_events as int) =~= table);
    proof {
        total.lemma_counts_fit();
    }
    Some(total)
}

proof fn lemma_same_strategy_same_run<D: Decoder>(
    a: D,
    b: D,
    seed: u64,
    drawn: nat,
    s: nat,
    f: nat,
    fuel: nat,
)
    requires
        same_strategy(a, b),
    ensures
        stream_run(b, seed, drawn, s, f, fuel) == stream_run(a, seed, drawn, s, f, fuel),
    decreases fuel,
{
    if !(s > 0 && f > 0) && fuel > 0 {
        let (e, next) = a.sampled(seed, drawn);
        assert(b.sampled(seed, drawn) == a.sampled(seed, drawn));
        assert(b.succeeds_on(e) == a.succeeds_on(e));
        lemma_same_strategy_same_run(a, b, seed, next, s + 1, f, (fuel - 1) as nat);
        lemma_same_strategy_same_run(a, b, seed, next, s, f + 1, (fuel - 1) as nat);
    }
}

proof fn lemma_streams_total_grows<D: Decoder>(d: D, seeds: Seq<u64>, k: int, max_trials: nat)
    requires
        0 <= k <= seeds.len(),
        streams_total(d, seeds, max_trials) is Some,
    ensures
        streams_total(d, seeds.subrange(0, k), max_trials) is Some,
        streams_total(d, seeds.subrange(0, k), max_trials).unwrap().0 <= streams_total(
            d,
            seeds,
            max_trials,
        ).unwrap().0,
        streams_total(d, seeds.subrange(0, k), max_trials).unwrap().1 <= streams_total(
            d,
            seeds,
            max_trials,
        ).unwrap().1,
    decreases seeds.len() - k,
{
    if k == seeds.len() {
        assert(seeds.subrange(0, k) =~= seeds);
    } else {
        lemma_streams_total_grows(d, seeds.drop_last(), k, max_trials);
        assert(seeds.drop_last().subrange(0, k) =~= seeds.subrange(0, k));
    }
}

proof fn lemma_total_stays_none<D: Decoder>(d: D, seeds: Seq<u64>, k: int, max_trials: nat)
    requires
        0 < k <= seeds.len(),
        streams_total(d, seeds.subrange(0, k), max_trials) is None,
    ensures
        streams_total(d, seeds, max_trials) is None,
    decreases seeds.len() - k,
{
    if k < seeds.len() {
        let p = seeds.subrange(0, k + 1);
        assert(p.drop_last() =~= seeds.subrange(0, k));
        lemma_total_stays_none(d, seeds, k + 1, max_trials);
    } else {
        assert(seeds.subrange(0, k) =~= seeds);
    }
}

/// The summed counts of per-stream results; `None` when one of them is.
pub open spec fn results_total(results: Seq<Option<SimulationResult>>) -> Option<(nat, nat)>
    decreases results.len(),
{
    if results.len() == 0 {
        Some((0, 0))
    } else {
        let last = match results.last() {
            Some(x) => Some((x.successes(), x.failures())),
            None => None,
        };
        add_counts(results_total(results.drop_last()), last)
    }
}

proof fn lemma_results_total_grows(results: Seq<Option<SimulationResult>>, k: int)
    requires
        0 <= k <= results.len(),
        results_total(results) is Some,
    ensures
        results_total(results.subrange(0, k)) is Some,
        results_total(results.subrange(0, k)).unwrap().0 <= results_total(results).unwrap().0,
        results_total(results.subrange(0, k)).unwrap().1 <= results_total(results).unwrap().1,
    decreases results.len() - k,
{
    if k == results.len() {
        assert(results.subrange(0, k) =~= results);
    } else {
        lemma_results_total_grows(results.drop_last(), k);
        assert(results.drop_last().subrange(0, k) =~= results.subrange(0, k));
    }
}

/// Sums the per-stream results `results`, as they come from workers that ran
/// the streams of a seed table. Returns `None` when a stream ran out of trials
/// or when a sum does not fit in a `u64`.
pub fn combine_stream_results(results: &Vec<Option<SimulationResult>>) -> (r: Option<SimulationResult>)
    ensures
        match results_total(results@) {
            Some((s, f)) => if s <= u64::MAX && f <= u64::MAX {
                matches_counts(r, Some((s, f)))
            } else {
                r is None
            },
            None => r is None,
        },
{
    let mut total = SimulationResult::new();
    let mut i: usize = 0;
    assert(results@.subrange(0, 0) =~= Seq::<Option<SimulationResult>>::empty());
    while i < results.len()
        invariant
            i <= results@.len(),
            results_total(results@.subrange(0, i as int)) == Some((total.successes(), total.failures())),
        decreases results@.len() - i,
    {
        assert(results@.subrange(0, i + 1).drop_last() =~= results@.subrange(0, i as int));
        assert(results@.subrange(0, i + 1).last() == results@[i as int]);
        match results[i] {
            Some(x) => {
                if x.get_n_successes() > u64::MAX - total.get_n_successes() || x.get_n_failures()
                    > u64::MAX - total.get_n_failures() {
                    proof {
                        if results_total(results@) is Some {
                            lemma_results_total_grows(results@, i + 1);
                        }
                    }
                    return None;
                }
                total = total.combine_with(x);
            },
            None => {
                proof {
                    if results_total(results@) is Some {
                        lemma_results_total_grows(results@, i + 1);
                    }
                }
                return None;
            },
        }
        i = i + 1;
    }
    assert(results@.subrange(0, i as int) =~= results@);
    proof {
        total.lemma_counts_fit();
    }
    Some(total)
}

} // verus!
