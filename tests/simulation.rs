use believer::{
    combine_stream_results, initialize_random_seeds, simulate_thread_until_one_event_is_found,
    simulate_until_n_events_are_found, Decoder, ErasureDecoder, ErasureResult, ParityCheckMatrix,
    SimulationResult, StreamRng, ERASURE_THRESHOLD_SCALE,
};

fn hamming_decoder() -> ErasureDecoder {
    let code = ParityCheckMatrix::with_n_bits(7).with_checks(vec![
        vec![0, 1, 2, 4],
        vec![0, 1, 3, 5],
        vec![0, 2, 3, 6],
    ]);
    ErasureDecoder::with_erasure_threshold(ERASURE_THRESHOLD_SCALE / 4).for_code(code)
}

#[test]
fn counting_outcomes() {
    let mut r = SimulationResult::new();
    assert!(r.has_not_at_least_one_success_and_one_failure());
    r.add_decoding_result(ErasureResult::Success);
    r.add_decoding_result(ErasureResult::Success);
    assert!(r.has_not_at_least_one_success_and_one_failure());
    r.add_decoding_result(ErasureResult::Failure);
    assert!(!r.has_not_at_least_one_success_and_one_failure());
    assert_eq!(r.get_n_successes(), 2);
    assert_eq!(r.get_n_failures(), 1);
    assert_eq!(r.get_n_iterations(), 3);
}

#[test]
fn combine_is_commutative_and_associative() {
    let a = SimulationResult::with_n_successes_and_failures(3, 5);
    let b = SimulationResult::with_n_successes_and_failures(7, 1);
    let c = SimulationResult::with_n_successes_and_failures(0, 4);
    assert_eq!(a.combine_with(b), b.combine_with(a));
    assert_eq!(a.combine_with(b).combine_with(c), a.combine_with(b.combine_with(c)));
    assert_eq!(a.combine_with(b), SimulationResult::with_n_successes_and_failures(10, 6));
}

#[test]
fn combining_with_failures_is_never_better() {
    let worst = SimulationResult::worse_result();
    assert_eq!(worst.get_n_successes(), 0);
    assert_eq!(worst.get_n_failures(), 1);
    for (s, f) in [(9u64, 16u64), (1, 0), (0, 1), (5, 5)] {
        let r = SimulationResult::with_n_successes_and_failures(s, f);
        assert!(!r.combine_with(worst).is_better_than(&r));
    }
}

#[test]
fn better_means_lower_failure_rate() {
    let good = SimulationResult::with_n_successes_and_failures(9, 1);
    let bad = SimulationResult::with_n_successes_and_failures(9, 16);
    assert!(good.is_better_than(&bad));
    assert!(!bad.is_better_than(&good));
    assert!(!good.is_better_than(&good));
    assert!(!SimulationResult::new().is_better_than(&bad));
    assert!(!good.is_better_than(&SimulationResult::new()));
}

#[test]
fn counts_for_the_rates_example() {
    let r = SimulationResult::with_n_successes_and_failures(9, 16);
    assert_eq!(r.get_n_iterations(), 25);
    assert_eq!(r.get_n_failures(), 16);
    let failure_rate = r.get_n_failures() as f64 / r.get_n_iterations() as f64;
    assert!((failure_rate - 0.64).abs() < 1e-12);
}

#[test]
fn seeds_come_from_the_master_stream() {
    let seeds = initialize_random_seeds(42, 4);
    assert_eq!(seeds.len(), 4);
    assert_eq!(seeds, initialize_random_seeds(42, 4));
    let mut master = StreamRng::from_seed(42);
    for s in &seeds {
        assert_eq!(*s, master.next_word());
    }
    assert!(seeds.iter().all(|s| *s != 42));
    assert_ne!(seeds, initialize_random_seeds(43, 4));
}

#[test]
fn one_stream_sees_both_outcomes() {
    let mut decoder = hamming_decoder();
    let r = simulate_thread_until_one_event_is_found(&mut decoder, 5, 1_000_000).unwrap();
    assert!(r.get_n_successes() > 0 && r.get_n_failures() > 0);
    assert!(r.get_n_successes() == 1 || r.get_n_failures() == 1);
}

#[test]
fn stream_that_never_fails_runs_out_of_trials() {
    let code = ParityCheckMatrix::identity_with_n_bits(4);
    let mut decoder = ErasureDecoder::with_erasure_threshold(0).for_code(code);
    assert_eq!(simulate_thread_until_one_event_is_found(&mut decoder, 5, 50), None);
    assert_eq!(simulate_until_n_events_are_found(&mut decoder, 3, 1, 50), None);
}

#[test]
fn simulation_is_reproducible() {
    let mut d1 = hamming_decoder();
    let mut d2 = hamming_decoder();
    let a = simulate_until_n_events_are_found(&mut d1, 20, 2024, 1_000_000).unwrap();
    let b = simulate_until_n_events_are_found(&mut d2, 20, 2024, 1_000_000).unwrap();
    assert_eq!(a, b);
    assert!(a.get_n_successes() >= 20 && a.get_n_failures() >= 20);
    let again = simulate_until_n_events_are_found(&mut d1, 20, 2024, 1_000_000).unwrap();
    assert_eq!(a, again);
}

#[test]
fn simulation_does_not_depend_on_the_split_among_workers() {
    let mut sequential = hamming_decoder();
    let whole = simulate_until_n_events_are_found(&mut sequential, 12, 99, 1_000_000).unwrap();
    let seeds = initialize_random_seeds(99, 12);
    for workers in [1usize, 2, 3, 5] {
        let mut results = Vec::new();
        for chunk in seeds.chunks((seeds.len() + workers - 1) / workers) {
            let mut decoder = hamming_decoder();
            for seed in chunk.iter().rev() {
                results.push(simulate_thread_until_one_event_is_found(&mut decoder, *seed, 1_000_000));
            }
        }
        assert_eq!(combine_stream_results(&results), Some(whole));
    }
}

#[test]
fn combining_stream_results_fails_on_a_missing_stream_or_overflow() {
    let a = SimulationResult::with_n_successes_and_failures(1, 2);
    assert_eq!(combine_stream_results(&vec![Some(a), None]), None);
    let big = SimulationResult::with_n_successes_and_failures(u64::MAX, 1);
    assert_eq!(combine_stream_results(&vec![Some(big), Some(a)]), None);
    assert_eq!(
        combine_stream_results(&vec![Some(a), Some(a)]),
        Some(SimulationResult::with_n_successes_and_failures(2, 4))
    );
    assert_eq!(combine_stream_results(&vec![]), Some(SimulationResult::new()));
}

#[test]
fn decoder_can_be_rebound() {
    let mut decoder = hamming_decoder();
    let code = decoder.take_code();
    let mut decoder = ErasureDecoder::with_erasure_threshold(0).for_code(code);
    assert_eq!(decoder.decode(&vec![2, 4, 6]), ErasureResult::Failure);
}
