use believer::{
    Decoder, DecodingResult, ErasureDecoder, ErasureResult, ParityCheckMatrix, StreamRng,
    ERASURE_THRESHOLD_SCALE,
};

fn threshold_of(p: f64) -> u64 {
    (p * ERASURE_THRESHOLD_SCALE as f64).ceil() as u64
}

#[test]
fn repetition_code() {
    let code = ParityCheckMatrix::with_n_bits(3).with_checks(vec![vec![0, 1], vec![1, 2]]);
    let mut decoder = ErasureDecoder::with_erasure_threshold(threshold_of(0.2)).for_code(code);

    assert_eq!(decoder.decode(&vec![]), ErasureResult::Success);
    for i in 0..=2 {
        assert_eq!(decoder.decode(&vec![i]), ErasureResult::Success);
        for j in (i + 1)..=2 {
            assert_eq!(decoder.decode(&vec![i, j]), ErasureResult::Success);
        }
    }
    assert_eq!(decoder.decode(&vec![0, 1, 2]), ErasureResult::Failure);
}

#[test]
fn hamming_code() {
    let code = ParityCheckMatrix::with_n_bits(7).with_checks(vec![
        vec![0, 1, 2, 4],
        vec![0, 1, 3, 5],
        vec![0, 2, 3, 6],
    ]);
    let mut decoder = ErasureDecoder::with_erasure_threshold(threshold_of(0.25)).for_code(code);

    assert_eq!(decoder.decode(&vec![]), ErasureResult::Success);
    for i in 0..=6 {
        assert_eq!(decoder.decode(&vec![i]), ErasureResult::Success);
        for j in (i + 1)..=6 {
            assert_eq!(decoder.decode(&vec![i, j]), ErasureResult::Success);
        }
    }
    assert_eq!(decoder.decode(&vec![0, 1, 2]), ErasureResult::Success);
    assert_eq!(decoder.decode(&vec![2, 4, 5]), ErasureResult::Success);
    assert_eq!(decoder.decode(&vec![0, 1, 4]), ErasureResult::Success);
    assert_eq!(decoder.decode(&vec![3, 4, 5]), ErasureResult::Success);

    assert_eq!(decoder.decode(&vec![2, 4, 6]), ErasureResult::Failure);
    assert_eq!(decoder.decode(&vec![1, 2, 3]), ErasureResult::Failure);
    assert_eq!(decoder.decode(&vec![0, 3, 4]), ErasureResult::Failure);
    assert_eq!(decoder.decode(&vec![0, 2, 5]), ErasureResult::Failure);

    assert_eq!(decoder.decode(&vec![0, 1, 2, 3, 4, 5, 6]), ErasureResult::Failure);
}

#[test]
fn repeated_erasures_count_once() {
    let code = ParityCheckMatrix::with_n_bits(3).with_checks(vec![vec![0, 1], vec![1, 2]]);
    let mut decoder = ErasureDecoder::with_erasure_threshold(0).for_code(code);
    assert_eq!(decoder.decode(&vec![1, 1]), ErasureResult::Success);
    assert_eq!(decoder.decode(&vec![2, 0, 2, 0]), ErasureResult::Success);
    assert_eq!(decoder.decode(&vec![0, 1, 2, 1]), ErasureResult::Failure);
}

#[test]
fn outcome_tells_success() {
    assert!(ErasureResult::Success.is_success());
    assert!(!ErasureResult::Failure.is_success());
}

#[test]
fn take_code_gives_back_the_code() {
    let code = ParityCheckMatrix::with_n_bits(3).with_checks(vec![vec![0, 1], vec![1, 2]]);
    let mut decoder = ErasureDecoder::with_erasure_threshold(0).for_code(code.clone());
    assert_eq!(decoder.take_code(), code);
    assert_eq!(decoder.take_code(), ParityCheckMatrix::new());
}

#[test]
fn sampling_extremes() {
    let code = ParityCheckMatrix::identity_with_n_bits(5);
    let never = ErasureDecoder::with_erasure_threshold(0).for_code(code.clone());
    let always = ErasureDecoder::with_erasure_threshold(ERASURE_THRESHOLD_SCALE).for_code(code);
    let mut rng = StreamRng::from_seed(7);
    assert_eq!(never.get_random_error_with_rng(&mut rng), Vec::<usize>::new());
    assert_eq!(always.get_random_error_with_rng(&mut rng), vec![0, 1, 2, 3, 4]);
}

#[test]
fn sampling_follows_the_stream() {
    let code = ParityCheckMatrix::identity_with_n_bits(64);
    let decoder = ErasureDecoder::with_erasure_threshold(ERASURE_THRESHOLD_SCALE / 2).for_code(code);
    let mut a = StreamRng::from_seed(11);
    let mut b = StreamRng::from_seed(11);
    let first = decoder.get_random_error_with_rng(&mut a);
    assert_eq!(first, decoder.get_random_error_with_rng(&mut b));
    let mut words = StreamRng::from_seed(11);
    let expected: Vec<usize> = (0..64).filter(|_| (words.next_word() >> 11) < ERASURE_THRESHOLD_SCALE / 2).collect();
    assert_eq!(first, expected);
    assert!(!first.is_empty() && first.len() < 64);
}

#[test]
fn take_code_leaves_an_empty_code() {
    let code = ParityCheckMatrix::identity_with_n_bits(4);
    let mut decoder = ErasureDecoder::with_erasure_threshold(ERASURE_THRESHOLD_SCALE).for_code(code);
    decoder.take_code();
    let mut rng = StreamRng::from_seed(3);
    assert_eq!(decoder.get_random_error_with_rng(&mut rng), Vec::<usize>::new());
    assert_eq!(decoder.decode(&vec![]), ErasureResult::Success);
}

#[test]
fn order_of_erased_positions_does_not_matter() {
    let code = ParityCheckMatrix::with_n_bits(7).with_checks(vec![
        vec![0, 1, 2, 4],
        vec![0, 1, 3, 5],
        vec![0, 2, 3, 6],
    ]);
    let mut decoder = ErasureDecoder::with_erasure_threshold(0).for_code(code);
    assert_eq!(decoder.decode(&vec![6, 4, 2]), ErasureResult::Failure);
    assert_eq!(decoder.decode(&vec![5, 2, 4]), ErasureResult::Success);
}
