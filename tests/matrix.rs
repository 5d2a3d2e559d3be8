use believer::{ParityCheckMatrix, Ressources, GF2};

fn matrix(n_bits: usize, checks: Vec<Vec<usize>>) -> ParityCheckMatrix {
    ParityCheckMatrix::with_n_bits(n_bits).with_checks(checks)
}

fn checks_of(m: &ParityCheckMatrix) -> Vec<Vec<usize>> {
    m.checks_iter().iter().map(|c| c.as_ref().to_vec()).collect()
}

#[test]
fn checks_are_sorted_on_construction() {
    let checks = vec![vec![1, 0], vec![0, 2, 1], vec![1, 2, 3]];
    let matrix = ParityCheckMatrix::with_n_bits(4).with_checks(checks);

    assert_eq!(matrix.get_check(0).unwrap().as_ref(), &[0, 1]);
    assert_eq!(matrix.get_check(1).unwrap().as_ref(), &[0, 1, 2]);
    assert_eq!(matrix.get_check(2).unwrap().as_ref(), &[1, 2, 3]);
}

#[test]
fn empty_checks_are_removed_on_construction() {
    let checks = vec![vec![], vec![0, 1], vec![], vec![1, 2]];
    let matrix = ParityCheckMatrix::with_n_bits(3).with_checks(checks);

    assert_eq!(matrix.get_check(0).unwrap().as_ref(), &[0, 1]);
    assert_eq!(matrix.get_check(1).unwrap().as_ref(), &[1, 2]);
    assert_eq!(matrix.get_n_checks(), 2);
}

#[test]
fn syndrome() {
    let parity_check = ParityCheckMatrix::with_n_bits(3).with_checks(vec![vec![0, 1], vec![1, 2]]);
    let bits = vec![GF2::B0, GF2::B1, GF2::B1];

    assert_eq!(parity_check.get_check(0).unwrap().compute_syndrome(&bits), GF2::B1);
    assert_eq!(parity_check.get_check(1).unwrap().compute_syndrome(&bits), GF2::B0);
    assert_eq!(parity_check.get_syndrome_of(&bits), vec![GF2::B1, GF2::B0]);
}

#[test]
fn repeated_bits_are_stored_once() {
    let m = matrix(4, vec![vec![3, 1, 3, 1], vec![2, 2]]);
    assert_eq!(checks_of(&m), vec![vec![1, 3], vec![2]]);
    assert_eq!(m.get_n_edges(), 3);
}

#[test]
fn empty_check_list_keeps_the_matrix() {
    let m = matrix(3, vec![]);
    assert_eq!(m.get_n_checks(), 0);
    assert_eq!(m.get_n_bits(), 3);
    assert_eq!(m, ParityCheckMatrix::with_n_bits(3));
}

#[test]
fn new_matrix_is_empty() {
    let m = ParityCheckMatrix::new();
    assert_eq!(m.get_n_bits(), 0);
    assert_eq!(m.get_n_checks(), 0);
    assert_eq!(m.get_rank(), 0);
}

#[test]
fn identity_has_singleton_checks_and_full_rank() {
    for n in [0usize, 1, 2, 5, 17] {
        let m = ParityCheckMatrix::identity_with_n_bits(n);
        assert_eq!(m.get_n_checks(), n);
        assert_eq!(m.get_check_degrees(), vec![1; n]);
        assert_eq!(m.get_rank(), n);
        for i in 0..n {
            assert_eq!(m.get_check(i).unwrap().as_ref(), &[i]);
        }
    }
    let expected = matrix(3, vec![vec![0], vec![1], vec![2]]);
    assert_eq!(ParityCheckMatrix::identity_with_n_bits(3), expected);
}

#[test]
fn syndrome_and_codeword() {
    let m = matrix(3, vec![vec![0, 1], vec![1, 2]]);
    let message = vec![GF2::B0, GF2::B1, GF2::B1];
    assert_eq!(m.get_syndrome_of(&message), vec![GF2::B1, GF2::B0]);
    assert!(!m.has_codeword(&message));
    assert!(m.has_codeword(&vec![GF2::B0; 3]));
    assert!(m.has_codeword(&vec![GF2::B1; 3]));
}

#[test]
fn rank_of_dependent_checks() {
    let m = matrix(3, vec![vec![0, 1], vec![1, 2], vec![0, 2]]);
    assert_eq!(m.get_rank(), 2);
}

#[test]
fn rank_with_reused_workspace() {
    let mut ressources = Ressources::with_n_bits(7);
    let hamming = matrix(7, vec![vec![0, 1, 2, 4], vec![0, 1, 3, 5], vec![0, 2, 3, 6]]);
    let dependent = matrix(7, vec![vec![0, 1], vec![1, 2], vec![0, 2], vec![5, 6]]);
    for _ in 0..3 {
        assert_eq!(hamming.rank_mut(&mut ressources), 3);
        assert_eq!(dependent.rank_mut(&mut ressources), 3);
    }
    assert_eq!(ParityCheckMatrix::with_n_bits(7).rank_mut(&mut ressources), 0);
}

#[test]
fn degrees() {
    let m = matrix(7, vec![vec![0, 1, 2, 5], vec![1, 3, 4], vec![2, 4, 5], vec![0, 5]]);
    assert_eq!(m.get_bit_degrees(), vec![2, 2, 2, 1, 2, 3, 0]);
    assert_eq!(m.get_check_degrees(), vec![4, 3, 3, 2]);
    assert_eq!(m.get_n_edges(), 12);
}

#[test]
fn get_check_out_of_range() {
    let m = matrix(3, vec![vec![0, 1], vec![1, 2]]);
    assert_eq!(m.get_check(0).unwrap().as_ref(), &[0, 1]);
    assert_eq!(m.get_check(1).unwrap().as_ref(), &[1, 2]);
    assert!(m.get_check(2).is_none());
    assert_eq!(m.get_check(1).unwrap().get_n_bits(), 2);
}

#[test]
fn checks_and_edges_in_order() {
    let m = matrix(3, vec![vec![0, 1], vec![1, 2]]);
    let checks = m.checks_iter();
    assert_eq!(checks.len(), 2);
    assert_eq!(Some(checks[0]), m.get_check(0));
    assert_eq!(Some(checks[1]), m.get_check(1));
    assert_eq!(m.edges_iter(), vec![(0, 0), (0, 1), (1, 1), (1, 2)]);
}

#[test]
fn transpose_swaps_bits_and_checks() {
    let m = matrix(4, vec![vec![0, 1, 2], vec![1, 3], vec![0, 2, 3]]);
    let t = m.get_transposed_matrix();
    assert_eq!(t, matrix(3, vec![vec![0, 2], vec![0, 1], vec![0, 2], vec![1, 2]]));
    assert_eq!(t.get_n_bits(), 3);
    assert_eq!(t.get_n_checks(), 4);
}

#[test]
fn transpose_twice_gives_back_the_matrix() {
    let m = matrix(6, vec![vec![0, 1, 2, 5], vec![1, 3, 4], vec![2, 4, 5], vec![0, 5]]);
    assert_eq!(m.get_transposed_matrix().get_transposed_matrix(), m);
    let t = m.get_transposed_matrix();
    assert_eq!(t.get_n_checks(), 6);
}

#[test]
fn transpose_keeps_bits_of_degree_zero_as_empty_checks() {
    let m = matrix(3, vec![vec![0, 1]]);
    let t = m.get_transposed_matrix();
    assert_eq!(t.get_n_checks(), 3);
    assert_eq!(t.get_check(2).unwrap().as_ref(), &[] as &[usize]);
    assert_eq!(t.get_transposed_matrix(), m);
}

#[test]
fn horizontal_concat_keeps_the_checks_of_the_left() {
    let left = matrix(3, vec![vec![0, 1], vec![1, 2]]);
    let right = matrix(4, vec![vec![1, 2, 3], vec![0, 1], vec![2, 3]]);
    let concat = left.get_horizontal_concat_with(&right);
    assert_eq!(concat.get_n_bits(), 7);
    assert_eq!(checks_of(&concat), vec![vec![0, 1, 4, 5, 6], vec![1, 2, 3, 4]]);
    let concat = right.get_horizontal_concat_with(&left);
    assert_eq!(checks_of(&concat), vec![vec![1, 2, 3, 4, 5], vec![0, 1, 5, 6], vec![2, 3]]);
}

#[test]
fn diagonal_concat_stacks_blocks() {
    let left = matrix(3, vec![vec![0, 1], vec![1, 2]]);
    let right = matrix(4, vec![vec![1, 2, 3], vec![0, 1], vec![2, 3]]);
    let concat = left.get_diagonal_concat_with(&right);
    let expected = matrix(7, vec![vec![0, 1], vec![1, 2], vec![4, 5, 6], vec![3, 4], vec![5, 6]]);
    assert_eq!(concat, expected);
}

#[test]
fn keep_and_without_project_the_checks() {
    let m = matrix(5, vec![vec![0, 1, 2], vec![2, 3, 4], vec![0, 2, 4], vec![1, 3]]);
    let kept = matrix(5, vec![vec![0, 1], vec![4], vec![0, 4], vec![1]]);
    assert_eq!(m.keep(&[0, 1, 4]), kept);
    assert_eq!(m.keep(&[4, 1, 0]), kept);
    let without = matrix(5, vec![vec![1], vec![3, 4], vec![4], vec![1, 3]]);
    assert_eq!(m.without(&[0, 2]), without);
    let only_three = m.keep(&[3]);
    assert_eq!(checks_of(&only_three), vec![vec![3], vec![3]]);
}

#[test]
fn without_uses_the_bit_count_of_the_matrix() {
    let m = matrix(12, vec![vec![0, 9, 11], vec![10, 11]]);
    assert_eq!(checks_of(&m.without(&[0])), vec![vec![9, 11], vec![10, 11]]);
}

#[test]
fn permutation_matrix_shifts_by_one() {
    let p = ParityCheckMatrix::permu_matrix(3);
    assert_eq!(checks_of(&p), vec![vec![2], vec![0], vec![1]]);
    assert_eq!(p.get_rank(), 3);
}

#[test]
fn circulant_matrices() {
    let right = ParityCheckMatrix::circulant_right(&vec![0, 1], 3);
    assert_eq!(checks_of(&right), vec![vec![0, 1], vec![1, 2], vec![0, 2]]);
    let down = ParityCheckMatrix::circulant_down(&vec![0, 1], 3);
    assert_eq!(checks_of(&down), vec![vec![0, 2], vec![0, 1], vec![1, 2]]);
    assert_eq!(right.get_rank(), 2);
}

#[test]
fn generalized_bicycle() {
    let a = ParityCheckMatrix::circulant_right(&vec![0, 1], 3);
    let b = ParityCheckMatrix::identity_with_n_bits(3);
    let g = a.gbc(&b);
    assert_eq!(g.get_n_bits(), 12);
    assert_eq!(g.get_n_checks(), 6);
    assert_eq!(checks_of(&g)[0], vec![0, 1, 3]);
    assert_eq!(checks_of(&g)[3], vec![6, 9, 11]);
}

#[test]
fn circulant_right_accepts_offsets_beyond_the_period() {
    let m = ParityCheckMatrix::circulant_right(&vec![4, 1], 3);
    assert_eq!(checks_of(&m), vec![vec![1], vec![2], vec![0]]);
    let m = ParityCheckMatrix::circulant_right(&vec![7, 0], 3);
    assert_eq!(checks_of(&m), vec![vec![0, 1], vec![1, 2], vec![0, 2]]);
}

#[test]
fn sparse_checks_over_many_bits() {
    let n = 1usize << 40;
    let m = ParityCheckMatrix::with_n_bits(n).with_checks(vec![vec![n - 1, 3], vec![5]]);
    assert_eq!(checks_of(&m), vec![vec![3, n - 1], vec![5]]);
}
