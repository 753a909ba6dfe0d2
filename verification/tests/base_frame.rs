use kyria_oled::compute_size_from_base;
use kyria_oled::find_suboptimal_base_frame;
use kyria_oled::generate_base_frame;
use kyria_oled::generate_from_base;
use kyria_oled::SelectError;

#[test]
fn majority_vote_picks_most_frequent_value() {
    let frames = vec![vec![1u8, 2], vec![1u8, 3], vec![0u8, 3]];
    assert_eq!(find_suboptimal_base_frame(&frames).unwrap(), vec![1, 3]);
}

#[test]
fn majority_vote_breaks_ties_towards_smaller_value() {
    let frames = vec![vec![2u8], vec![1u8]];
    assert_eq!(find_suboptimal_base_frame(&frames).unwrap(), vec![1]);
}

#[test]
fn majority_vote_is_deterministic() {
    let frames = vec![vec![9u8, 4, 200], vec![7u8, 4, 100], vec![9u8, 5, 100], vec![7u8, 5, 200]];
    let first = find_suboptimal_base_frame(&frames).unwrap();
    let second = find_suboptimal_base_frame(&frames).unwrap();
    assert_eq!(first, second);
}

#[test]
fn selectors_reject_empty_corpus() {
    let frames: Vec<Vec<u8>> = Vec::new();
    assert_eq!(
        find_suboptimal_base_frame(&frames).unwrap_err(),
        SelectError::EmptyCorpus
    );
    assert_eq!(generate_base_frame(&frames).unwrap_err(), SelectError::EmptyCorpus);
}

#[test]
fn selectors_reject_unequal_lengths() {
    let frames = vec![vec![1u8], vec![2u8, 3]];
    assert_eq!(
        find_suboptimal_base_frame(&frames).unwrap_err(),
        SelectError::LengthMismatch
    );
    assert_eq!(generate_base_frame(&frames).unwrap_err(), SelectError::LengthMismatch);
}

#[test]
fn compute_size_sums_compressed_diff_lengths() {
    let frames = vec![vec![0u8, 0], vec![0u8, 1]];
    let base = vec![0u8, 0];
    let expected = generate_from_base(&base, &frames[0]).len()
        + generate_from_base(&base, &frames[1]).len();
    assert_eq!(compute_size_from_base(&base, &frames), expected);
}

#[test]
fn optimal_base_is_a_corpus_member_with_smallest_total() {
    // two copies of `a` make it the cheaper base even though `b` comes first
    let b = vec![0u8, 1, 2, 3, 4, 5, 6, 7];
    let a = vec![9u8, 9, 9, 9, 9, 9, 9, 9];
    let frames = vec![b.clone(), a.clone(), a.clone()];
    let chosen = generate_base_frame(&frames).unwrap();
    assert_eq!(chosen, a);
    assert!(
        compute_size_from_base(&chosen, &frames) <= compute_size_from_base(&frames[0], &frames)
    );
}

#[test]
fn optimal_base_breaks_ties_by_corpus_order() {
    let a = vec![1u8, 2];
    let b = vec![3u8, 4];
    let frames = vec![a.clone(), b.clone()];
    // both candidates give the same total; the earlier member wins
    assert_eq!(
        compute_size_from_base(&a, &frames),
        compute_size_from_base(&b, &frames)
    );
    assert_eq!(generate_base_frame(&frames).unwrap(), a);
}
