use flare::period::{find_best_freq, get_best_freq, get_best_freqs};
use flare::rank::{best_index, top_indices};

fn bits(xs: &[f64]) -> Vec<u64> {
    xs.iter().map(|x| x.to_bits()).collect()
}

fn best(freqs: &[f64], result: &[f64]) -> (f64, f64) {
    let (f, s) = get_best_freq(&bits(freqs), &bits(result));
    (f64::from_bits(f), f64::from_bits(s))
}

fn top(freqs: &[f64], result: &[f64], n: usize) -> Vec<(f64, f64)> {
    get_best_freqs(&bits(freqs), &bits(result), n)
        .into_iter()
        .map(|(f, s)| (f64::from_bits(f), f64::from_bits(s)))
        .collect()
}

#[test]
fn best_index_of_nothing_is_zero() {
    assert_eq!(best_index(&[]), 0);
    assert_eq!(best_index(&[None, None, None]), 0);
}

#[test]
fn best_index_takes_the_first_of_equal_maxima() {
    assert_eq!(best_index(&[None, Some(3), Some(7), Some(7)]), 2);
    assert_eq!(best_index(&[Some(-5), None, Some(-9)]), 0);
    assert_eq!(best_index(&[None, Some(i64::MIN)]), 1);
    assert_eq!(best_index(&[Some(1), Some(2), Some(i64::MAX), Some(2)]), 2);
}

#[test]
fn top_indices_rank_largest_first_and_keep_ties_in_order() {
    let stats = [Some(2), None, Some(9), Some(2), Some(-1), Some(9)];
    assert_eq!(top_indices(&stats, 10), vec![2, 5, 0, 3, 4]);
    assert_eq!(top_indices(&stats, 5), vec![2, 5, 0, 3, 4]);
    assert_eq!(top_indices(&stats, 3), vec![2, 5, 0]);
    assert_eq!(top_indices(&stats, 1), vec![2]);
    assert_eq!(top_indices(&stats, 0), Vec::<usize>::new());
}

#[test]
fn top_indices_of_nothing_valid_is_empty() {
    assert_eq!(top_indices(&[None, None], 4), Vec::<usize>::new());
    assert_eq!(top_indices(&[], 4), Vec::<usize>::new());
}

#[test]
fn best_is_the_global_maximum() {
    let freqs = [0.1, 0.2, 0.3, 0.4, 0.5];
    let result = [1.5, 9.25, -3.0, 9.0, 0.0];
    assert_eq!(best(&freqs, &result), (0.2, 9.25));
}

#[test]
fn best_passes_over_what_is_no_number() {
    let freqs = [0.1, 0.2, 0.3];
    let result = [f64::NAN, 2.0, f64::NAN];
    assert_eq!(best(&freqs, &result), (0.2, 2.0));
    let result = [f64::NAN, -4.0, -2.0];
    assert_eq!(best(&freqs, &result), (0.3, -2.0));
}

#[test]
fn best_of_equal_statistics_is_the_first() {
    let freqs = [0.1, 0.2, 0.3, 0.4];
    let result = [1.0, 5.0, 5.0, 5.0];
    assert_eq!(best(&freqs, &result), (0.2, 5.0));
}

#[test]
fn best_treats_the_two_zeros_as_equal() {
    let freqs = [1.0, 2.0];
    let (f, s) = best(&freqs, &[-0.0, 0.0]);
    assert_eq!(f, 1.0);
    assert!(s == 0.0 && s.is_sign_negative());
    let (f, s) = best(&freqs, &[0.0, -0.0]);
    assert_eq!(f, 1.0);
    assert!(s == 0.0 && s.is_sign_positive());
}

#[test]
fn best_takes_infinity_as_a_number() {
    let freqs = [1.0, 2.0, 3.0];
    assert_eq!(best(&freqs, &[1.0, f64::INFINITY, f64::NAN]), (2.0, f64::INFINITY));
    assert_eq!(best(&freqs, &[f64::NEG_INFINITY, f64::NAN, f64::NAN]), (1.0, f64::NEG_INFINITY));
}

#[test]
fn best_falls_back_to_the_first_pair() {
    let freqs = [0.7, 0.8, 0.9];
    let result = [f64::NAN, f64::NAN, f64::NAN];
    let (f, s) = best(&freqs, &result);
    assert_eq!(f, 0.7);
    assert!(s.is_nan());
}

#[test]
fn top_of_nothing_valid_is_empty() {
    let freqs = [0.7, 0.8, 0.9];
    let result = [f64::NAN, f64::NAN, f64::NAN];
    assert_eq!(top(&freqs, &result, 2), vec![]);
    assert_eq!(top(&[], &[], 2), vec![]);
}

#[test]
fn top_is_sorted_descending() {
    let freqs = [0.1, 0.2, 0.3, 0.4, 0.5];
    let result = [1.5, 9.25, f64::NAN, 9.0, -0.5];
    assert_eq!(top(&freqs, &result, 3), vec![(0.2, 9.25), (0.4, 9.0), (0.1, 1.5)]);
    assert_eq!(
        top(&freqs, &result, 4),
        vec![(0.2, 9.25), (0.4, 9.0), (0.1, 1.5), (0.5, -0.5)]
    );
}

#[test]
fn top_returns_fewer_where_fewer_are_numbers() {
    let freqs = [0.1, 0.2, 0.3];
    let result = [f64::NAN, 4.0, 6.0];
    assert_eq!(top(&freqs, &result, 10), vec![(0.3, 6.0), (0.2, 4.0)]);
    assert_eq!(top(&freqs, &result, 0), vec![]);
}

#[test]
fn top_keeps_equal_statistics_in_input_order() {
    let freqs = [0.1, 0.2, 0.3, 0.4];
    let result = [3.0, 8.0, 3.0, 8.0];
    assert_eq!(
        top(&freqs, &result, 4),
        vec![(0.2, 8.0), (0.4, 8.0), (0.1, 3.0), (0.3, 3.0)]
    );
}

#[test]
fn top_begins_with_best() {
    let freqs = [0.1, 0.2, 0.3, 0.4, 0.5, 0.6];
    let result = [2.0, f64::NAN, 7.5, 7.5, -1.0, 0.0];
    let first = top(&freqs, &result, 1);
    assert_eq!(first.len(), 1);
    assert_eq!(first[0], best(&freqs, &result));
    assert_eq!(top(&freqs, &result, 6)[0], best(&freqs, &result));
}

#[test]
fn selection_hands_patterns_back_unchanged() {
    let freqs: [u64; 3] = [11, 22, 33];
    let result: [u64; 3] = [0x7ff8_0000_0000_dead, 0x4000_0000_0000_0000, 0x3ff0_0000_0000_0000];
    assert_eq!(get_best_freq(&freqs, &result), (22, 0x4000_0000_0000_0000));
    assert_eq!(
        get_best_freqs(&freqs, &result, 5),
        vec![(22, 0x4000_0000_0000_0000), (33, 0x3ff0_0000_0000_0000)]
    );
}

#[test]
fn nothing_is_found_in_empty_sequences() {
    assert_eq!(find_best_freq(&[], &[]), None);
}

#[test]
fn nothing_is_found_in_sequences_of_unequal_length() {
    assert_eq!(find_best_freq(&bits(&[1.0, 2.0]), &bits(&[5.0])), None);
    assert_eq!(find_best_freq(&bits(&[1.0]), &bits(&[5.0, 6.0])), None);
    assert_eq!(find_best_freq(&bits(&[1.0]), &[]), None);
    assert_eq!(find_best_freq(&[], &bits(&[5.0])), None);
}

#[test]
fn what_is_found_is_the_best_pair() {
    let freqs = bits(&[0.1, 0.2, 0.3]);
    let result = bits(&[4.0, f64::NAN, 6.5]);
    assert_eq!(find_best_freq(&freqs, &result), Some((0.3f64.to_bits(), 6.5f64.to_bits())));
    assert_eq!(find_best_freq(&freqs, &result), Some(get_best_freq(&freqs, &result)));
    let nothing = bits(&[f64::NAN, f64::NAN, f64::NAN]);
    assert_eq!(find_best_freq(&freqs, &nothing), Some((0.1f64.to_bits(), nothing[0])));
}
