use flare::grid::{is_below, min_cadence, time_span};
use flare::rank::lowest_index;

fn bits(xs: &[f64]) -> Vec<u64> {
    xs.iter().map(|x| x.to_bits()).collect()
}

fn below(a: f64, b: f64) -> bool {
    is_below(a.to_bits(), b.to_bits())
}

// A grid built on the numbers themselves, with the library deciding the
// ends of the baseline, the minimum cadence and where the grid stops.
fn grid(t: &[f64], fmin: Option<f64>, fmax: Option<f64>, oversample: usize) -> (Vec<f64>, f64) {
    let trange = match time_span(&bits(t)) {
        Some((latest, earliest)) => t[latest] - t[earliest],
        None => f64::NAN,
    };
    let steps: Vec<f64> = t.windows(2).map(|w| w[1] - w[0]).collect();
    let texp = match min_cadence(&bits(&steps)) {
        Some(at) => steps[at],
        None => f64::NAN,
    };
    let fres = 1.0 / trange / oversample as f64;
    let fmax = fmax.unwrap_or(0.5 / texp);
    let fmin = fmin.unwrap_or(fres);
    let mut out = Vec::new();
    let mut f = fmin;
    while below(f, fmax) {
        out.push(f);
        f += fres;
    }
    (out, fres)
}

#[test]
fn below_is_strict() {
    assert!(below(1.0, 2.0));
    assert!(!below(2.0, 2.0));
    assert!(!below(2.0, 1.0));
    assert!(below(-3.0, -2.5));
    assert!(below(-1.0e-300, 1.0e-300));
    assert!(below(1.0, f64::INFINITY));
    assert!(below(f64::NEG_INFINITY, f64::MIN));
}

#[test]
fn below_takes_the_zeros_as_equal() {
    assert!(!below(-0.0, 0.0));
    assert!(!below(0.0, -0.0));
    assert!(below(-0.0, 5.0e-324));
}

#[test]
fn nothing_is_below_or_above_what_is_no_number() {
    assert!(!below(f64::NAN, 1.0));
    assert!(!below(1.0, f64::NAN));
    assert!(!below(f64::NAN, f64::NAN));
}

#[test]
fn below_agrees_with_the_numbers() {
    let xs = [-7.5, -0.0, 0.0, 1.0e-320, 0.1, 0.30000000000000004, 0.3, 12.0, f64::MAX];
    for a in xs {
        for b in xs {
            assert_eq!(below(a, b), a < b);
        }
    }
}

#[test]
fn lowest_index_takes_the_first_of_equal_minima() {
    assert_eq!(lowest_index(&[Some(4), None, Some(-2), Some(-2), Some(9)]), 2);
    assert_eq!(lowest_index(&[None, None]), 0);
    assert_eq!(lowest_index(&[]), 0);
    assert_eq!(lowest_index(&[Some(i64::MAX), Some(i64::MIN)]), 1);
}

#[test]
fn time_span_finds_latest_and_earliest() {
    assert_eq!(time_span(&bits(&[0.0, 1.0, 2.0, 3.0])), Some((3, 0)));
    assert_eq!(time_span(&bits(&[5.0, -1.0, 9.5, 2.0])), Some((2, 1)));
    assert_eq!(time_span(&bits(&[4.0])), Some((0, 0)));
    assert_eq!(time_span(&bits(&[2.0, 2.0, 2.0])), Some((0, 0)));
}

#[test]
fn time_span_passes_over_what_is_no_number() {
    assert_eq!(time_span(&bits(&[f64::NAN, 3.0, f64::NAN, 1.0])), Some((1, 3)));
    assert_eq!(time_span(&bits(&[f64::NAN, f64::NAN])), None);
    assert_eq!(time_span(&[]), None);
}

#[test]
fn min_cadence_is_the_smallest_positive_difference() {
    assert_eq!(min_cadence(&bits(&[1.0, 0.5, 2.0])), Some(1));
    assert_eq!(min_cadence(&bits(&[0.0, 3.0, -1.0, 0.25, 0.25])), Some(3));
    assert_eq!(min_cadence(&bits(&[5.0e-324, 1.0])), Some(0));
    assert_eq!(min_cadence(&bits(&[f64::INFINITY])), Some(0));
}

#[test]
fn min_cadence_is_absent_without_a_positive_difference() {
    assert_eq!(min_cadence(&bits(&[0.0, -0.0, -2.0, f64::NAN])), None);
    assert_eq!(min_cadence(&[]), None);
}

#[test]
fn grid_from_defaults() {
    // Baseline 4, minimum cadence 0.5: resolution 0.25, bound 1.
    let t = [0.0, 1.0, 1.5, 3.0, 4.0];
    let (g, fres) = grid(&t, None, None, 1);
    assert_eq!(fres, 0.25);
    assert_eq!(g, vec![0.25, 0.5, 0.75]);
}

#[test]
fn grid_is_strictly_increasing_with_a_fixed_step() {
    let t = [0.0, 0.7, 1.9, 2.2, 6.0, 10.0];
    let (g, fres) = grid(&t, Some(0.013), Some(1.7), 3);
    assert!(g.len() > 2);
    for k in 1..g.len() {
        assert!(below(g[k - 1], g[k]));
        assert!((g[k] - g[k - 1] - fres).abs() <= 1.0e-12);
    }
}

#[test]
fn grid_stays_within_its_bounds() {
    let t = [0.0, 0.7, 1.9, 2.2, 6.0, 10.0];
    let (g, fres) = grid(&t, Some(0.013), Some(1.7), 3);
    assert_eq!(g[0], 0.013);
    for f in g.iter() {
        assert!(*f >= 0.013);
        assert!(below(*f, 1.7));
    }
    assert!(g[g.len() - 1] + fres >= 1.7);
    let expected = ((1.7 - 0.013) / fres).ceil() as usize;
    assert!(g.len() + 1 >= expected && g.len() <= expected + 1);
}

#[test]
fn grid_is_empty_where_the_bounds_cross() {
    let t = [0.0, 1.0, 2.0];
    assert_eq!(grid(&t, Some(2.0), Some(1.0), 1).0, Vec::<f64>::new());
    assert_eq!(grid(&t, Some(1.0), Some(1.0), 1).0, Vec::<f64>::new());
}

#[test]
fn grid_without_a_baseline_is_empty() {
    // One point in time: no cadence, so the default bound is no number.
    let t = [3.0, 3.0, 3.0];
    assert_eq!(grid(&t, None, None, 1).0, Vec::<f64>::new());
}

#[test]
fn oversampling_by_three_makes_the_grid_three_times_as_dense() {
    let t = [0.0, 1.0, 2.0, 3.0, 4.0, 5.0, 6.0, 7.0, 8.0];
    let (coarse, step1) = grid(&t, Some(0.1), Some(0.5), 1);
    let (fine, step3) = grid(&t, Some(0.1), Some(0.5), 3);
    assert_eq!(step1, 0.125);
    assert!((step3 - step1 / 3.0).abs() <= 1.0e-15);
    assert_eq!(coarse, vec![0.1, 0.225, 0.35, 0.475]);
    assert_eq!(fine.len(), 10);
    assert_eq!(fine[0], coarse[0]);
    for k in 0..coarse.len() {
        assert!((fine[3 * k] - coarse[k]).abs() <= 1.0e-12);
    }
    assert!(below(fine[fine.len() - 1], 0.5));
}
