use flare::score::{score_of_bits, scores_of};

fn key(x: f64) -> Option<i64> {
    score_of_bits(x.to_bits())
}

#[test]
fn nan_has_no_key() {
    assert_eq!(key(f64::NAN), None);
    assert_eq!(key(-f64::NAN), None);
    assert_eq!(score_of_bits(0x7ff0_0000_0000_0001), None);
    assert_eq!(score_of_bits(0xffff_ffff_ffff_ffff), None);
}

#[test]
fn infinities_have_keys() {
    assert_eq!(key(f64::INFINITY), Some(0x7ff0_0000_0000_0000));
    assert_eq!(key(f64::NEG_INFINITY), Some(-0x7ff0_0000_0000_0000));
}

#[test]
fn both_zeros_have_key_zero() {
    assert_eq!(key(0.0), Some(0));
    assert_eq!(key(-0.0), Some(0));
}

#[test]
fn key_of_one() {
    assert_eq!(key(1.0), Some(0x3ff0_0000_0000_0000));
    assert_eq!(key(-1.0), Some(-0x3ff0_0000_0000_0000));
}

#[test]
fn keys_order_as_the_numbers_do() {
    let xs = [
        f64::NEG_INFINITY,
        -1.0e300,
        -2.5,
        -1.0,
        -1.0e-300,
        -5.0e-324,
        -0.0,
        0.0,
        5.0e-324,
        1.0e-300,
        0.5,
        1.0,
        1.0000000000000002,
        2.5,
        1.0e300,
        f64::MAX,
        f64::INFINITY,
    ];
    for a in xs.iter() {
        for b in xs.iter() {
            let ka = key(*a).unwrap();
            let kb = key(*b).unwrap();
            assert_eq!(a < b, ka < kb);
            assert_eq!(a == b, ka == kb);
            assert_eq!(a > b, ka > kb);
        }
    }
}

#[test]
fn negation_negates_the_key() {
    for x in [0.0, 0.25, 3.0, 1.0e-310, f64::MAX, f64::INFINITY] {
        assert_eq!(key(-x), Some(-key(x).unwrap()));
    }
}

#[test]
fn keys_of_a_sequence_keep_its_order() {
    let patterns: Vec<u64> = [2.0, f64::NAN, -2.0, 0.0].iter().map(|x: &f64| x.to_bits()).collect();
    let keys = scores_of(&patterns);
    assert_eq!(
        keys,
        vec![Some(0x4000_0000_0000_0000), None, Some(-0x4000_0000_0000_0000), Some(0)]
    );
    assert_eq!(scores_of(&[]), Vec::<Option<i64>>::new());
}
