use mdp_solver::utils::fixed::{floor_div, gap, multiply, saturate, ONE, ONE_CUBED, ONE_SQUARED};
use mdp_solver::utils::stats::{pick, sample_from_hashmap_dist, HashMapDistribution};
use rand::rngs::StdRng;
use rand::SeedableRng;

#[test]
fn fixed_point_constants() {
    assert_eq!(ONE, 1_000_000);
    assert_eq!(ONE_SQUARED, (ONE as i128) * (ONE as i128));
    assert_eq!(ONE_CUBED, ONE_SQUARED * (ONE as i128));
}

#[test]
fn fixed_point_product_rounds_down() {
    assert_eq!(multiply(ONE / 2, ONE / 2), ONE / 4);
    assert_eq!(multiply(3, 333_333), 0);
    assert_eq!(multiply(-3, 333_333), -1);
    assert_eq!(multiply(-ONE, -ONE), ONE);
    assert_eq!(multiply(i64::MAX, i64::MAX), i64::MAX);
    assert_eq!(multiply(i64::MIN, i64::MAX), i64::MIN);
}

#[test]
fn floor_division_and_saturation() {
    assert_eq!(floor_div(7, 2), 3);
    assert_eq!(floor_div(-7, 2), -4);
    assert_eq!(floor_div(-8, 2), -4);
    assert_eq!(floor_div(i128::MIN, 1), i128::MIN);
    assert_eq!(saturate(i64::MAX as i128 + 1), i64::MAX);
    assert_eq!(saturate(i64::MIN as i128 - 1), i64::MIN);
    assert_eq!(saturate(-5), -5);
    assert_eq!(gap(i64::MIN, i64::MAX), u64::MAX as i128);
    assert_eq!(gap(3, -4), 7);
}

#[test]
fn pick_returns_the_first_item_whose_cumulative_weight_exceeds_the_cutoff() {
    let distribution = vec![('a', 300_000), ('b', 700_000)];
    assert_eq!(pick(&distribution, 0), 0);
    assert_eq!(pick(&distribution, 299_999), 0);
    assert_eq!(pick(&distribution, 300_000), 1);
    assert_eq!(pick(&distribution, ONE - 1), 1);
}

#[test]
fn pick_falls_back_to_the_last_item() {
    let distribution = vec![('a', 100), ('b', 0), ('c', 0)];
    assert_eq!(pick(&distribution, 99), 0);
    assert_eq!(pick(&distribution, 100), 2);
    assert_eq!(pick(&vec![('a', 0)], 0), 0);
}

#[test]
fn pick_does_not_overflow() {
    let distribution = vec![('a', i64::MAX), ('b', i64::MAX), ('c', i64::MIN)];
    assert_eq!(pick(&distribution, i64::MAX), 1);
    assert_eq!(pick(&vec![('a', i64::MIN), ('b', i64::MIN)], i64::MIN), 1);
}

#[test]
fn pick_never_takes_an_item_of_probability_zero() {
    let distribution = vec![('a', 0), ('b', ONE)];
    for cutoff in [0, 1, ONE / 2, ONE - 1] {
        assert_eq!(pick(&distribution, cutoff), 1);
    }
    let middle = vec![('a', ONE / 2), ('b', 0), ('c', ONE / 2)];
    for cutoff in 0..ONE {
        if cutoff % 1_013 == 0 || cutoff == ONE / 2 - 1 || cutoff == ONE / 2 {
            assert_ne!(pick(&middle, cutoff), 1);
        }
    }
}

#[test]
fn sampling_never_returns_an_item_of_probability_zero() {
    let mut rng = StdRng::seed_from_u64(17);
    let distribution = HashMapDistribution { map: vec![('a', 0), ('b', ONE)] };
    for _ in 0..1_000 {
        assert_eq!(sample_from_hashmap_dist(&distribution.map, &mut rng), 'b');
    }
}

#[test]
fn sampling_follows_the_probabilities() {
    let mut rng = StdRng::seed_from_u64(23);
    let distribution = vec![('a', 250_000), ('b', 750_000)];
    let mut seen = 0;
    for _ in 0..4_000 {
        if sample_from_hashmap_dist(&distribution, &mut rng) == 'a' {
            seen += 1;
        }
    }
    assert!((800..1_200).contains(&seen));
}
