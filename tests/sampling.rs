use utg::sampling::{pick_by_weight, random_by_weight, sum_weights, TileRng};

#[test]
fn pick_by_weight_slots() {
    let w = vec![3usize, 0, 2];
    assert_eq!(pick_by_weight(&w, 0), Some(0));
    assert_eq!(pick_by_weight(&w, 2), Some(0));
    assert_eq!(pick_by_weight(&w, 3), Some(2));
    assert_eq!(pick_by_weight(&w, 4), Some(2));
    assert_eq!(pick_by_weight(&w, 5), None);
    assert_eq!(pick_by_weight(&vec![], 0), None);
    assert_eq!(sum_weights(&w), Some(5));
    assert_eq!(sum_weights(&vec![usize::MAX, 1]), None);
}

#[test]
fn weighted_sampling_follows_weights() {
    let mut rng = TileRng::seeded(7);
    let w = vec![3usize, 1];
    let trials = 20000;
    let mut first = 0;
    for _ in 0..trials {
        match random_by_weight(&w, &mut rng) {
            Some(0) => first += 1,
            Some(1) => {}
            other => panic!("unexpected draw {:?}", other),
        }
    }
    let share = first as f64 / trials as f64;
    assert!((share - 0.75).abs() < 0.02, "share of first id was {share}");
}

#[test]
fn zero_weight_is_never_drawn() {
    let mut rng = TileRng::seeded(1);
    let w = vec![0usize, 5, 0];
    for _ in 0..200 {
        assert_eq!(random_by_weight(&w, &mut rng), Some(1));
    }
    assert_eq!(random_by_weight(&vec![0usize, 0], &mut rng), None);
    assert_eq!(random_by_weight(&vec![], &mut rng), None);
}

#[test]
fn draws_stay_below_bound() {
    let mut rng = TileRng::seeded(3);
    let mut seen = [false; 4];
    for _ in 0..400 {
        let r = rng.below(4);
        assert!(r < 4);
        seen[r] = true;
    }
    assert!(seen.iter().all(|s| *s));
}
