use probability_calculator::config::{ExplosionMode, RollConfig};
use probability_calculator::dice::{
    apply_emphasis, die_from_faces, keep_highest_total, roll_d10_with_explosion, should_explode,
    simulate_roll_xky, simulate_roll_xky_with_rng, simulate_single_roll, DieResult,
    MAX_DIE_VALUE,
};
use rand::rngs::StdRng;
use rand::SeedableRng;

#[test]
fn test_unskilled_no_explosion() {
    let mut rng = StdRng::seed_from_u64(42);

    // Roll many times with unskilled mode
    for _ in 0..1000 {
        let result = roll_d10_with_explosion(ExplosionMode::Unskilled, &mut rng).unwrap();
        // Unskilled should never explode
        assert!(!result.exploded);
        // Value should be 1-10
        assert!(result.value >= 1 && result.value <= 10);
    }
}

#[test]
fn test_skilled_explosion_on_10() {
    let mut rng = StdRng::seed_from_u64(42);
    let mut found_explosion = false;

    for _ in 0..1000 {
        let result = roll_d10_with_explosion(ExplosionMode::Skilled, &mut rng).unwrap();
        if result.exploded {
            found_explosion = true;
            // Exploded dice should have value > 10
            assert!(result.value > 10);
        }
    }

    // Should find at least some explosions in 1000 rolls
    assert!(found_explosion);
}

#[test]
fn test_mastery_explosion_on_9_and_10() {
    let mut rng = StdRng::seed_from_u64(42);
    let mut found_explosion = false;

    for _ in 0..1000 {
        let result = roll_d10_with_explosion(ExplosionMode::Mastery, &mut rng).unwrap();
        if result.exploded {
            found_explosion = true;
            // Exploded dice should have value > 8 (at least 9)
            assert!(result.value > 8);
        }
    }

    // Should find many explosions in 1000 rolls (20% chance per die)
    assert!(found_explosion);
}

#[test]
fn test_emphasis_rerolls_ones() {
    let mut rng = StdRng::seed_from_u64(42);

    // Create dice with a non-exploded 1
    let mut dice = vec![
        DieResult::new(1, false),  // Should be rerolled
        DieResult::new(5, false),  // Should not be rerolled
        DieResult::new(10, true),  // Should not be rerolled (exploded)
    ];

    let value_before = dice[0].value;
    apply_emphasis(&mut dice, ExplosionMode::Skilled, &mut rng).unwrap();

    // First die should have been rerolled (value changed)
    // Note: There's a small chance it rolls 1 again, but very unlikely
    assert_ne!(dice[0].value, value_before);

    // Second die should be unchanged
    assert_eq!(dice[1].value, 5);

    // Third die should be unchanged (was exploded)
    assert_eq!(dice[2].value, 10);
}

#[test]
fn test_simulate_roll_histogram() {
    let config = RollConfig::new(3, 2, ExplosionMode::Skilled, false);
    let histogram = simulate_roll_xky(&config).unwrap();

    // Should have entries
    assert!(!histogram.is_empty());

    // Total count should equal simulation rounds
    let total_count: usize = histogram.values().sum();
    assert_eq!(total_count, config.simulation_rounds());

    // All results should be >= 2 (minimum 2 dice showing 1)
    for &total in histogram.keys() {
        assert!(total >= 2);
    }
}

#[test]
fn test_simulate_roll_basic_sanity() {
    let config = RollConfig::new(5, 3, ExplosionMode::Skilled, false);
    let histogram = simulate_roll_xky(&config).unwrap();

    // Minimum possible: three 1s = 3
    let min_value = *histogram.keys().min().unwrap();
    assert!(min_value >= 3);

    // Should have reasonable distribution
    assert!(histogram.len() > 10); // More than 10 unique outcomes
}

#[test]
fn should_explode_follows_the_mode() {
    for face in 1..=10 {
        assert!(!should_explode(face, ExplosionMode::Unskilled));
        assert_eq!(should_explode(face, ExplosionMode::Skilled), face == 10);
        assert_eq!(should_explode(face, ExplosionMode::Mastery), face >= 9);
    }
}

#[test]
fn no_face_below_nine_explodes() {
    let modes = [
        ExplosionMode::Unskilled,
        ExplosionMode::Skilled,
        ExplosionMode::Mastery,
    ];
    for mode in modes {
        for face in 1..9 {
            assert!(!should_explode(face, mode));
        }
    }
    assert!(!should_explode(9, ExplosionMode::Skilled));
}

#[test]
fn die_result_new_keeps_its_arguments() {
    let die = DieResult::new(17, true);
    assert_eq!(die.value, 17);
    assert!(die.exploded);
    assert_eq!(die, DieResult { value: 17, exploded: true });
}

#[test]
fn a_die_that_did_not_explode_shows_a_quiet_face() {
    let mut rng = StdRng::seed_from_u64(7);
    for _ in 0..2000 {
        let die = roll_d10_with_explosion(ExplosionMode::Skilled, &mut rng).unwrap();
        assert!(die.value >= 1 && die.value <= MAX_DIE_VALUE);
        if !die.exploded {
            assert!(die.value <= 9);
        } else {
            assert!(die.value % 10 != 0);
        }
    }
    for _ in 0..2000 {
        let die = roll_d10_with_explosion(ExplosionMode::Mastery, &mut rng).unwrap();
        if !die.exploded {
            assert!(die.value <= 8);
        } else {
            assert!(die.value >= 10);
        }
    }
}

#[test]
fn mastery_explodes_about_one_time_in_five() {
    let mut rng = StdRng::seed_from_u64(42);
    let mut explosions = 0;
    for _ in 0..1000 {
        if roll_d10_with_explosion(ExplosionMode::Mastery, &mut rng)
            .unwrap()
            .exploded
        {
            explosions += 1;
        }
    }
    assert!(explosions > 140 && explosions < 260);
}

#[test]
fn the_same_seed_gives_the_same_dice() {
    let mut first = StdRng::seed_from_u64(2024);
    let mut second = StdRng::seed_from_u64(2024);
    for _ in 0..200 {
        assert_eq!(
            roll_d10_with_explosion(ExplosionMode::Mastery, &mut first),
            roll_d10_with_explosion(ExplosionMode::Mastery, &mut second)
        );
    }
}

#[test]
fn emphasis_leaves_other_dice_alone() {
    let mut rng = StdRng::seed_from_u64(3);
    let before = vec![
        DieResult::new(2, false),
        DieResult::new(1, true),
        DieResult::new(10, false),
        DieResult::new(23, true),
    ];
    let mut dice = before.clone();
    apply_emphasis(&mut dice, ExplosionMode::Mastery, &mut rng).unwrap();
    assert_eq!(dice, before);
}

#[test]
fn emphasis_rolls_each_one_again() {
    let mut rng = StdRng::seed_from_u64(11);
    let mut dice = vec![DieResult::new(1, false); 200];
    apply_emphasis(&mut dice, ExplosionMode::Unskilled, &mut rng).unwrap();
    assert_eq!(dice.len(), 200);
    // A die that is rolled again may show a 1 again, but not all of them do.
    let ones = dice.iter().filter(|d| d.value == 1).count();
    assert!(ones < 60);
    for die in dice {
        assert!(!die.exploded);
        assert!(die.value >= 1 && die.value <= 10);
    }
}

#[test]
fn emphasis_on_an_empty_pool() {
    let mut rng = StdRng::seed_from_u64(1);
    let mut dice: Vec<DieResult> = Vec::new();
    assert_eq!(apply_emphasis(&mut dice, ExplosionMode::Skilled, &mut rng), Ok(()));
    assert!(dice.is_empty());
}

#[test]
fn keep_highest_adds_up_the_highest() {
    let dice = vec![
        DieResult::new(3, false),
        DieResult::new(9, false),
        DieResult::new(1, false),
        DieResult::new(17, true),
        DieResult::new(9, false),
    ];
    assert_eq!(keep_highest_total(&dice, 0), 0);
    assert_eq!(keep_highest_total(&dice, 1), 17);
    assert_eq!(keep_highest_total(&dice, 2), 26);
    assert_eq!(keep_highest_total(&dice, 3), 35);
    assert_eq!(keep_highest_total(&dice, 4), 38);
    assert_eq!(keep_highest_total(&dice, 5), 39);
}

#[test]
fn keep_highest_does_not_depend_on_the_order() {
    let up = vec![
        DieResult::new(2, false),
        DieResult::new(4, false),
        DieResult::new(6, false),
    ];
    let down = vec![
        DieResult::new(6, false),
        DieResult::new(4, false),
        DieResult::new(2, false),
    ];
    for keep in 0..=3 {
        assert_eq!(keep_highest_total(&up, keep), keep_highest_total(&down, keep));
    }
    assert_eq!(keep_highest_total(&up, 2), 10);
}

#[test]
fn a_trial_is_worth_at_least_the_dice_kept() {
    let mut rng = StdRng::seed_from_u64(99);
    let config = RollConfig::new(3, 2, ExplosionMode::Skilled, false);
    for _ in 0..5000 {
        let total = simulate_single_roll(&config, &mut rng).unwrap();
        assert!(total >= 2);
    }
    let config = RollConfig::new(10, 10, ExplosionMode::Unskilled, true);
    for _ in 0..2000 {
        let total = simulate_single_roll(&config, &mut rng).unwrap();
        assert!(total >= 10 && total <= 100);
    }
    let config = RollConfig::new(1, 1, ExplosionMode::Unskilled, false);
    for _ in 0..200 {
        let total = simulate_single_roll(&config, &mut rng).unwrap();
        assert!(total >= 1 && total <= 10);
    }
}

#[test]
fn a_simulation_holds_every_trial() {
    let mut rng = StdRng::seed_from_u64(5);
    let config = RollConfig::new(3, 2, ExplosionMode::Skilled, false);
    let histogram = simulate_roll_xky_with_rng(&config, &mut rng).unwrap();
    let total_count: usize = histogram.values().sum();
    assert_eq!(total_count, 300_000);
    for (&total, &count) in histogram.iter() {
        assert!(total >= 2);
        assert!(count >= 1);
    }
}

#[test]
fn a_seeded_simulation_can_be_repeated() {
    let config = RollConfig::new(2, 1, ExplosionMode::Unskilled, true);
    let mut first = StdRng::seed_from_u64(77);
    let mut second = StdRng::seed_from_u64(77);
    let one = simulate_roll_xky_with_rng(&config, &mut first).unwrap();
    let other = simulate_roll_xky_with_rng(&config, &mut second).unwrap();
    assert_eq!(one, other);
    let total_count: usize = one.values().sum();
    assert_eq!(total_count, 200_000);
    for &total in one.keys() {
        assert!(total >= 1 && total <= 10);
    }
}

#[test]
fn faces_add_up_to_a_die() {
    assert_eq!(die_from_faces(ExplosionMode::Unskilled, &[7]), Some(DieResult::new(7, false)));
    assert_eq!(die_from_faces(ExplosionMode::Unskilled, &[10]), Some(DieResult::new(10, false)));
    assert_eq!(die_from_faces(ExplosionMode::Skilled, &[9]), Some(DieResult::new(9, false)));
    assert_eq!(die_from_faces(ExplosionMode::Skilled, &[10, 3]), Some(DieResult::new(13, true)));
    assert_eq!(
        die_from_faces(ExplosionMode::Skilled, &[10, 10, 10, 1]),
        Some(DieResult::new(31, true))
    );
    assert_eq!(die_from_faces(ExplosionMode::Mastery, &[9, 1]), Some(DieResult::new(10, true)));
    assert_eq!(
        die_from_faces(ExplosionMode::Mastery, &[9, 10, 9, 8]),
        Some(DieResult::new(36, true))
    );
}

#[test]
fn faces_that_are_no_chain_give_no_die() {
    // No face at all.
    assert_eq!(die_from_faces(ExplosionMode::Skilled, &[]), None);
    // A last face that explodes again.
    assert_eq!(die_from_faces(ExplosionMode::Skilled, &[10]), None);
    assert_eq!(die_from_faces(ExplosionMode::Mastery, &[9]), None);
    assert_eq!(die_from_faces(ExplosionMode::Mastery, &[10, 9]), None);
    // A face after one that does not explode.
    assert_eq!(die_from_faces(ExplosionMode::Unskilled, &[10, 3]), None);
    assert_eq!(die_from_faces(ExplosionMode::Skilled, &[9, 3]), None);
    assert_eq!(die_from_faces(ExplosionMode::Mastery, &[8, 1]), None);
    // Faces that the die does not have.
    assert_eq!(die_from_faces(ExplosionMode::Skilled, &[0]), None);
    assert_eq!(die_from_faces(ExplosionMode::Skilled, &[11]), None);
    assert_eq!(die_from_faces(ExplosionMode::Skilled, &[10, -2]), None);
}

#[test]
fn the_longest_chain_is_ten_thousand_and_one_faces() {
    let mut faces = vec![10; 10_000];
    faces.push(4);
    assert_eq!(
        die_from_faces(ExplosionMode::Skilled, &faces),
        Some(DieResult::new(100_004, true))
    );
    let mut faces = vec![10; 10_001];
    faces.push(4);
    assert_eq!(die_from_faces(ExplosionMode::Skilled, &faces), None);
    let mut faces = vec![10; 10_000];
    faces.push(9);
    assert_eq!(
        die_from_faces(ExplosionMode::Skilled, &faces).map(|die| die.value),
        Some(MAX_DIE_VALUE - 1)
    );
}
