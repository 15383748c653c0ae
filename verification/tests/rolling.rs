use dice::{Condition, Dice, DieRoll, Error, Modifier, Rolled};
use fastrand::Rng;

fn rolled_of<'a>(dice: &'a Dice, vals: &[u8]) -> Rolled<'a> {
    Rolled { rolls: vals.iter().map(|v| DieRoll::new(*v)).collect(), dice }
}

fn live_vals(rolled: &Rolled) -> Vec<u8> {
    rolled.rolls.iter().filter(|r| !r.is_dropped()).map(|r| r.val).collect()
}

#[test]
fn single_roll_draws_from_generator() {
    let dice = Dice::new(1, 6);
    let mut rng = Rng::with_seed(7);
    let mut reference = Rng::with_seed(7);
    for _ in 0..50 {
        let r = dice.roll_single_using_rng(&mut rng);
        assert_eq!(r.val, reference.u8(1..=6));
        assert!(r.is_original());
        assert!(!r.is_dropped());
    }
}

#[test]
fn single_rolls_cover_the_die() {
    let dice = Dice::new(1, 6);
    let mut rng = Rng::with_seed(42);
    let mut seen = [false; 7];
    for _ in 0..200 {
        let r = dice.roll_single_using_rng(&mut rng);
        assert!((1..=6).contains(&r.val));
        seen[r.val as usize] = true;
    }
    assert!(seen[1..].iter().all(|s| *s));
}

#[test]
fn zero_sided_die_shows_zero() {
    let dice = Dice::new(1, 0);
    let mut rng = Rng::with_seed(1);
    assert_eq!(dice.roll_single_using_rng(&mut rng).val, 0);
    assert_eq!(DieRoll::new_rand_using_rng(0, &mut rng).val, 0);
    // no value is drawn for a die without sides
    assert_eq!(rng, Rng::with_seed(1));
    assert_eq!(dice.roll_single().val, 0);
    assert_eq!(DieRoll::new_rand(0).val, 0);
}

#[test]
fn random_roll_draws_once() {
    let mut rng = Rng::with_seed(21);
    let mut reference = Rng::with_seed(21);
    let r = DieRoll::new_rand_using_rng(6, &mut rng);
    assert_eq!(r.val, reference.u8(1..=6));
    assert_eq!(rng, reference);
}

#[test]
fn random_rolls_stay_in_range() {
    for _ in 0..100 {
        let r = DieRoll::new_rand(8);
        assert!((1..=8).contains(&r.val));
        let d12 = Dice::new(1, 12);
        let s = d12.roll_single();
        assert!((1..=12).contains(&s.val));
    }
    assert_eq!(DieRoll::new_rand(1).val, 1);
}

#[test]
fn roll_plain_dice() {
    let dice = Dice::new(5, 10);
    let mut rng = Rng::with_seed(3);
    let rolled = dice.roll_using_rng(&mut rng).unwrap();
    assert_eq!(rolled.rolls.len(), 5);
    assert!(rolled.rolls.iter().all(|r| r.is_original() && !r.is_dropped() && (1..=10).contains(&r.val)));
    assert_eq!(rolled.dice, &dice);
    let sum: u16 = rolled.rolls.iter().map(|r| r.val as u16).sum();
    assert_eq!(rolled.total().unwrap(), sum);
    let again = dice.roll().unwrap();
    assert_eq!(again.rolls.len(), 5);
}

#[test]
fn roll_zero_dice() {
    let dice = Dice::new(0, 6);
    let rolled = dice.roll().unwrap();
    assert!(rolled.rolls.is_empty());
    assert_eq!(rolled.total().unwrap(), 0);
}

#[test]
fn roll_refuses_endless_modifiers() {
    let dice = Dice::builder().count(2).sides(6).keep_high(1).reroll(Condition::Gt(0), true).build();
    match dice.roll() {
        Err(Error::InfiniteRolls(d)) => assert_eq!(d, dice),
        other => panic!("unexpected {:?}", other),
    }
    let d1 = Dice::builder().count(1).sides(1).explode(None, true).build();
    assert!(matches!(d1.roll(), Err(Error::InfiniteRolls(_))));
    // the same modifiers without recursion are fine
    let d2 = Dice::builder().count(1).sides(1).explode(None, false).build();
    let rolled = d2.roll().unwrap();
    assert_eq!(rolled.rolls.len(), 2);
}

#[test]
fn refusal_cases_of_each_condition() {
    let mut rng = Rng::with_seed(5);
    let cases: Vec<(Condition, u8, bool)> = vec![
        (Condition::Eq(1), 1, true),
        (Condition::Eq(1), 2, false),
        (Condition::Eq(2), 1, false),
        (Condition::Gt(0), 6, true),
        (Condition::Gt(1), 6, false),
        (Condition::Gte(1), 6, true),
        (Condition::Gte(2), 6, false),
        (Condition::Lt(7), 6, true),
        (Condition::Lt(6), 6, false),
        (Condition::Lte(6), 6, true),
        (Condition::Lte(5), 6, false),
    ];
    for (cond, sides, refused) in cases {
        for m in [Modifier::Reroll(cond.clone(), true), Modifier::Explode(Some(cond.clone()), true)] {
            let dice = Dice::new(3, sides);
            let mut rolled = rolled_of(&dice, &[1, 1, 1]);
            let res = m.apply_using_rng(&mut rolled, &mut rng);
            assert_eq!(res.is_err(), refused, "{:?} on d{}", m, sides);
            if refused {
                assert_eq!(rolled.rolls.len(), 3);
            }
        }
        // without recursion nothing is refused
        let dice = Dice::new(3, sides);
        let mut rolled = rolled_of(&dice, &[sides, sides, sides]);
        assert!(Modifier::Reroll(cond.clone(), false).apply_using_rng(&mut rolled, &mut rng).is_ok());
    }
}

#[test]
fn reroll_once_replaces_matching_dice() {
    let dice = Dice::new(4, 6);
    let m = Modifier::Reroll(Condition::Lte(2), false);
    let mut rolled = rolled_of(&dice, &[1, 5, 2, 6]);
    let mut rng = Rng::with_seed(11);
    m.apply_using_rng(&mut rolled, &mut rng).unwrap();
    assert_eq!(rolled.rolls.len(), 6);
    let dropped: Vec<bool> = rolled.rolls.iter().map(|r| r.is_dropped()).collect();
    assert_eq!(dropped[..4], [true, false, true, false]);
    assert_eq!(rolled.rolls[0].dropped_by, Some(&m));
    for r in &rolled.rolls[4..] {
        assert_eq!(r.added_by, Some(&m));
        assert!((1..=6).contains(&r.val));
    }
    // values of the first dice are unchanged
    let vals: Vec<u8> = rolled.rolls[..4].iter().map(|r| r.val).collect();
    assert_eq!(vals, vec![1, 5, 2, 6]);
    // live count unchanged
    assert_eq!(live_vals(&rolled).len(), 4);
}

#[test]
fn recursive_reroll_leaves_no_match() {
    let dice = Dice::new(6, 6);
    let m = Modifier::Reroll(Condition::Lt(4), true);
    for seed in 0..20 {
        let mut rolled = rolled_of(&dice, &[1, 2, 3, 4, 5, 6]);
        let mut rng = Rng::with_seed(seed);
        m.apply_using_rng(&mut rolled, &mut rng).unwrap();
        assert!(live_vals(&rolled).iter().all(|v| *v >= 4));
        assert_eq!(live_vals(&rolled).len(), 6);
    }
}

#[test]
fn reroll_skips_dropped_dice() {
    let dice = Dice::new(2, 6);
    let keep = Modifier::KeepHigh(1);
    let m = Modifier::Reroll(Condition::Eq(1), false);
    let mut rolled = rolled_of(&dice, &[1, 6]);
    rolled.rolls[0].drop(&keep);
    let mut rng = Rng::with_seed(2);
    m.apply_using_rng(&mut rolled, &mut rng).unwrap();
    assert_eq!(rolled.rolls.len(), 2);
    assert_eq!(rolled.rolls[0].dropped_by, Some(&keep));
}

#[test]
fn explode_once_adds_dice() {
    let dice = Dice::new(4, 6);
    let m = Modifier::Explode(None, false);
    let mut rolled = rolled_of(&dice, &[6, 3, 6, 1]);
    let mut rng = Rng::with_seed(9);
    m.apply_using_rng(&mut rolled, &mut rng).unwrap();
    assert_eq!(rolled.rolls.len(), 6);
    assert!(rolled.rolls.iter().all(|r| !r.is_dropped()));
    for r in &rolled.rolls[4..] {
        assert_eq!(r.added_by, Some(&m));
    }
    let vals: Vec<u8> = rolled.rolls[..4].iter().map(|r| r.val).collect();
    assert_eq!(vals, vec![6, 3, 6, 1]);
}

#[test]
fn explode_with_condition_and_recursion() {
    let dice = Dice::new(3, 6);
    let cond = Condition::Gte(5);
    let m = Modifier::Explode(Some(cond.clone()), true);
    for seed in 0..20 {
        let mut rolled = rolled_of(&dice, &[5, 2, 6]);
        let mut rng = Rng::with_seed(seed);
        m.apply_using_rng(&mut rolled, &mut rng).unwrap();
        let added = &rolled.rolls[3..];
        let added_hits = added.iter().filter(|r| cond.check(r.val)).count();
        // one added die per exploding die, original or added
        assert_eq!(added.len(), 2 + added_hits);
        assert!(added.iter().all(|r| r.added_by == Some(&m) && !r.is_dropped()));
    }
}

#[test]
fn explode_nothing_to_explode() {
    let dice = Dice::new(2, 6);
    let m = Modifier::Explode(None, true);
    let mut rolled = rolled_of(&dice, &[1, 2]);
    let mut rng = Rng::with_seed(4);
    m.apply_using_rng(&mut rolled, &mut rng).unwrap();
    assert_eq!(rolled.rolls.len(), 2);
}

#[test]
fn keep_high_drops_the_lowest() {
    let dice = Dice::new(4, 6);
    let m = Modifier::KeepHigh(2);
    let mut rolled = rolled_of(&dice, &[3, 6, 1, 5]);
    m.apply(&mut rolled).unwrap();
    let dropped: Vec<bool> = rolled.rolls.iter().map(|r| r.is_dropped()).collect();
    assert_eq!(dropped, vec![true, false, true, false]);
    assert_eq!(rolled.total().unwrap(), 11);
}

#[test]
fn keep_low_drops_the_highest() {
    let dice = Dice::new(4, 6);
    let m = Modifier::KeepLow(3);
    let mut rolled = rolled_of(&dice, &[3, 6, 1, 5]);
    m.apply(&mut rolled).unwrap();
    let dropped: Vec<bool> = rolled.rolls.iter().map(|r| r.is_dropped()).collect();
    assert_eq!(dropped, vec![false, true, false, false]);
    assert_eq!(rolled.rolls[1].dropped_by, Some(&m));
}

#[test]
fn keep_ties_follow_sorting_order() {
    let dice = Dice::new(3, 6);
    let high = Modifier::KeepHigh(1);
    let mut rolled = rolled_of(&dice, &[3, 3, 3]);
    high.apply(&mut rolled).unwrap();
    let dropped: Vec<bool> = rolled.rolls.iter().map(|r| r.is_dropped()).collect();
    assert_eq!(dropped, vec![true, true, false]);

    let low = Modifier::KeepLow(1);
    let mut rolled = rolled_of(&dice, &[3, 3, 3]);
    low.apply(&mut rolled).unwrap();
    let dropped: Vec<bool> = rolled.rolls.iter().map(|r| r.is_dropped()).collect();
    assert_eq!(dropped, vec![false, true, true]);
}

#[test]
fn keep_more_than_there_are() {
    let dice = Dice::new(2, 6);
    let m = Modifier::KeepHigh(5);
    let mut rolled = rolled_of(&dice, &[2, 4]);
    m.apply(&mut rolled).unwrap();
    assert!(rolled.rolls.iter().all(|r| !r.is_dropped()));
    let z = Modifier::KeepLow(0);
    z.apply(&mut rolled).unwrap();
    assert!(rolled.rolls.iter().all(|r| r.is_dropped()));
    assert_eq!(rolled.total().unwrap(), 0);
}

#[test]
fn keep_ignores_dropped_dice() {
    let dice = Dice::new(4, 6);
    let first = Modifier::KeepLow(3);
    let second = Modifier::KeepHigh(2);
    let mut rolled = rolled_of(&dice, &[6, 5, 1, 4]);
    first.apply(&mut rolled).unwrap();
    assert_eq!(rolled.rolls[0].dropped_by, Some(&first));
    second.apply(&mut rolled).unwrap();
    assert_eq!(rolled.rolls[0].dropped_by, Some(&first));
    assert_eq!(rolled.rolls[2].dropped_by, Some(&second));
    assert_eq!(live_vals(&rolled), vec![5, 4]);
}

#[test]
fn total_sums_live_dice() {
    let dice = Dice::new(3, 6);
    let m = Modifier::KeepHigh(1);
    let mut rolled = rolled_of(&dice, &[2, 5, 4]);
    assert_eq!(rolled.total().unwrap(), 11);
    rolled.rolls[1].drop(&m);
    assert_eq!(rolled.total().unwrap(), 6);
}

#[test]
fn total_overflows() {
    let dice = Dice::new(255, 255);
    let rolled = rolled_of(&dice, &[255; 257]);
    assert_eq!(rolled.total().unwrap(), 65535);
    let rolled = rolled_of(&dice, &[255; 258]);
    assert!(matches!(rolled.total(), Err(Error::Overflow)));
}

#[test]
fn roll_with_modifiers_keeps_original_dice_first() {
    let dice = Dice::builder()
        .count(4)
        .sides(6)
        .reroll(Condition::Eq(1), true)
        .explode(None, false)
        .keep_high(3)
        .build();
    for seed in 0..30 {
        let mut rng = Rng::with_seed(seed);
        let rolled = dice.roll_using_rng(&mut rng).unwrap();
        assert!(rolled.rolls.len() >= 4);
        assert!(rolled.rolls[..4].iter().all(|r| r.is_original()));
        assert!(rolled.rolls[4..].iter().all(|r| !r.is_original()));
        assert!(rolled.rolls.iter().all(|r| (1..=6).contains(&r.val)));
        assert_eq!(live_vals(&rolled).len(), 3);
        assert!(live_vals(&rolled).iter().all(|v| *v != 1));
    }
}

#[test]
fn reroll_draws_in_order_of_the_dice() {
    let dice = Dice::new(5, 20);
    let m = Modifier::Reroll(Condition::Lt(10), false);
    let mut rolled = rolled_of(&dice, &[3, 15, 9, 10, 1]);
    let mut rng = Rng::with_seed(1234);
    let mut reference = Rng::with_seed(1234);
    m.apply_using_rng(&mut rolled, &mut rng).unwrap();
    let expected: Vec<u8> = (0..3).map(|_| reference.u8(1..=20)).collect();
    let added: Vec<u8> = rolled.rolls[5..].iter().map(|r| r.val).collect();
    assert_eq!(added, expected);
}

#[test]
fn roll_draws_each_die_in_turn() {
    let dice = Dice::builder().count(3).sides(8).keep_low(2).build();
    let mut rng = Rng::with_seed(99);
    let mut reference = Rng::with_seed(99);
    let rolled = dice.roll_using_rng(&mut rng).unwrap();
    let vals: Vec<u8> = rolled.rolls.iter().map(|r| r.val).collect();
    let expected: Vec<u8> = (0..3).map(|_| reference.u8(1..=8)).collect();
    assert_eq!(vals, expected);
    assert_eq!(live_vals(&rolled).len(), 2);
}

#[test]
fn clones_keep_everything() {
    let dice = Dice::builder().count(2).sides(4).keep_high(1).build();
    let rolled = rolled_of(&dice, &[1, 4]);
    let copy = rolled.clone();
    assert_eq!(copy, rolled);
    let r = DieRoll::new(3);
    assert_eq!(r.clone(), r);
    let b = Dice::builder().count(7);
    assert_eq!(b.clone().build(), b.build());
}

#[test]
fn die_rolls_order_by_value() {
    let m = Modifier::KeepHigh(1);
    let mut a = DieRoll::new(3);
    let b = DieRoll::new(5);
    assert!(a < b);
    assert!(b > a);
    assert_eq!(a.partial_cmp(&b), Some(std::cmp::Ordering::Less));
    a.drop(&m);
    assert_eq!(a.partial_cmp(&DieRoll::new(3)), Some(std::cmp::Ordering::Equal));
    assert_eq!(b.partial_cmp(&a), Some(std::cmp::Ordering::Greater));
}

#[test]
fn rolling_a_die_advances_the_generator() {
    let dice = Dice::new(1, 1);
    let mut rng = Rng::with_seed(8);
    let r = dice.roll_single_using_rng(&mut rng);
    assert_eq!(r.val, 1);
    assert_ne!(rng, Rng::with_seed(8));
}
