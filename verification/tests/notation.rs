use dice::{Builder, Condition, Dice, DieRoll, Error, Modifier, Rolled};

#[test]
fn condition_from_each_symbol() {
    assert_eq!(Condition::from_symbol_and_val("=", 3).unwrap(), Condition::Eq(3));
    assert_eq!(Condition::from_symbol_and_val(">", 4).unwrap(), Condition::Gt(4));
    assert_eq!(Condition::from_symbol_and_val(">=", 5).unwrap(), Condition::Gte(5));
    assert_eq!(Condition::from_symbol_and_val("<", 2).unwrap(), Condition::Lt(2));
    assert_eq!(Condition::from_symbol_and_val("<=", 1).unwrap(), Condition::Lte(1));
}

#[test]
fn condition_unknown_symbol() {
    match Condition::from_symbol_and_val("=>", 3) {
        Err(Error::UnknownCondition(s)) => assert_eq!(s, "=>"),
        other => panic!("unexpected {:?}", other),
    }
    assert!(matches!(Condition::from_symbol_and_val("", 3), Err(Error::UnknownCondition(_))));
    assert!(matches!(Condition::from_symbol_and_val("==", 3), Err(Error::UnknownCondition(_))));
}

#[test]
fn condition_check_each_kind() {
    assert!(Condition::Eq(3).check(3));
    assert!(!Condition::Eq(3).check(4));
    assert!(Condition::Gt(3).check(4));
    assert!(!Condition::Gt(3).check(3));
    assert!(Condition::Gte(3).check(3));
    assert!(!Condition::Gte(3).check(2));
    assert!(Condition::Lt(3).check(2));
    assert!(!Condition::Lt(3).check(3));
    assert!(Condition::Lte(3).check(3));
    assert!(!Condition::Lte(3).check(4));
}

#[test]
fn condition_symbols_and_text() {
    assert_eq!(Condition::Eq(1).symbol(), "=");
    assert_eq!(Condition::Gt(1).symbol(), ">");
    assert_eq!(Condition::Gte(1).symbol(), ">=");
    assert_eq!(Condition::Lt(1).symbol(), "<");
    assert_eq!(Condition::Lte(1).symbol(), "<=");
    assert_eq!(Condition::Gte(5).to_string(), ">=5");
    assert_eq!(Condition::Lt(0).to_string(), "<0");
    assert_eq!(Condition::Eq(255).to_string(), "=255");
}

#[test]
fn condition_symbol_round_trip() {
    for c in [
        Condition::Eq(7),
        Condition::Gt(0),
        Condition::Gte(12),
        Condition::Lt(200),
        Condition::Lte(9),
    ] {
        let v = match c {
            Condition::Eq(v) | Condition::Gt(v) | Condition::Gte(v) | Condition::Lt(v) | Condition::Lte(v) => v,
        };
        assert_eq!(Condition::from_symbol_and_val(c.symbol(), v).unwrap(), c);
    }
}

#[test]
fn modifier_text() {
    assert_eq!(Modifier::Reroll(Condition::Lt(3), false).to_string(), "r<3");
    assert_eq!(Modifier::Reroll(Condition::Eq(1), true).to_string(), "rr=1");
    assert_eq!(Modifier::Explode(None, true).to_string(), "x");
    assert_eq!(Modifier::Explode(None, false).to_string(), "xo");
    assert_eq!(Modifier::Explode(Some(Condition::Gte(5)), true).to_string(), "x>=5");
    assert_eq!(Modifier::Explode(Some(Condition::Gt(4)), false).to_string(), "xo>4");
    assert_eq!(Modifier::KeepHigh(1).to_string(), "kh");
    assert_eq!(Modifier::KeepHigh(0).to_string(), "kh");
    assert_eq!(Modifier::KeepHigh(3).to_string(), "kh3");
    assert_eq!(Modifier::KeepLow(1).to_string(), "kl");
    assert_eq!(Modifier::KeepLow(12).to_string(), "kl12");
}

#[test]
fn dice_new_default_plain() {
    let d = Dice::new(3, 6);
    assert_eq!(d.count, 3);
    assert_eq!(d.sides, 6);
    assert!(d.modifiers.is_empty());
    let def = Dice::default();
    assert_eq!(def, Dice::new(1, 20));
    let with_mods = Dice::builder().count(4).sides(6).keep_high(3).build();
    let plain = with_mods.plain();
    assert_eq!(plain, Dice::new(4, 6));
}

#[test]
fn builder_collects_modifiers_in_order() {
    let d = Dice::builder()
        .count(4)
        .sides(10)
        .reroll(Condition::Eq(1), false)
        .explode(None, true)
        .keep_high(3)
        .keep_low(2)
        .build();
    assert_eq!(d.count, 4);
    assert_eq!(d.sides, 10);
    assert_eq!(
        d.modifiers,
        vec![
            Modifier::Reroll(Condition::Eq(1), false),
            Modifier::Explode(None, true),
            Modifier::KeepHigh(3),
            Modifier::KeepLow(2),
        ]
    );
    let b: Builder = Builder::default();
    assert_eq!(b.build(), Dice::new(1, 20));
    assert_eq!(Dice::builder().build(), Dice::default());
}

#[test]
fn dice_text() {
    assert_eq!(Dice::new(1, 20).to_string(), "1d20");
    assert_eq!(Dice::builder().count(4).sides(6).keep_high(3).build().to_string(), "4d6kh3");
    let d = Dice::builder()
        .count(10)
        .sides(100)
        .reroll(Condition::Lt(3), true)
        .explode(Some(Condition::Gte(95)), false)
        .keep_low(1)
        .build();
    assert_eq!(d.to_string(), "10d100rr<3xo>=95kl");
    assert_eq!(Dice::new(0, 0).to_string(), "0d0");
}

#[test]
fn dice_clone_is_equal() {
    let d = Dice::builder().count(2).sides(8).explode(None, false).build();
    assert_eq!(d.clone(), d);
}

#[test]
fn die_roll_marks() {
    let m = Modifier::KeepHigh(1);
    let mut r = DieRoll::new(4);
    assert_eq!(r.val, 4);
    assert!(r.is_original());
    assert!(!r.is_dropped());
    r.add(&m);
    assert!(!r.is_original());
    assert_eq!(r.added_by, Some(&m));
    r.drop(&m);
    assert!(r.is_dropped());
    assert_eq!(r.dropped_by, Some(&m));
    assert_eq!(r.val, 4);
}

#[test]
fn die_roll_text() {
    let m = Modifier::KeepLow(1);
    let mut r = DieRoll::new(12);
    assert_eq!(r.to_string(), "12");
    r.drop(&m);
    assert_eq!(r.to_string(), "12 (d)");
}

fn rolled_of<'a>(dice: &'a Dice, vals: &[u8]) -> Rolled<'a> {
    Rolled { rolls: vals.iter().map(|v| DieRoll::new(*v)).collect(), dice }
}

#[test]
fn rolled_describe_example() {
    let dice = Dice::builder().count(3).sides(6).keep_high(2).build();
    let mut rolled = rolled_of(&dice, &[6, 2, 5]);
    rolled.rolls[1].drop(&dice.modifiers[0]);
    assert_eq!(rolled.describe(None), "3d6kh2[6, 2 (d), 5]");
    assert_eq!(rolled.to_string(), "3d6kh2[6, 2 (d), 5]");
}

#[test]
fn rolled_describe_truncated() {
    let dice = Dice::new(5, 6);
    let rolled = rolled_of(&dice, &[1, 2, 3, 4, 5]);
    assert_eq!(rolled.describe(Some(2)), "5d6[1, 2, 3 more...]");
    assert_eq!(rolled.describe(Some(5)), "5d6[1, 2, 3, 4, 5]");
    assert_eq!(rolled.describe(Some(9)), "5d6[1, 2, 3, 4, 5]");
    assert_eq!(rolled.describe(Some(0)), "5d6[, 5 more...]");
    let none = rolled_of(&dice, &[]);
    assert_eq!(none.describe(None), "5d6[]");
}

#[test]
fn error_text() {
    assert_eq!(Error::Overflow.to_string(), "integer overflow");
    let d = Dice::builder().count(1).sides(1).explode(None, true).build();
    assert_eq!(Error::InfiniteRolls(d).to_string(), "1d1x would result in infinite rolls");
    assert_eq!(
        Error::UnknownCondition("!".to_string()).to_string(),
        "unknown condition symbol: !"
    );
}
