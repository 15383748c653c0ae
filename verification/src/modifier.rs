use vstd::prelude::*;

use vstd::set_lib::*;

use crate::condition::Condition;
use crate::error::Error;
use crate::laws::law_added_dice_show_valid_values;
use crate::rng::new_rng;
use crate::text::{decimal, push_decimal};
use crate::dice::Dice;
use crate::roll::{die_value_ok, draws_ok, lemma_view_rolls_push, view_rolls, DieRoll, RollView, Rolled};

verus! {

/// A `Modifier` is a routine that can be applied to a set of [Dice] to automatically manipulate resulting
/// [Rolled] dice sets from them as a part of their rolling process.
#[derive(Debug, PartialEq, Eq, Hash, Structural)]
pub enum Modifier {
    /// Rerolls (drops original and adds a newly-rolled die) dice that meet a condition.
    /// If the second parameter is `true`, the reroll is done recursively until the rerolled die no longer meets the
    /// condition.
    Reroll(Condition, bool),
    /// Explodes (keeps original and adds an additional newly-rolled die) dice that meet a condition.
    /// The default condition is being equal to the number of sides for the dice.
    /// If the second parameter is `true`, the explosion is done recursively for any additional rolls that also meet the
    /// condition.
    Explode(Option<Condition>, bool),
    /// Keeps only the highest x dice, dropping the rest
    KeepHigh(u8),
    /// Keeps only the lowest x dice, dropping the rest
    KeepLow(u8),
}

impl Clone for Modifier {
    fn clone(&self) -> (res: Self)
        ensures
            res == *self,
    {
        match self {
            Modifier::Reroll(c, r) => Modifier::Reroll(c.clone(), *r),
            Modifier::Explode(c, r) => Modifier::Explode(
                match c {
                    Some(c) => Some(c.clone()),
                    None => None,
                },
                *r,
            ),
            Modifier::KeepHigh(n) => Modifier::KeepHigh(*n),
            Modifier::KeepLow(n) => Modifier::KeepLow(*n),
        }
    }
}

/// A die that modifier `m` added, showing `v`.
pub open spec fn added_roll(v: u8, m: Modifier) -> RollView {
    RollView { val: v, added_by: Some(m), dropped_by: None }
}

/// The dice that modifier `m` adds when it rolls the values `vals`, in order.
pub open spec fn added_rolls(vals: Seq<u8>, m: Modifier) -> Seq<RollView> {
    Seq::new(vals.len(), |i: int| added_roll(vals[i], m))
}

/// A die marked as dropped by modifier `m`.
pub open spec fn dropped(r: RollView, m: Modifier) -> RollView {
    RollView { val: r.val, added_by: r.added_by, dropped_by: Some(m) }
}

/// Whether a reroll on `c` rerolls the die `r`.
pub open spec fn reroll_target(r: RollView, c: Condition) -> bool {
    r.live() && c.holds(r.val)
}

/// How many dice of `rolls` a reroll on `c` rerolls.
pub open spec fn reroll_target_count(rolls: Seq<RollView>, c: Condition) -> nat
    decreases rolls.len(),
{
    if rolls.len() == 0 {
        0
    } else {
        reroll_target_count(rolls.drop_last(), c) + if reroll_target(rolls.last(), c) {
            1nat
        } else {
            0nat
        }
    }
}

/// The dice after a reroll pass on `c` by `m` has dropped the dice it rerolls.
pub open spec fn mark_rerolled(rolls: Seq<RollView>, c: Condition, m: Modifier) -> Seq<RollView> {
    Seq::new(
        rolls.len(),
        |i: int|
            if reroll_target(rolls[i], c) {
                dropped(rolls[i], m)
            } else {
                rolls[i]
            },
    )
}

/// The dice after the reroll `m` on `c` has run, when the dice that it rolls
/// show, in order, the values `draws`; `None` where `draws` is not exactly what
/// the reroll uses.
pub open spec fn reroll_rounds(
    rolls: Seq<RollView>,
    c: Condition,
    recurse: bool,
    m: Modifier,
    draws: Seq<u8>,
) -> Option<Seq<RollView>>
    decreases draws.len(),
{
    let k = reroll_target_count(rolls, c);
    if k == 0 {
        if draws.len() == 0 {
            Some(rolls)
        } else {
            None
        }
    } else if draws.len() < k {
        None
    } else {
        let next = mark_rerolled(rolls, c, m) + added_rolls(draws.take(k as int), m);
        if recurse {
            reroll_rounds(next, c, recurse, m, draws.skip(k as int))
        } else if draws.len() == k {
            Some(next)
        } else {
            None
        }
    }
}

/// Whether the die `r` explodes on `c` (on its maximum, `sides`, where there is no condition).
pub open spec fn explodes(r: RollView, c: Option<Condition>, sides: u8) -> bool {
    r.live() && match c {
        Some(c) => c.holds(r.val),
        None => r.val == sides,
    }
}

/// How many dice of `rolls` explode on `c`.
pub open spec fn explosion_count(rolls: Seq<RollView>, c: Option<Condition>, sides: u8) -> nat
    decreases rolls.len(),
{
    if rolls.len() == 0 {
        0
    } else {
        explosion_count(rolls.drop_last(), c, sides) + if explodes(rolls.last(), c, sides) {
            1nat
        } else {
            0nat
        }
    }
}

/// The dice after the explosion `m` on `c` has added `n` dice and, where it recurses,
/// the dice that those explode into in turn, when the added dice show, in order, the
/// values `draws`; `None` where `draws` is not exactly what the explosion uses.
pub open spec fn explode_rounds(
    rolls: Seq<RollView>,
    n: nat,
    c: Option<Condition>,
    sides: u8,
    recurse: bool,
    m: Modifier,
    draws: Seq<u8>,
) -> Option<Seq<RollView>>
    decreases draws.len(),
{
    if n == 0 {
        if draws.len() == 0 {
            Some(rolls)
        } else {
            None
        }
    } else if draws.len() < n {
        None
    } else {
        let batch = added_rolls(draws.take(n as int), m);
        let next = if recurse {
            explosion_count(batch, c, sides)
        } else {
            0
        };
        explode_rounds(rolls + batch, next, c, sides, recurse, m, draws.skip(n as int))
    }
}

/// Whether die `j` comes before die `i` when dice are ordered from the highest
/// (`high`) or the lowest value, dice of equal value in the order in which the
/// stable sorting of the live dice by value, reversed for `high`, leaves them.
pub open spec fn outranks(rolls: Seq<RollView>, j: int, i: int, high: bool) -> bool {
    if high {
        rolls[j].val > rolls[i].val || (rolls[j].val == rolls[i].val && j > i)
    } else {
        rolls[j].val < rolls[i].val || (rolls[j].val == rolls[i].val && j < i)
    }
}

/// The live dice among the first `bound` that come before die `i`.
pub open spec fn outranking(rolls: Seq<RollView>, i: int, high: bool, bound: int) -> Set<int> {
    set_int_range(0, bound).filter(|j: int| rolls[j].live() && outranks(rolls, j, i, high))
}

/// The position of die `i` among the live dice ordered from the highest (`high`) or lowest.
pub open spec fn rank(rolls: Seq<RollView>, i: int, high: bool) -> nat {
    outranking(rolls, i, high, rolls.len() as int).len()
}

/// The dice after keeping the `count` highest (`high`) or lowest live dice,
/// `m` dropping the others.
pub open spec fn keep_result(rolls: Seq<RollView>, count: u8, high: bool, m: Modifier) -> Seq<
    RollView,
> {
    Seq::new(
        rolls.len(),
        |i: int|
            if rolls[i].live() && rank(rolls, i, high) >= count {
                dropped(rolls[i], m)
            } else {
                rolls[i]
            },
    )
}

impl Modifier {
    /// Whether applying the modifier to dice of `sides` sides is refused because
    /// it would roll without end.
    pub open spec fn refused_for(self, sides: u8) -> bool {
        match self {
            Modifier::Reroll(c, recurse) => recurse && c.refused_as_endless(sides),
            Modifier::Explode(Some(c), recurse) => recurse && c.refused_as_endless(sides),
            Modifier::Explode(None, recurse) => recurse && sides == 1,
            _ => false,
        }
    }

    /// Whether a die showing `v` on dice of `sides` sides is one that the modifier
    /// rerolls or explodes.
    pub open spec fn triggers_on(self, v: u8, sides: u8) -> bool {
        match self {
            Modifier::Reroll(c, _) => c.holds(v),
            Modifier::Explode(Some(c), _) => c.holds(v),
            Modifier::Explode(None, _) => v == sides,
            _ => false,
        }
    }

    /// Whether the modifier rerolls or explodes recursively.
    pub open spec fn is_recursive(self) -> bool {
        match self {
            Modifier::Reroll(_, recurse) => recurse,
            Modifier::Explode(_, recurse) => recurse,
            _ => false,
        }
    }

    /// The dice after the modifier has been applied to `rolls` of dice of `sides`
    /// sides, when the dice that it rolls show, in order, the values `draws`.
    pub open spec fn outcome(self, rolls: Seq<RollView>, sides: u8, draws: Seq<u8>) -> Option<
        Seq<RollView>,
    > {
        match self {
            Modifier::Reroll(c, recurse) => reroll_rounds(rolls, c, recurse, self, draws),
            Modifier::Explode(c, recurse) => explode_rounds(
                rolls,
                explosion_count(rolls, c, sides),
                c,
                sides,
                recurse,
                self,
                draws,
            ),
            Modifier::KeepHigh(n) => if draws.len() == 0 {
                Some(keep_result(rolls, n, true, self))
            } else {
                None
            },
            Modifier::KeepLow(n) => if draws.len() == 0 {
                Some(keep_result(rolls, n, false, self))
            } else {
                None
            },
        }
    }
}

/// One more added die showing `v`.
proof fn lemma_added_rolls_push(vals: Seq<u8>, v: u8, m: Modifier)
    ensures
        added_rolls(vals.push(v), m) == added_rolls(vals, m).push(added_roll(v, m)),
{
    assert(added_rolls(vals.push(v), m) =~= added_rolls(vals, m).push(added_roll(v, m)));
}

impl Modifier {
    /// Rolls one die of `dice`, marks it as added by the modifier and pushes it onto `added`.
    fn roll_added<'rolled, 'modifier: 'rolled>(
        &'modifier self,
        dice: &'rolled Dice,
        rng: &mut fastrand::Rng,
        added: &mut Vec<DieRoll<'rolled>>,
    ) -> (v: u8)
        ensures
            die_value_ok(dice.sides, v),
            view_rolls(final(added)@) == view_rolls(old(added)@).push(added_roll(v, *self)),
    {
        let mut roll = dice.roll_single_using_rng(rng);
        roll.add(self);
        let v = roll.val;
        proof {
            lemma_view_rolls_push(added@, roll);
        }
        added.push(roll);
        v
    }

    /// Checks whether applying the modifier to dice of `sides` sides is refused.
    fn refuses(&self, sides: u8) -> (res: bool)
        ensures
            res == self.refused_for(sides),
    {
        match self {
            Modifier::Reroll(cond, recurse) => *recurse && match cond {
                Condition::Eq(other) => *other == 1 && sides == 1,
                Condition::Gt(other) => *other == 0,
                Condition::Gte(other) => *other <= 1,
                Condition::Lt(other) => *other > sides,
                Condition::Lte(other) => *other >= sides,
            },
            Modifier::Explode(cond, recurse) => *recurse && match cond {
                Some(Condition::Eq(other)) => *other == 1 && sides == 1,
                Some(Condition::Gt(other)) => *other == 0,
                Some(Condition::Gte(other)) => *other <= 1,
                Some(Condition::Lt(other)) => *other > sides,
                Some(Condition::Lte(other)) => *other >= sides,
                None => sides == 1,
            },
            _ => false,
        }
    }

    /// Rerolls the dice that meet `cond`, once or until none does.
    fn reroll_dice<'rolled, 'modifier: 'rolled>(
        &'modifier self,
        cond: &Condition,
        recurse: bool,
        rolled: &mut Rolled<'rolled>,
        rng: &mut fastrand::Rng,
    ) -> (draws: Ghost<Seq<u8>>)
        requires
            *self == Modifier::Reroll(*cond, recurse),
        ensures
            final(rolled).dice == old(rolled).dice,
            draws_ok(old(rolled).dice.sides, draws@),
            reroll_rounds(old(rolled)@, *cond, recurse, *self, draws@) == Some(final(rolled)@),
    {
        let ghost start = rolled@;
        let ghost mut drawn: Seq<u8> = Seq::empty();
        assert(drawn + Seq::<u8>::empty() =~= drawn);
        loop
            invariant_except_break
                forall|f: Seq<u8>|
                    #[trigger] reroll_rounds(rolled@, *cond, recurse, *self, f) == reroll_rounds(
                        start,
                        *cond,
                        recurse,
                        *self,
                        drawn + f,
                    ),
            invariant
                *self == Modifier::Reroll(*cond, recurse),
                rolled.dice == old(rolled).dice,
                start == old(rolled)@,
                draws_ok(rolled.dice.sides, drawn),
            ensures
                rolled.dice == old(rolled).dice,
                draws_ok(rolled.dice.sides, drawn),
                reroll_rounds(start, *cond, recurse, *self, drawn) == Some(rolled@),
            decreases usize::MAX - rolled.rolls.len(),
        {
            let n = rolled.rolls.len();
            let ghost before = rolled@;
            // Determine which rolls qualify for reroll
            let mut targets: Vec<usize> = Vec::new();
            let mut i: usize = 0;
            while i < n
                invariant
                    n == rolled.rolls.len(),
                    before == rolled@,
                    i <= n,
                    targets.len() == reroll_target_count(before.take(i as int), *cond),
                    targets.len() <= i,
                    forall|t: int| 0 <= t < targets.len() ==> targets[t] < i,
                    forall|j: int|
                        0 <= j < i ==> (reroll_target(before[j], *cond) <==> targets@.contains(
                            j as usize,
                        )),
                decreases n - i,
            {
                let r = &rolled.rolls[i];
                let ghost prev_targets = targets@;
                if !r.is_dropped() && cond.check(r.val) {
                    targets.push(i);
                }
                proof {
                    assert forall|j: int|
                        0 <= j <= i implies (reroll_target(before[j], *cond) <==> targets@.contains(
                            j as usize,
                        )) by {
                        if j < i {
                            if prev_targets.contains(j as usize) {
                                let t = prev_targets.index_of(j as usize);
                                assert(targets@[t] == j as usize);
                            }
                            if targets@.contains(j as usize) {
                                let t = targets@.index_of(j as usize);
                                if t < prev_targets.len() {
                                    assert(prev_targets[t] == j as usize);
                                }
                            }
                        } else {
                            if targets@.contains(j as usize) {
                                let t = targets@.index_of(j as usize);
                                if t < prev_targets.len() {
                                    assert(prev_targets[t] < i);
                                }
                            }
                            if reroll_target(before[j], *cond) {
                                assert(targets@[targets@.len() - 1] == i);
                            }
                        }
                    }
                }
                proof {
                    assert(before.take(i + 1).drop_last() =~= before.take(i as int));
                }
                i = i + 1;
            }
            proof {
                assert(before.take(n as int) =~= before);
            }
            if targets.len() == 0 {
                proof {
                    assert(reroll_rounds(before, *cond, recurse, *self, Seq::<u8>::empty()) == Some(
                        before,
                    ));
                    assert(drawn + Seq::<u8>::empty() =~= drawn);
                }
                break ;
            }
            // Roll additional dice and drop the originals
            let mut rerolls: Vec<DieRoll> = Vec::with_capacity(targets.len());
            let ghost mut vals: Seq<u8> = Seq::empty();
            let mut k: usize = 0;
            while k < targets.len()
                invariant
                    *self == Modifier::Reroll(*cond, recurse),
                    n == rolled.rolls.len(),
                    before.len() == n,
                    rolled.dice == old(rolled).dice,
                    k <= targets.len(),
                    forall|t: int| 0 <= t < targets.len() ==> targets[t] < n,
                    forall|t: int|
                        0 <= t < targets.len() ==> reroll_target(before[targets[t] as int], *cond),
                    forall|j: int|
                        0 <= j < n ==> rolled@[j] == before[j] || (rolled@[j] == dropped(
                            before[j],
                            *self,
                        ) && reroll_target(before[j], *cond)),
                    forall|t: int|
                        0 <= t < k ==> rolled@[targets[t] as int] == dropped(
                            before[targets[t] as int],
                            *self,
                        ),
                    vals.len() == k,
                    draws_ok(rolled.dice.sides, vals),
                    view_rolls(rerolls@) == added_rolls(vals, *self),
                decreases targets.len() - k,
            {
                let v = self.roll_added(rolled.dice, rng, &mut rerolls);
                proof {
                    lemma_added_rolls_push(vals, v, *self);
                    vals = vals.push(v);
                }
                let t = targets[k];
                let mut dropped_roll = DieRoll {
                    val: rolled.rolls[t].val,
                    added_by: rolled.rolls[t].added_by,
                    dropped_by: rolled.rolls[t].dropped_by,
                };
                dropped_roll.drop(self);
                rolled.rolls.set(t, dropped_roll);
                k = k + 1;
            }
            let ghost marked = rolled@;
            assert(marked =~= mark_rerolled(before, *cond, *self)) by {
                assert forall|j: int| 0 <= j < n implies marked[j] == mark_rerolled(
                    before,
                    *cond,
                    *self,
                )[j] by {
                    if reroll_target(before[j], *cond) {
                        let t = targets@.index_of(j as usize);
                        assert(targets[t] == j as usize);
                    }
                }
            }
            // Add the rerolls to the rolls
            rolled.rolls.append(&mut rerolls);
            let ghost next = rolled@;
            assert(next =~= mark_rerolled(before, *cond, *self) + added_rolls(vals, *self));
            let ghost count = reroll_target_count(before, *cond);
            assert(count == vals.len());
            if !recurse {
                proof {
                    assert(vals.take(count as int) =~= vals);
                    assert(reroll_rounds(before, *cond, recurse, *self, vals) == Some(next));
                    drawn = drawn + vals;
                }
                break ;
            }
            proof {
                assert forall|f: Seq<u8>|
                    #[trigger] reroll_rounds(next, *cond, recurse, *self, f) == reroll_rounds(
                        start,
                        *cond,
                        recurse,
                        *self,
                        (drawn + vals) + f,
                    ) by {
                    assert((vals + f).take(count as int) =~= vals);
                    assert((vals + f).skip(count as int) =~= f);
                    assert(drawn + (vals + f) =~= (drawn + vals) + f);
                    assert(reroll_rounds(before, *cond, recurse, *self, vals + f) == reroll_rounds(
                        start,
                        *cond,
                        recurse,
                        *self,
                        drawn + (vals + f),
                    ));
                }
                drawn = drawn + vals;
            }
        }
        Ghost(drawn)
    }
}

impl Modifier {
    /// Checks whether the die `r` explodes on `cond`.
    fn explodes_on(r: &DieRoll, cond: &Option<Condition>, sides: u8) -> (res: bool)
        ensures
            res == explodes(r@, *cond, sides),
    {
        !r.is_dropped() && match cond {
            Some(cond) => cond.check(r.val),
            None => r.val == sides,
        }
    }

    /// Counts the dice of `rolls` that explode on `cond`.
    fn count_explosions(rolls: &Vec<DieRoll>, cond: &Option<Condition>, sides: u8) -> (res: usize)
        ensures
            res == explosion_count(view_rolls(rolls@), *cond, sides),
            res <= rolls.len(),
    {
        let ghost v = view_rolls(rolls@);
        let n = rolls.len();
        let mut count: usize = 0;
        let mut i: usize = 0;
        while i < n
            invariant
                n == rolls.len(),
                v == view_rolls(rolls@),
                i <= n,
                count <= i,
                count == explosion_count(v.take(i as int), *cond, sides),
            decreases n - i,
        {
            if Self::explodes_on(&rolls[i], cond, sides) {
                count = count + 1;
            }
            proof {
                assert(v.take(i + 1).drop_last() =~= v.take(i as int));
            }
            i = i + 1;
        }
        proof {
            assert(v.take(n as int) =~= v);
        }
        count
    }

    /// Explodes the dice that meet `cond`, once or for each added die that meets it in turn.
    fn explode_dice<'rolled, 'modifier: 'rolled>(
        &'modifier self,
        cond: &Option<Condition>,
        recurse: bool,
        rolled: &mut Rolled<'rolled>,
        rng: &mut fastrand::Rng,
    ) -> (draws: Ghost<Seq<u8>>)
        requires
            *self == Modifier::Explode(*cond, recurse),
        ensures
            final(rolled).dice == old(rolled).dice,
            draws_ok(old(rolled).dice.sides, draws@),
            explode_rounds(
                old(rolled)@,
                explosion_count(old(rolled)@, *cond, old(rolled).dice.sides),
                *cond,
                old(rolled).dice.sides,
                recurse,
                *self,
                draws@,
            ) == Some(final(rolled)@),
    {
        let sides = rolled.dice.sides;
        let ghost start = rolled@;
        let ghost initial = explosion_count(start, *cond, sides);
        let ghost mut drawn: Seq<u8> = Seq::empty();
        // Determine how many initial rolls qualify for explosion
        let mut to_explode = Self::count_explosions(&rolled.rolls, cond, sides);
        assert(drawn + Seq::<u8>::empty() =~= drawn);
        loop
            invariant_except_break
                forall|f: Seq<u8>|
                    #[trigger] explode_rounds(
                        rolled@,
                        to_explode as nat,
                        *cond,
                        sides,
                        recurse,
                        *self,
                        f,
                    ) == explode_rounds(start, initial, *cond, sides, recurse, *self, drawn + f),
            invariant
                *self == Modifier::Explode(*cond, recurse),
                rolled.dice == old(rolled).dice,
                sides == rolled.dice.sides,
                start == old(rolled)@,
                initial == explosion_count(start, *cond, sides),
                draws_ok(sides, drawn),
            ensures
                rolled.dice == old(rolled).dice,
                draws_ok(sides, drawn),
                explode_rounds(start, initial, *cond, sides, recurse, *self, drawn) == Some(
                    rolled@,
                ),
            decreases usize::MAX - rolled.rolls.len(),
        {
            let ghost before = rolled@;
            // Roll additional dice
            let mut explosions: Vec<DieRoll> = Vec::with_capacity(to_explode);
            let ghost mut vals: Seq<u8> = Seq::empty();
            let mut k: usize = 0;
            while k < to_explode
                invariant
                    *self == Modifier::Explode(*cond, recurse),
                    rolled.dice == old(rolled).dice,
                    sides == rolled.dice.sides,
                    rolled@ == before,
                    k <= to_explode,
                    vals.len() == k,
                    draws_ok(sides, vals),
                    view_rolls(explosions@) == added_rolls(vals, *self),
                decreases to_explode - k,
            {
                let v = self.roll_added(rolled.dice, rng, &mut explosions);
                proof {
                    lemma_added_rolls_push(vals, v, *self);
                    vals = vals.push(v);
                }
                k = k + 1;
            }
            let ghost batch = view_rolls(explosions@);
            // Determine how many additional rolls qualify for explosion, then add the explosions to the rolls
            let next = if recurse {
                Self::count_explosions(&explosions, cond, sides)
            } else {
                0
            };
            assert(next <= to_explode);
            rolled.rolls.append(&mut explosions);
            assert(rolled@ =~= before + batch);
            proof {
                if to_explode > 0 {
                    assert forall|f: Seq<u8>|
                        #[trigger] explode_rounds(
                            before + batch,
                            next as nat,
                            *cond,
                            sides,
                            recurse,
                            *self,
                            f,
                        ) == explode_rounds(
                            start,
                            initial,
                            *cond,
                            sides,
                            recurse,
                            *self,
                            (drawn + vals) + f,
                        ) by {
                        assert((vals + f).take(to_explode as int) =~= vals);
                        assert((vals + f).skip(to_explode as int) =~= f);
                        assert(drawn + (vals + f) =~= (drawn + vals) + f);
                        assert(explode_rounds(
                            before,
                            to_explode as nat,
                            *cond,
                            sides,
                            recurse,
                            *self,
                            vals + f,
                        ) == explode_rounds(
                            start,
                            initial,
                            *cond,
                            sides,
                            recurse,
                            *self,
                            drawn + (vals + f),
                        ));
                    }
                } else {
                    assert(vals =~= Seq::<u8>::empty());
                    assert(batch =~= Seq::<RollView>::empty());
                    assert(before + batch =~= before);
                    assert(drawn + vals =~= drawn);
                }
                drawn = drawn + vals;
            }
            to_explode = next;
            if to_explode == 0 {
                proof {
                    assert(drawn + Seq::<u8>::empty() =~= drawn);
                    assert(explode_rounds(
                        rolled@,
                        0,
                        *cond,
                        sides,
                        recurse,
                        *self,
                        Seq::<u8>::empty(),
                    ) == Some(rolled@));
                }
                break ;
            }
        }
        Ghost(drawn)
    }
}

/// One more die considered adds one to the count of those before die `i`
/// exactly when it is live and comes before `i`.
proof fn lemma_outranking_step(rolls: Seq<RollView>, i: int, high: bool, b: int)
    requires
        0 <= b,
    ensures
        outranking(rolls, i, high, b).finite(),
        outranking(rolls, i, high, b).len() <= b,
        outranking(rolls, i, high, b + 1).len() == outranking(rolls, i, high, b).len() + if rolls[b].live()
            && outranks(rolls, b, i, high) {
            1nat
        } else {
            0nat
        },
{
    let p = |j: int| rolls[j].live() && outranks(rolls, j, i, high);
    lemma_int_range(0, b);
    lemma_int_range(0, b + 1);
    set_int_range(0, b).lemma_len_filter(p);
    set_int_range(0, b + 1).lemma_len_filter(p);
    let s0 = outranking(rolls, i, high, b);
    let s1 = outranking(rolls, i, high, b + 1);
    if p(b) {
        assert(s1 =~= s0.insert(b));
        assert(!s0.contains(b));
    } else {
        assert(s1 =~= s0);
    }
}

impl Modifier {
    /// Whether die `j` comes before die `i` when ordering from the highest (`high`) or lowest.
    fn outranks_exec(rolls: &Vec<DieRoll>, j: usize, i: usize, high: bool) -> (res: bool)
        requires
            j < rolls.len(),
            i < rolls.len(),
        ensures
            res == outranks(view_rolls(rolls@), j as int, i as int, high),
    {
        let a = rolls[j].val;
        let b = rolls[i].val;
        if high {
            a > b || (a == b && j > i)
        } else {
            a < b || (a == b && j < i)
        }
    }

    /// Counts the live dice that come before die `i`.
    fn rank_of(rolls: &Vec<DieRoll>, i: usize, high: bool) -> (res: usize)
        requires
            i < rolls.len(),
        ensures
            res == rank(view_rolls(rolls@), i as int, high),
    {
        let ghost v = view_rolls(rolls@);
        let n = rolls.len();
        let mut count: usize = 0;
        let mut j: usize = 0;
        assert(outranking(v, i as int, high, 0) =~= Set::<int>::empty());
        while j < n
            invariant
                n == rolls.len(),
                v == view_rolls(rolls@),
                i < n,
                j <= n,
                count <= j,
                count == outranking(v, i as int, high, j as int).len(),
            decreases n - j,
        {
            proof {
                lemma_outranking_step(v, i as int, high, j as int);
            }
            if !rolls[j].is_dropped() && Self::outranks_exec(rolls, j, i, high) {
                count = count + 1;
            }
            j = j + 1;
        }
        count
    }

    /// Keeps the `count` highest (`high`) or lowest live dice and drops the others.
    fn keep_dice<'rolled, 'modifier: 'rolled>(
        &'modifier self,
        count: u8,
        high: bool,
        rolled: &mut Rolled<'rolled>,
    )
        requires
            *self == (if high {
                Modifier::KeepHigh(count)
            } else {
                Modifier::KeepLow(count)
            }),
        ensures
            final(rolled).dice == old(rolled).dice,
            final(rolled)@ == keep_result(old(rolled)@, count, high, *self),
    {
        let ghost before = rolled@;
        let n = rolled.rolls.len();
        let mut drop_flags: Vec<bool> = Vec::with_capacity(n);
        let mut i: usize = 0;
        while i < n
            invariant
                n == rolled.rolls.len(),
                before == rolled@,
                i <= n,
                drop_flags.len() == i,
                forall|j: int|
                    0 <= j < i ==> drop_flags[j] == (before[j].live() && rank(before, j, high)
                        >= count),
            decreases n - i,
        {
            if rolled.rolls[i].is_dropped() {
                drop_flags.push(false);
            } else {
                let r = Self::rank_of(&rolled.rolls, i, high);
                drop_flags.push(r >= count as usize);
            }
            i = i + 1;
        }
        let mut i: usize = 0;
        while i < n
            invariant
                n == rolled.rolls.len(),
                before.len() == n,
                rolled.dice == old(rolled).dice,
                i <= n,
                drop_flags.len() == n,
                forall|j: int|
                    0 <= j < n ==> drop_flags[j] == (before[j].live() && rank(before, j, high)
                        >= count),
                rolled@.len() == n,
                forall|j: int|
                    0 <= j < i ==> rolled@[j] == if drop_flags[j] {
                        dropped(before[j], *self)
                    } else {
                        before[j]
                    },
                forall|j: int| i <= j < n ==> rolled@[j] == before[j],
            decreases n - i,
        {
            let ghost prev = rolled@;
            if drop_flags[i] {
                let mut dropped_roll = DieRoll {
                    val: rolled.rolls[i].val,
                    added_by: rolled.rolls[i].added_by,
                    dropped_by: rolled.rolls[i].dropped_by,
                };
                dropped_roll.drop(self);
                rolled.rolls.set(i, dropped_roll);
                assert(rolled@ =~= prev.update(i as int, dropped(before[i as int], *self)));
            } else {
                assert(rolled@ =~= prev);
            }
            i = i + 1;
        }
        assert(rolled@ =~= keep_result(before, count, high, *self)) by {
            assert(rolled@.len() == n);
            assert forall|j: int| 0 <= j < n implies rolled@[j] == keep_result(
                before,
                count,
                high,
                *self,
            )[j] by {
                assert(drop_flags[j] == (before[j].live() && rank(before, j, high) >= count));
            }
        }
    }
}

impl Modifier {
    /// Applies the modifier to a set of rolls using the default Rng where needed.
    pub fn apply<'rolled, 'modifier: 'rolled>(&'modifier self, rolls: &mut Rolled<'rolled>) -> (res:
        Result<(), Error>)
        ensures
            final(rolls).dice == old(rolls).dice,
            res is Err <==> self.refused_for(old(rolls).dice.sides),
            res is Err ==> (res matches Err(Error::InfiniteRolls(d)) && d.same_as(*old(rolls).dice)
                && final(rolls)@ == old(rolls)@),
            res is Ok ==> exists|draws: Seq<u8>|
                draws_ok(old(rolls).dice.sides, draws) && #[trigger] self.outcome(
                    old(rolls)@,
                    old(rolls).dice.sides,
                    draws,
                ) == Some(final(rolls)@),
            res is Ok ==> final(rolls)@.len() >= old(rolls)@.len(),
            res is Ok ==> forall|j: int|
                old(rolls)@.len() <= j < final(rolls)@.len() ==> die_value_ok(
                    old(rolls).dice.sides,
                    (#[trigger] final(rolls)@[j]).val,
                ),
    {
        let mut rng = new_rng();
        self.apply_using_rng(rolls, &mut rng)
    }

    /// Applies the modifier to a set of rolls using a given Rng where needed.
    pub fn apply_using_rng<'rolled, 'modifier: 'rolled>(
        &'modifier self,
        rolled: &mut Rolled<'rolled>,
        rng: &mut fastrand::Rng,
    ) -> (res: Result<(), Error>)
        ensures
            final(rolled).dice == old(rolled).dice,
            res is Err <==> self.refused_for(old(rolled).dice.sides),
            res is Err ==> (res matches Err(Error::InfiniteRolls(d)) && d.same_as(*old(rolled).dice)
                && final(rolled)@ == old(rolled)@),
            res is Ok ==> exists|draws: Seq<u8>|
                draws_ok(old(rolled).dice.sides, draws) && #[trigger] self.outcome(
                    old(rolled)@,
                    old(rolled).dice.sides,
                    draws,
                ) == Some(final(rolled)@),
            res is Ok ==> final(rolled)@.len() >= old(rolled)@.len(),
            res is Ok ==> forall|j: int|
                old(rolled)@.len() <= j < final(rolled)@.len() ==> die_value_ok(
                    old(rolled).dice.sides,
                    (#[trigger] final(rolled)@[j]).val,
                ),
    {
        // Prevent recursively rerolling or exploding dice that would result in infinite rolls
        if self.refuses(rolled.dice.sides) {
            return Err(Error::InfiniteRolls(rolled.dice.clone()));
        }
        let ghost draws: Seq<u8>;
        match self {
            Modifier::Reroll(cond, recurse) => {
                let d = self.reroll_dice(cond, *recurse, rolled, rng);
                proof {
                    draws = d@;
                }
            },
            Modifier::Explode(cond, recurse) => {
                let d = self.explode_dice(cond, *recurse, rolled, rng);
                proof {
                    draws = d@;
                }
            },
            Modifier::KeepHigh(count) => {
                self.keep_dice(*count, true, rolled);
                proof {
                    draws = Seq::empty();
                }
            },
            Modifier::KeepLow(count) => {
                self.keep_dice(*count, false, rolled);
                proof {
                    draws = Seq::empty();
                }
            },
        }
        assert(draws_ok(old(rolled).dice.sides, draws));
        assert(self.outcome(old(rolled)@, old(rolled).dice.sides, draws) == Some(rolled@));
        proof {
            law_added_dice_show_valid_values(
                *self,
                old(rolled)@,
                old(rolled).dice.sides,
                draws,
                rolled@,
            );
        }
        Ok(())
    }
}

impl Modifier {
    /// The modifier in dice notation.
    pub open spec fn text(self) -> Seq<char> {
        match self {
            Modifier::Reroll(c, recurse) => seq!['r'] + (if recurse {
                seq!['r']
            } else {
                Seq::empty()
            }) + c.text(),
            Modifier::Explode(c, recurse) => seq!['x'] + (if recurse {
                Seq::empty()
            } else {
                seq!['o']
            }) + match c {
                Some(c) => c.text(),
                None => Seq::empty(),
            },
            Modifier::KeepHigh(count) => seq!['k', 'h'] + (if count > 1 {
                decimal(count as nat)
            } else {
                Seq::empty()
            }),
            Modifier::KeepLow(count) => seq!['k', 'l'] + (if count > 1 {
                decimal(count as nat)
            } else {
                Seq::empty()
            }),
        }
    }

    /// Writes the modifier in dice notation, such as `rr<3`, `x`, `xo>5` or `kh2`.
    pub fn to_string(&self) -> (res: String)
        ensures
            res@ == self.text(),
    {
        proof {
            reveal_strlit("r");
            reveal_strlit("rr");
            reveal_strlit("x");
            reveal_strlit("xo");
            reveal_strlit("kh");
            reveal_strlit("kl");
            assert("r"@ =~= seq!['r']);
            assert("rr"@ =~= seq!['r', 'r']);
            assert("x"@ =~= seq!['x']);
            assert("xo"@ =~= seq!['x', 'o']);
            assert("kh"@ =~= seq!['k', 'h']);
            assert("kl"@ =~= seq!['k', 'l']);
        }
        let mut s = String::new();
        match self {
            Modifier::Reroll(cond, recurse) => {
                s.append(if *recurse { "rr" } else { "r" });
                let c = cond.to_string();
                s.append(c.as_str());
            },
            Modifier::Explode(cond, recurse) => {
                s.append(if *recurse { "x" } else { "xo" });
                match cond {
                    Some(cond) => {
                        let c = cond.to_string();
                        s.append(c.as_str());
                    },
                    None => {},
                }
            },
            Modifier::KeepHigh(count) => {
                s.append("kh");
                if *count > 1 {
                    push_decimal(&mut s, *count as usize);
                }
            },
            Modifier::KeepLow(count) => {
                s.append("kl");
                if *count > 1 {
                    push_decimal(&mut s, *count as usize);
                }
            },
        }
        assert(s@ =~= self.text());
        s
    }
}

} // verus!
