use vstd::prelude::*;

use crate::dice::Dice;
use crate::error::Error;
use crate::modifier::Modifier;
use crate::rng::{new_rng, rng_u8_in};
use crate::text::{decimal, push_decimal};

verus! {

/// A `DieRoll` is a single die resulting from rolling [Dice] and optionally applying modifiers.
#[derive(Debug, PartialEq, Eq)]
pub struct DieRoll<'a> {
    /// Value that was rolled
    pub val: u8,
    /// Modifier that caused the addition of this die, if any
    pub added_by: Option<&'a Modifier>,
    /// Modifier that caused the drop of this die, if any
    pub dropped_by: Option<&'a Modifier>,
}

impl<'a> Clone for DieRoll<'a> {
    fn clone(&self) -> (res: Self)
        ensures
            res == *self,
    {
        DieRoll { val: self.val, added_by: self.added_by, dropped_by: self.dropped_by }
    }
}

/// What a [DieRoll] holds, with the modifiers taken by value.
pub struct RollView {
    pub val: u8,
    pub added_by: Option<Modifier>,
    pub dropped_by: Option<Modifier>,
}

impl RollView {
    /// Whether no modifier has dropped the die.
    pub open spec fn live(self) -> bool {
        self.dropped_by is None
    }

    /// The die as text: its value, followed by ` (d)` where it was dropped.
    pub open spec fn text(self) -> Seq<char> {
        decimal(self.val as nat) + if self.live() {
            Seq::empty()
        } else {
            seq![' ', '(', 'd', ')']
        }
    }
}

/// The texts of the dice, separated by `, `.
pub open spec fn joined(rolls: Seq<RollView>) -> Seq<char>
    decreases rolls.len(),
{
    if rolls.len() == 0 {
        Seq::empty()
    } else if rolls.len() == 1 {
        rolls[0].text()
    } else {
        joined(rolls.drop_last()) + seq![',', ' '] + rolls.last().text()
    }
}

/// The description of rolls of dice written `dice_text`, listing at most `max_rolls` of them:
/// the dice, then in square brackets the dice listed and, where some are left out,
/// how many more there are.
pub open spec fn description(dice_text: Seq<char>, rolls: Seq<RollView>, max_rolls: nat) -> Seq<char> {
    let shown = if rolls.len() < max_rolls {
        rolls.len()
    } else {
        max_rolls
    };
    let truncated = if rolls.len() > max_rolls {
        rolls.len() - max_rolls
    } else {
        0
    };
    dice_text + seq!['['] + joined(rolls.take(shown as int)) + (if truncated > 0 {
        seq![',', ' '] + decimal(truncated as nat) + seq![' ', 'm', 'o', 'r', 'e', '.', '.', '.']
    } else {
        Seq::empty()
    }) + seq![']']
}

pub open spec fn modifier_of(m: Option<&Modifier>) -> Option<Modifier> {
    match m {
        Some(m) => Some(*m),
        None => None,
    }
}

impl<'a> View for DieRoll<'a> {
    type V = RollView;

    open spec fn view(&self) -> RollView {
        RollView {
            val: self.val,
            added_by: modifier_of(self.added_by),
            dropped_by: modifier_of(self.dropped_by),
        }
    }
}

/// Whether `v` is a value that a die of `sides` sides can show: a die of no sides
/// shows 0, any other die a value from 1 to its number of sides.
pub open spec fn die_value_ok(sides: u8, v: u8) -> bool {
    if sides == 0 {
        v == 0
    } else {
        1 <= v <= sides
    }
}

/// Whether every value of `draws` is one that a die of `sides` sides can show.
pub open spec fn draws_ok(sides: u8, draws: Seq<u8>) -> bool {
    forall|i: int| 0 <= i < draws.len() ==> die_value_ok(sides, #[trigger] draws[i])
}

/// The dice of a fresh roll, showing in order the values `vals`.
pub open spec fn original_rolls(vals: Seq<u8>) -> Seq<RollView> {
    Seq::new(vals.len(), |i: int| RollView { val: vals[i], added_by: None, dropped_by: None })
}

/// The sum of the values of the dice that have not been dropped.
pub open spec fn live_total(rolls: Seq<RollView>) -> nat
    decreases rolls.len(),
{
    if rolls.len() == 0 {
        0
    } else {
        live_total(rolls.drop_last()) + if rolls.last().live() {
            rolls.last().val as nat
        } else {
            0nat
        }
    }
}

/// How many of the dice have not been dropped.
pub open spec fn live_count(rolls: Seq<RollView>) -> nat
    decreases rolls.len(),
{
    if rolls.len() == 0 {
        0
    } else {
        live_count(rolls.drop_last()) + if rolls.last().live() {
            1nat
        } else {
            0nat
        }
    }
}

/// The total of a prefix of the dice is at most the total of all of them.
proof fn lemma_live_total_prefix(rolls: Seq<RollView>, i: int)
    requires
        0 <= i <= rolls.len(),
    ensures
        live_total(rolls.take(i)) <= live_total(rolls),
    decreases rolls.len(),
{
    if i < rolls.len() {
        assert(rolls.drop_last().take(i) =~= rolls.take(i));
        lemma_live_total_prefix(rolls.drop_last(), i);
    } else {
        assert(rolls.take(i) =~= rolls);
    }
}

/// Pushing a die pushes its view.
pub(crate) proof fn lemma_view_rolls_push<'a>(rolls: Seq<DieRoll<'a>>, r: DieRoll<'a>)
    ensures
        view_rolls(rolls.push(r)) == view_rolls(rolls).push(r@),
{
    assert(view_rolls(rolls.push(r)) =~= view_rolls(rolls).push(r@));
}

/// One more fresh die showing `v`.
pub(crate) proof fn lemma_original_rolls_push(vals: Seq<u8>, v: u8)
    ensures
        original_rolls(vals.push(v)) == original_rolls(vals).push(
            RollView { val: v, added_by: None, dropped_by: None },
        ),
{
    assert(original_rolls(vals.push(v)) =~= original_rolls(vals).push(
        RollView { val: v, added_by: None, dropped_by: None },
    ));
}

/// The views of a sequence of die rolls.
pub open spec fn view_rolls<'a>(rolls: Seq<DieRoll<'a>>) -> Seq<RollView> {
    Seq::new(rolls.len(), |i: int| rolls[i]@)
}

impl<'r> DieRoll<'r> {
    /// Marks this die roll as added by a given modifier.
    #[inline]
    pub fn add<'m: 'r>(&mut self, from: &'m Modifier)
        ensures
            final(self).val == old(self).val,
            final(self).added_by == Some(from),
            final(self).dropped_by == old(self).dropped_by,
    {
        self.added_by = Some(from);
    }

    /// Marks this die roll as dropped by a given modifier.
    #[inline]
    pub fn drop<'m: 'r>(&mut self, from: &'m Modifier)
        ensures
            final(self).val == old(self).val,
            final(self).added_by == old(self).added_by,
            final(self).dropped_by == Some(from),
    {
        self.dropped_by = Some(from);
    }

    /// Indicates whether this die roll was part of the original set (not added by a modifier).
    #[inline]
    pub fn is_original(&self) -> (res: bool)
        ensures
            res == (self.added_by is None),
    {
        self.added_by.is_none()
    }

    /// Indicates whether this die roll was been dropped by a modifier.
    #[inline]
    pub fn is_dropped(&self) -> (res: bool)
        ensures
            res == (self.dropped_by is Some),
    {
        self.dropped_by.is_some()
    }

    /// Creates a new DieRoll with the given value.
    pub fn new(val: u8) -> (res: Self)
        ensures
            res.val == val,
            res.added_by is None,
            res.dropped_by is None,
    {
        DieRoll { val, added_by: None, dropped_by: None }
    }

    /// Creates a new DieRoll with a random value using the default Rng.
    #[must_use]
    pub fn new_rand(max: u8) -> (res: Self)
        ensures
            die_value_ok(max, res.val),
            res.added_by is None,
            res.dropped_by is None,
    {
        let mut rng = new_rng();
        Self::new_rand_using_rng(max, &mut rng)
    }

    /// Creates a new DieRoll with a random value using the given Rng.
    #[must_use]
    pub fn new_rand_using_rng(max: u8, rng: &mut fastrand::Rng) -> (res: Self)
        ensures
            die_value_ok(max, res.val),
            res.added_by is None,
            res.dropped_by is None,
            max == 0 ==> *final(rng) == *old(rng),
            max >= 1 ==> *final(rng) != *old(rng),
    {
        Self::new(
            if max > 0 {
                rng_u8_in(rng, 1, max)
            } else {
                0
            },
        )
    }
}

/// A representation of the result from rolling a single set of [Dice]
#[derive(Debug, PartialEq, Eq)]
pub struct Rolled<'a> {
    /// Each individual die roll that was made
    pub rolls: Vec<DieRoll<'a>>,
    /// Dice that were rolled to produce this
    pub dice: &'a Dice,
}

impl<'a> Clone for Rolled<'a> {
    fn clone(&self) -> (res: Self)
        ensures
            res.dice == self.dice,
            res.rolls@ == self.rolls@,
    {
        let rolls = self.rolls.clone();
        assert(rolls@ =~= self.rolls@);
        Rolled { rolls, dice: self.dice }
    }
}

impl<'a> View for Rolled<'a> {
    type V = Seq<RollView>;

    open spec fn view(&self) -> Seq<RollView> {
        view_rolls(self.rolls@)
    }
}

impl<'r> DieRoll<'r> {
    /// Writes the die's value, followed by ` (d)` where it was dropped.
    pub fn to_string(&self) -> (res: String)
        ensures
            res@ == self@.text(),
    {
        proof {
            reveal_strlit(" (d)");
            assert(" (d)"@ =~= seq![' ', '(', 'd', ')']);
        }
        let mut s = String::new();
        push_decimal(&mut s, self.val as usize);
        if self.is_dropped() {
            s.append(" (d)");
        }
        assert(s@ =~= self@.text());
        s
    }
}

impl<'a> Rolled<'a> {
    /// Builds a string of the dice expression the roll is from and all of the individual rolled dice.
    ///
    /// Rolls that have been dropped are suffixed with `(d)`.
    ///
    /// If `max_rolls` is specified and there are more rolls than it, the output will be truncated and appended with
    /// "X more..." (where X is the remaining roll count past the max).
    ///
    /// Example output: `3d6kh2[6, 2 (d), 5]`
    pub fn describe(&self, max_rolls: Option<usize>) -> (res: String)
        ensures
            res@ == description(
                self.dice.text(),
                self@,
                match max_rolls {
                    Some(m) => m as nat,
                    None => usize::MAX as nat,
                },
            ),
    {
        proof {
            reveal_strlit("[");
            reveal_strlit("]");
            reveal_strlit(", ");
            reveal_strlit(" more...");
            assert("["@ =~= seq!['[']);
            assert("]"@ =~= seq![']']);
            assert(", "@ =~= seq![',', ' ']);
            assert(" more..."@ =~= seq![' ', 'm', 'o', 'r', 'e', '.', '.', '.']);
        }
        let ghost v = self@;
        let max_rolls = match max_rolls {
            Some(m) => m,
            None => usize::MAX,
        };
        let total_rolls = self.rolls.len();
        let truncated_rolls = if total_rolls > max_rolls {
            total_rolls - max_rolls
        } else {
            0
        };
        let shown = if total_rolls < max_rolls {
            total_rolls
        } else {
            max_rolls
        };
        let mut s = self.dice.to_string();
        s.append("[");
        let ghost head = s@;
        let mut i: usize = 0;
        while i < shown
            invariant
                v == self@,
                shown <= total_rolls,
                total_rolls == self.rolls.len(),
                i <= shown,
                ", "@ == seq![',', ' '],
                s@ == head + joined(v.take(i as int)),
            decreases shown - i,
        {
            let ghost prev = s@;
            if i > 0 {
                s.append(", ");
            }
            let t = self.rolls[i].to_string();
            s.append(t.as_str());
            proof {
                let p = v.take(i + 1);
                assert(p.drop_last() =~= v.take(i as int));
                assert(p.last() == v[i as int]);
                assert(t@ == v[i as int].text());
                if i == 0 {
                    assert(joined(p) == v[0].text());
                    assert(s@ =~= head + joined(p));
                } else {
                    assert(joined(p) == joined(v.take(i as int)) + seq![',', ' '] + v[i as int].text());
                    assert(s@ =~= head + joined(p));
                }
            }
            i = i + 1;
        }
        if truncated_rolls > 0 {
            s.append(", ");
            push_decimal(&mut s, truncated_rolls);
            s.append(" more...");
        }
        s.append("]");
        assert(s@ =~= description(self.dice.text(), v, max_rolls as nat));
        s
    }

    /// Describes the roll with all of its dice listed.
    pub fn to_string(&self) -> (res: String)
        ensures
            res@ == description(self.dice.text(), self@, usize::MAX as nat),
    {
        self.describe(None)
    }

    /// Totals all roll values.
    pub fn total(&self) -> (res: Result<u16, Error>)
        ensures
            live_total(self@) <= u16::MAX ==> res == Ok::<u16, Error>(live_total(self@) as u16),
            live_total(self@) > u16::MAX ==> res matches Err(Error::Overflow),
    {
        let ghost v = self@;
        let n = self.rolls.len();
        let mut sum: u16 = 0;
        let mut i: usize = 0;
        // Sum all rolls that haven't been dropped
        while i < n
            invariant
                n == self.rolls.len(),
                v == self@,
                i <= n,
                sum == live_total(v.take(i as int)),
            decreases n - i,
        {
            proof {
                assert(v.take(i + 1).drop_last() =~= v.take(i as int));
            }
            let r = &self.rolls[i];
            if !r.is_dropped() {
                match sum.checked_add(r.val as u16) {
                    Some(s) => {
                        sum = s;
                    },
                    None => {
                        proof {
                            lemma_live_total_prefix(v, i + 1);
                        }
                        return Err(Error::Overflow);
                    },
                }
            }
            i = i + 1;
        }
        proof {
            assert(v.take(n as int) =~= v);
        }
        Ok(sum)
    }
}

} // verus!
