use vstd::prelude::*;

use crate::condition::Condition;
use crate::modifier::Modifier;
use crate::error::Error;
use crate::rng::new_rng;
use crate::text::{decimal, push_decimal};
use crate::roll::{
    die_value_ok,
    draws_ok,
    lemma_original_rolls_push,
    lemma_view_rolls_push,
    original_rolls, view_rolls, DieRoll, RollView, Rolled};

verus! {

/// `Dice` are a single set of one or more rollable dice of a specific number of sides,
/// along with a collection of modifiers to apply to any resulting rolls from them.
#[derive(Debug, PartialEq, Eq, Hash)]
pub struct Dice {
    /// Number of dice to roll
    pub count: u8,
    /// Number of sides for each die
    pub sides: u8,
    /// Modifiers to apply to rolls from this set of dice
    pub modifiers: Vec<Modifier>,
}

impl Clone for Dice {
    fn clone(&self) -> (res: Self)
        ensures
            res.count == self.count,
            res.sides == self.sides,
            res.modifiers@ == self.modifiers@,
    {
        let modifiers = self.modifiers.clone();
        assert(modifiers@ =~= self.modifiers@);
        Dice { count: self.count, sides: self.sides, modifiers }
    }
}

impl Dice {
    /// Whether one of the modifiers is refused for these dice because it would roll without end.
    pub open spec fn refused(self) -> bool {
        exists|i: int| 0 <= i < self.modifiers@.len() && #[trigger] self.modifiers@[i].refused_for(self.sides)
    }

    /// The dice after the first `k` modifiers have been applied in order to `rolls`,
    /// when the dice that modifier `i` rolls show, in order, the values `draws[i]`.
    pub open spec fn modifiers_outcome(self, k: nat, rolls: Seq<RollView>, draws: Seq<Seq<u8>>) -> Option<
        Seq<RollView>,
    >
        decreases k,
    {
        if k == 0 {
            Some(rolls)
        } else {
            match self.modifiers_outcome((k - 1) as nat, rolls, draws) {
                Some(r) => self.modifiers@[k - 1].outcome(r, self.sides, draws[k - 1]),
                None => None,
            }
        }
    }

    /// Whether `rolls` is what rolling the dice gives when the dice show the values
    /// `vals` first and the modifiers' dice show the values `draws`.
    pub open spec fn rolls_to(self, rolls: Seq<RollView>, vals: Seq<u8>, draws: Seq<Seq<u8>>) -> bool {
        &&& vals.len() == self.count
        &&& draws_ok(self.sides, vals)
        &&& draws.len() == self.modifiers@.len()
        &&& forall|i: int| 0 <= i < draws.len() ==> draws_ok(self.sides, #[trigger] draws[i])
        &&& self.modifiers_outcome(self.modifiers@.len(), original_rolls(vals), draws) == Some(rolls)
    }

    /// Rolls the dice and applies all of its modifiers to the rolls using the default Rng.
    pub fn roll(&self) -> (res: Result<Rolled, Error>)
        ensures
            res is Err <==> self.refused(),
            res is Err ==> (res matches Err(Error::InfiniteRolls(d)) && d.same_as(*self)),
            res matches Ok(r) ==> r.dice == self && exists|vals: Seq<u8>, draws: Seq<Seq<u8>>|
                #[trigger] self.rolls_to(r@, vals, draws),
    {
        let mut rng = new_rng();
        self.roll_using_rng(&mut rng)
    }

    /// Rolls the dice and applies all of its modifiers to the rolls using the given Rng.
    pub fn roll_using_rng(&self, rng: &mut fastrand::Rng) -> (res: Result<Rolled, Error>)
        ensures
            res is Err <==> self.refused(),
            res is Err ==> (res matches Err(Error::InfiniteRolls(d)) && d.same_as(*self)),
            res matches Ok(r) ==> r.dice == self && exists|vals: Seq<u8>, draws: Seq<Seq<u8>>|
                #[trigger] self.rolls_to(r@, vals, draws),
    {
        // Roll the dice!
        let mut rolls: Vec<DieRoll> = Vec::with_capacity(self.count as usize);
        let ghost mut vals: Seq<u8> = Seq::empty();
        let mut i: u8 = 0;
        while i < self.count
            invariant
                i <= self.count,
                vals.len() == i,
                draws_ok(self.sides, vals),
                view_rolls(rolls@) == original_rolls(vals),
            decreases self.count - i,
        {
            let r = self.roll_single_using_rng(rng);
            proof {
                lemma_view_rolls_push(rolls@, r);
                lemma_original_rolls_push(vals, r.val);
                vals = vals.push(r.val);
            }
            rolls.push(r);
            i = i + 1;
        }
        // Apply all modifiers
        let mut rolled = Rolled { rolls, dice: self };
        let ghost mut draws: Seq<Seq<u8>> = Seq::empty();
        let n = self.modifiers.len();
        let mut m: usize = 0;
        while m < n
            invariant
                n == self.modifiers@.len(),
                m <= n,
                rolled.dice == self,
                vals.len() == self.count,
                draws_ok(self.sides, vals),
                draws.len() == m,
                forall|j: int| 0 <= j < m ==> draws_ok(self.sides, #[trigger] draws[j]),
                forall|j: int| 0 <= j < m ==> !(#[trigger] self.modifiers@[j].refused_for(self.sides)),
                self.modifiers_outcome(m as nat, original_rolls(vals), draws) == Some(rolled@),
            decreases n - m,
        {
            let modifier = &self.modifiers[m];
            let ghost prev = rolled@;
            match modifier.apply_using_rng(&mut rolled, rng) {
                Ok(()) => {},
                Err(e) => {
                    return Err(e);
                },
            }
            proof {
                let d = choose|d: Seq<u8>|
                    draws_ok(self.sides, d) && #[trigger] modifier.outcome(prev, self.sides, d) == Some(
                        rolled@,
                    );
                let ghost draws_prev = draws;
                draws = draws.push(d);
                assert(self.modifiers_outcome(m as nat, original_rolls(vals), draws) == Some(prev)) by {
                    lemma_outcome_prefix(*self, m as nat, original_rolls(vals), draws_prev, draws);
                }
            }
            m = m + 1;
        }
        assert(self.rolls_to(rolled@, vals, draws));
        let res: Result<Rolled, Error> = Ok(rolled);
        assert(res matches Ok(r) && r@ == rolled@ && r.dice == self);
        res
    }

    /// Whether two sets of dice have the same count, sides and modifiers.
    pub open spec fn same_as(self, other: Dice) -> bool {
        &&& self.count == other.count
        &&& self.sides == other.sides
        &&& self.modifiers@ == other.modifiers@
    }

    /// Rolls a single die (with the same number of sides as the dice in this set)
    /// with no modifiers using the default Rng.
    #[must_use]
    pub fn roll_single(&self) -> (res: DieRoll)
        ensures
            die_value_ok(self.sides, res.val),
            res.added_by is None,
            res.dropped_by is None,
    {
        DieRoll::new_rand(self.sides)
    }

    /// Rolls a single die (with the same number of sides as the dice in this set)
    /// with no modifiers using the given Rng.
    #[must_use]
    pub fn roll_single_using_rng(&self, rng: &mut fastrand::Rng) -> (res: DieRoll)
        ensures
            die_value_ok(self.sides, res.val),
            res.added_by is None,
            res.dropped_by is None,
            self.sides == 0 ==> *final(rng) == *old(rng),
            self.sides >= 1 ==> *final(rng) != *old(rng),
    {
        DieRoll::new_rand_using_rng(self.sides, rng)
    }

    /// Creates a new set of dice matching this one but without any modifiers.
    #[must_use]
    pub fn plain(&self) -> (res: Self)
        ensures
            res.count == self.count,
            res.sides == self.sides,
            res.modifiers@ == Seq::<Modifier>::empty(),
    {
        Self::new(self.count, self.sides)
    }

    /// Creates a new set of dice with a given count and number of sides.
    #[must_use]
    pub fn new(count: u8, sides: u8) -> (res: Self)
        ensures
            res.count == count,
            res.sides == sides,
            res.modifiers@ == Seq::<Modifier>::empty(),
    {
        Self { count, sides, modifiers: Vec::new() }
    }

    /// Creates a new dice builder.
    #[must_use]
    pub fn builder() -> (res: Builder)
        ensures
            res.inner().count == 1,
            res.inner().sides == 20,
            res.inner().modifiers@ == Seq::<Modifier>::empty(),
    {
        Builder::default()
    }
}

impl Default for Dice {
    fn default() -> (res: Self)
        ensures
            res.count == 1,
            res.sides == 20,
            res.modifiers@ == Seq::<Modifier>::empty(),
    {
        Self::new(1, 20)
    }
}

/// The modifiers in dice notation, one after another.
pub open spec fn modifiers_text(mods: Seq<Modifier>) -> Seq<char>
    decreases mods.len(),
{
    if mods.len() == 0 {
        Seq::empty()
    } else {
        modifiers_text(mods.drop_last()) + mods.last().text()
    }
}

impl Dice {
    /// The dice in dice notation: count, `d`, sides, then the modifiers.
    pub open spec fn text(self) -> Seq<char> {
        decimal(self.count as nat) + seq!['d'] + decimal(self.sides as nat) + modifiers_text(
            self.modifiers@,
        )
    }

    /// Writes the dice in dice notation, such as `4d6kh3`.
    pub fn to_string(&self) -> (res: String)
        ensures
            res@ == self.text(),
    {
        proof {
            reveal_strlit("d");
            assert("d"@ =~= seq!['d']);
        }
        let mut s = String::new();
        push_decimal(&mut s, self.count as usize);
        s.append("d");
        push_decimal(&mut s, self.sides as usize);
        let ghost head = s@;
        let n = self.modifiers.len();
        let mut i: usize = 0;
        while i < n
            invariant
                n == self.modifiers@.len(),
                i <= n,
                s@ == head + modifiers_text(self.modifiers@.take(i as int)),
            decreases n - i,
        {
            let m = self.modifiers[i].to_string();
            s.append(m.as_str());
            proof {
                assert(self.modifiers@.take(i + 1).drop_last() =~= self.modifiers@.take(i as int));
            }
            i = i + 1;
        }
        assert(self.modifiers@.take(n as int) =~= self.modifiers@);
        assert(s@ =~= self.text());
        s
    }
}

/// The outcome of the first `k` modifiers depends only on the draws of those modifiers.
proof fn lemma_outcome_prefix(dice: Dice, k: nat, rolls: Seq<RollView>, a: Seq<Seq<u8>>, b: Seq<Seq<u8>>)
    requires
        k <= a.len(),
        k <= b.len(),
        forall|i: int| 0 <= i < k ==> a[i] == b[i],
    ensures
        dice.modifiers_outcome(k, rolls, a) == dice.modifiers_outcome(k, rolls, b),
    decreases k,
{
    if k > 0 {
        lemma_outcome_prefix(dice, (k - 1) as nat, rolls, a, b);
    }
}

/// Builds [Dice] with a fluent interface
#[derive(Debug)]
pub struct Builder(Dice);

impl Clone for Builder {
    fn clone(&self) -> (res: Self)
        ensures
            res.inner().same_as(self.inner()),
    {
        Builder(self.0.clone())
    }
}

impl Default for Builder {
    fn default() -> (res: Self)
        ensures
            res.inner().count == 1,
            res.inner().sides == 20,
            res.inner().modifiers@ == Seq::<Modifier>::empty(),
    {
        Builder(Dice::default())
    }
}

impl Builder {
    /// The dice that the builder holds so far.
    pub closed spec fn inner(self) -> Dice {
        self.0
    }

    /// Sets the number of dice to roll.
    pub fn count(self, count: u8) -> (res: Self)
        ensures
            res.inner().count == count,
            res.inner().sides == self.inner().sides,
            res.inner().modifiers@ == self.inner().modifiers@,
    {
        let mut b = self;
        b.0.count = count;
        b
    }

    /// Sets the number of sides per die.
    pub fn sides(self, sides: u8) -> (res: Self)
        ensures
            res.inner().count == self.inner().count,
            res.inner().sides == sides,
            res.inner().modifiers@ == self.inner().modifiers@,
    {
        let mut b = self;
        b.0.sides = sides;
        b
    }

    /// Adds a reroll modifier to the dice.
    pub fn reroll(self, cond: Condition, recurse: bool) -> (res: Self)
        ensures
            res.inner().count == self.inner().count,
            res.inner().sides == self.inner().sides,
            res.inner().modifiers@ == self.inner().modifiers@.push(Modifier::Reroll(cond, recurse)),
    {
        let mut b = self;
        b.0.modifiers.push(Modifier::Reroll(cond, recurse));
        b
    }

    /// Adds an exploding modifier to the dice.
    pub fn explode(self, cond: Option<Condition>, recurse: bool) -> (res: Self)
        ensures
            res.inner().count == self.inner().count,
            res.inner().sides == self.inner().sides,
            res.inner().modifiers@ == self.inner().modifiers@.push(Modifier::Explode(cond, recurse)),
    {
        let mut b = self;
        b.0.modifiers.push(Modifier::Explode(cond, recurse));
        b
    }

    /// Adds a keep highest modifier to the dice.
    pub fn keep_high(self, count: u8) -> (res: Self)
        ensures
            res.inner().count == self.inner().count,
            res.inner().sides == self.inner().sides,
            res.inner().modifiers@ == self.inner().modifiers@.push(Modifier::KeepHigh(count)),
    {
        let mut b = self;
        b.0.modifiers.push(Modifier::KeepHigh(count));
        b
    }

    /// Adds a keep lowest modifier to the dice.
    pub fn keep_low(self, count: u8) -> (res: Self)
        ensures
            res.inner().count == self.inner().count,
            res.inner().sides == self.inner().sides,
            res.inner().modifiers@ == self.inner().modifiers@.push(Modifier::KeepLow(count)),
    {
        let mut b = self;
        b.0.modifiers.push(Modifier::KeepLow(count));
        b
    }

    /// Finalizes the dice.
    pub fn build(self) -> (res: Dice)
        ensures
            res == self.inner(),
    {
        self.0
    }
}

} // verus!
