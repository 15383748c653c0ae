use vstd::prelude::*;
use vstd::relations::injective_on;
use vstd::set_lib::*;

use crate::condition::Condition;
use crate::modifier::{
    added_roll,
    added_rolls,
    dropped,
    explode_rounds,
    explodes,
    explosion_count,
    keep_result,
    mark_rerolled,
    outranking,
    outranks,
    rank,
    reroll_rounds,
    reroll_target,
    reroll_target_count,
    Modifier,
};
use crate::dice::{modifiers_text, Dice};
use crate::roll::{
    description,
    die_value_ok,
    draws_ok,
    joined,
    live_count,
    live_total,
    original_rolls,
    RollView,
};
use crate::text::decimal;

verus! {

// ---------------------------------------------------------------------------
// Counting lemmas
proof fn lemma_reroll_target_count_zero(rolls: Seq<RollView>, c: Condition)
    requires
        reroll_target_count(rolls, c) == 0,
    ensures
        forall|i: int| 0 <= i < rolls.len() ==> !reroll_target(#[trigger] rolls[i], c),
    decreases rolls.len(),
{
    if rolls.len() > 0 {
        lemma_reroll_target_count_zero(rolls.drop_last(), c);
        assert forall|i: int| 0 <= i < rolls.len() implies !reroll_target(#[trigger] rolls[i], c) by {
            if i < rolls.len() - 1 {
                assert(rolls.drop_last()[i] == rolls[i]);
            }
        }
    }
}

proof fn lemma_live_count_add(a: Seq<RollView>, b: Seq<RollView>)
    ensures
        live_count(a + b) == live_count(a) + live_count(b),
    decreases b.len(),
{
    if b.len() == 0 {
        assert(a + b =~= a);
    } else {
        assert((a + b).drop_last() =~= a + b.drop_last());
        assert((a + b).last() == b.last());
        lemma_live_count_add(a, b.drop_last());
    }
}

proof fn lemma_live_count_mark(rolls: Seq<RollView>, c: Condition, m: Modifier)
    ensures
        live_count(mark_rerolled(rolls, c, m)) + reroll_target_count(rolls, c) == live_count(rolls),
    decreases rolls.len(),
{
    if rolls.len() > 0 {
        assert(mark_rerolled(rolls, c, m).drop_last() =~= mark_rerolled(rolls.drop_last(), c, m));
        lemma_live_count_mark(rolls.drop_last(), c, m);
    }
}

proof fn lemma_live_count_added(vals: Seq<u8>, m: Modifier)
    ensures
        live_count(added_rolls(vals, m)) == vals.len(),
    decreases vals.len(),
{
    if vals.len() > 0 {
        assert(added_rolls(vals, m).drop_last() =~= added_rolls(vals.drop_last(), m));
        lemma_live_count_added(vals.drop_last(), m);
    }
}

proof fn lemma_explosion_count_add(a: Seq<RollView>, b: Seq<RollView>, c: Option<Condition>, sides: u8)
    ensures
        explosion_count(a + b, c, sides) == explosion_count(a, c, sides) + explosion_count(b, c, sides),
    decreases b.len(),
{
    if b.len() == 0 {
        assert(a + b =~= a);
    } else {
        assert((a + b).drop_last() =~= a + b.drop_last());
        assert((a + b).last() == b.last());
        lemma_explosion_count_add(a, b.drop_last(), c, sides);
    }
}

// ---------------------------------------------------------------------------
// Rerolls
proof fn lemma_recursive_reroll_clears(
    rolls: Seq<RollView>,
    c: Condition,
    m: Modifier,
    draws: Seq<u8>,
    after: Seq<RollView>,
)
    requires
        reroll_rounds(rolls, c, true, m, draws) == Some(after),
    ensures
        forall|i: int| 0 <= i < after.len() ==> !reroll_target(#[trigger] after[i], c),
    decreases draws.len(),
{
    let k = reroll_target_count(rolls, c);
    if k == 0 {
        lemma_reroll_target_count_zero(rolls, c);
    } else {
        let next = mark_rerolled(rolls, c, m) + added_rolls(draws.take(k as int), m);
        lemma_recursive_reroll_clears(next, c, m, draws.skip(k as int), after);
    }
}

/// A recursive reroll leaves no live die that meets its condition: it rerolls
/// "until the rerolled die no longer meets the condition".
pub proof fn law_recursive_reroll_leaves_no_match(
    m: Modifier,
    rolls: Seq<RollView>,
    sides: u8,
    draws: Seq<u8>,
    after: Seq<RollView>,
)
    requires
        m matches Modifier::Reroll(_, true),
        m.outcome(rolls, sides, draws) == Some(after),
    ensures
        forall|i: int|
            0 <= i < after.len() && (#[trigger] after[i]).live() ==> !m.triggers_on(
                after[i].val,
                sides,
            ),
        forall|i: int|
            0 <= i < after.len() && (#[trigger] after[i]).dropped_by is None ==> !m->Reroll_0.holds(
                after[i].val,
            ),
{
    if let Modifier::Reroll(c, _) = m {
        lemma_recursive_reroll_clears(rolls, c, m, draws, after);
    }
}

proof fn lemma_reroll_live_count(
    rolls: Seq<RollView>,
    c: Condition,
    recurse: bool,
    m: Modifier,
    draws: Seq<u8>,
    after: Seq<RollView>,
)
    requires
        reroll_rounds(rolls, c, recurse, m, draws) == Some(after),
    ensures
        live_count(after) == live_count(rolls),
    decreases draws.len(),
{
    let k = reroll_target_count(rolls, c);
    if k > 0 {
        let vals = draws.take(k as int);
        let next = mark_rerolled(rolls, c, m) + added_rolls(vals, m);
        lemma_live_count_add(mark_rerolled(rolls, c, m), added_rolls(vals, m));
        lemma_live_count_mark(rolls, c, m);
        lemma_live_count_added(vals, m);
        if recurse {
            lemma_reroll_live_count(next, c, recurse, m, draws.skip(k as int), after);
        }
    }
}

/// A reroll replaces each die that it drops by one new die, so the number of
/// live dice stays the same.
pub proof fn law_reroll_keeps_live_count(
    m: Modifier,
    rolls: Seq<RollView>,
    sides: u8,
    draws: Seq<u8>,
    after: Seq<RollView>,
)
    requires
        m is Reroll,
        m.outcome(rolls, sides, draws) == Some(after),
    ensures
        live_count(after) == live_count(rolls),
{
    if let Modifier::Reroll(c, recurse) = m {
        lemma_reroll_live_count(rolls, c, recurse, m, draws, after);
    }
}

// ---------------------------------------------------------------------------
// Explosions
proof fn lemma_explode_rounds_shape(
    rolls: Seq<RollView>,
    n: nat,
    c: Option<Condition>,
    sides: u8,
    recurse: bool,
    m: Modifier,
    draws: Seq<u8>,
    after: Seq<RollView>,
)
    requires
        explode_rounds(rolls, n, c, sides, recurse, m, draws) == Some(after),
    ensures
        after.len() >= rolls.len(),
        after.take(rolls.len() as int) == rolls,
        after.skip(rolls.len() as int) == added_rolls(draws, m),
        draws.len() == n + if recurse {
            explosion_count(added_rolls(draws, m), c, sides)
        } else {
            0
        },
    decreases draws.len(),
{
    if n == 0 {
        assert(draws =~= Seq::<u8>::empty());
        assert(after.take(rolls.len() as int) =~= rolls);
        assert(after.skip(rolls.len() as int) =~= added_rolls(draws, m));
    } else {
        let vals = draws.take(n as int);
        let rest = draws.skip(n as int);
        let batch = added_rolls(vals, m);
        let next = if recurse {
            explosion_count(batch, c, sides)
        } else {
            0
        };
        lemma_explode_rounds_shape(rolls + batch, next, c, sides, recurse, m, rest, after);
        assert(after.take(rolls.len() as int) =~= (rolls + batch).take(rolls.len() as int));
        assert((rolls + batch).take(rolls.len() as int) =~= rolls);
        assert(draws =~= vals + rest);
        assert(added_rolls(draws, m) =~= batch + added_rolls(rest, m));
        let l = rolls.len() as int;
        assert(after.take(l + n) == rolls + batch);
        assert forall|j: int| 0 <= j < after.len() - l implies after.skip(l)[j] == (batch
            + after.skip(l + n))[j] by {
            if j < n {
                assert(after.take(l + n)[l + j] == (rolls + batch)[l + j]);
            }
        }
        assert(after.skip(l) =~= batch + after.skip((rolls + batch).len() as int));
        lemma_explosion_count_add(batch, added_rolls(rest, m), c, sides);
    }
}

/// An explosion keeps every die as it was and adds new live dice after them, one
/// for each die that explodes and, where it recurses, one more for each added die
/// that explodes in turn.
pub proof fn law_explosion_adds_dice(
    m: Modifier,
    rolls: Seq<RollView>,
    sides: u8,
    draws: Seq<u8>,
    after: Seq<RollView>,
)
    requires
        m is Explode,
        m.outcome(rolls, sides, draws) == Some(after),
    ensures
        after.len() >= rolls.len(),
        after.take(rolls.len() as int) == rolls,
        forall|i: int|
            rolls.len() <= i < after.len() ==> #[trigger] after[i] == added_roll(
                after[i].val,
                m,
            ),
        ({
            let added = after.skip(rolls.len() as int);
            let c = m->Explode_0;
            added.len() == explosion_count(rolls, c, sides) + if m->Explode_1 {
                explosion_count(added, c, sides)
            } else {
                0
            }
        }),
{
    if let Modifier::Explode(c, recurse) = m {
        lemma_explode_rounds_shape(
            rolls,
            explosion_count(rolls, c, sides),
            c,
            sides,
            recurse,
            m,
            draws,
            after,
        );
        assert forall|i: int| rolls.len() <= i < after.len() implies #[trigger] after[i]
            == added_roll(after[i].val, m) by {
            let j = i - rolls.len();
            assert(after.skip(rolls.len() as int).len() == added_rolls(draws, m).len());
            assert(after[i] == after.skip(rolls.len() as int)[j]);
            assert(after.skip(rolls.len() as int)[j] == added_rolls(draws, m)[j]);
            assert(added_rolls(draws, m)[j] == added_roll(draws[j], m));
        }
    }
}

// ---------------------------------------------------------------------------
// Refusal

/// For dice with at least one side, a reroll or explosion is refused exactly when
/// it is recursive and every value the die can show would trigger it again.
pub proof fn law_refusal_is_exact(m: Modifier, sides: u8)
    requires
        sides >= 1,
    ensures
        m.refused_for(sides) <==> (m.is_recursive() && forall|v: u8|
            die_value_ok(sides, v) ==> #[trigger] m.triggers_on(v, sides)),
{
    if !m.refused_for(sides) && m.is_recursive() {
        // a value the die can show that does not trigger the modifier
        let v: u8 = match m {
            Modifier::Reroll(c, _) | Modifier::Explode(Some(c), _) => match c {
                Condition::Eq(o) => if o == 1 {
                    2
                } else {
                    1
                },
                Condition::Gt(_) => 1,
                Condition::Gte(_) => 1,
                Condition::Lt(_) => sides,
                Condition::Lte(_) => sides,
            },
            Modifier::Explode(None, _) => 1,
            _ => 1,
        };
        assert(die_value_ok(sides, v) && !m.triggers_on(v, sides));
    }
}

// ---------------------------------------------------------------------------
// Conditions

/// Reading a condition back from its symbol and value gives the same condition.
pub proof fn law_symbol_round_trip(c: Condition)
    ensures
        Condition::for_symbol(c.symbol_view(), c.operand()) == Some(c),
{
    assert(seq!['>'] != seq!['=']) by {
        assert(seq!['>'][0] != seq!['='][0]);
    }
    assert(seq!['>', '='] != seq!['=']);
    assert(seq!['>', '='].len() != seq!['>'].len());
    assert(seq!['<'] != seq!['=']) by {
        assert(seq!['<'][0] != seq!['='][0]);
    }
    assert(seq!['<'] != seq!['>']) by {
        assert(seq!['<'][0] != seq!['>'][0]);
    }
    assert(seq!['<'] != seq!['>', '=']);
    assert(seq!['<', '='] != seq!['=']);
    assert(seq!['<', '='] != seq!['>']);
    assert(seq!['<', '='].len() != seq!['<'].len());
    assert(seq!['<', '='] != seq!['>', '=']) by {
        assert(seq!['<', '='][0] != seq!['>', '='][0]);
    }
}

// ---------------------------------------------------------------------------
// Existing dice

proof fn lemma_reroll_keeps_existing(
    rolls: Seq<RollView>,
    c: Condition,
    recurse: bool,
    m: Modifier,
    draws: Seq<u8>,
    after: Seq<RollView>,
)
    requires
        reroll_rounds(rolls, c, recurse, m, draws) == Some(after),
    ensures
        after.len() >= rolls.len(),
        forall|i: int|
            0 <= i < rolls.len() ==> #[trigger] after[i] == rolls[i] || (rolls[i].live()
                && after[i] == dropped(rolls[i], m)),
        forall|i: int| rolls.len() <= i < after.len() ==> (#[trigger] after[i]).added_by == Some(m),
    decreases draws.len(),
{
    let k = reroll_target_count(rolls, c);
    if k > 0 {
        let next = mark_rerolled(rolls, c, m) + added_rolls(draws.take(k as int), m);
        assert forall|i: int| 0 <= i < rolls.len() implies #[trigger] next[i] == rolls[i] || (
        rolls[i].live() && next[i] == dropped(rolls[i], m)) by {
            assert(next[i] == mark_rerolled(rolls, c, m)[i]);
        }
        if recurse {
            lemma_reroll_keeps_existing(next, c, recurse, m, draws.skip(k as int), after);
            assert forall|i: int| 0 <= i < rolls.len() implies #[trigger] after[i] == rolls[i] || (
            rolls[i].live() && after[i] == dropped(rolls[i], m)) by {
                assert(after[i] == next[i] || (next[i].live() && after[i] == dropped(next[i], m)));
                assert(next[i] == rolls[i] || (rolls[i].live() && next[i] == dropped(rolls[i], m)));
            }
            assert forall|i: int| rolls.len() <= i < after.len() implies (
            #[trigger] after[i]).added_by == Some(m) by {
                if i < next.len() {
                    assert(after[i] == next[i] || (next[i].live() && after[i] == dropped(next[i], m)));
                    assert(next[i] == added_rolls(draws.take(k as int), m)[i - rolls.len()]);
                }
            }
        } else {
            assert forall|i: int| rolls.len() <= i < after.len() implies (
            #[trigger] after[i]).added_by == Some(m) by {
                assert(after[i] == added_rolls(draws.take(k as int), m)[i - rolls.len()]);
            }
        }
    }
}

/// A modifier never changes the value of a die already rolled: it leaves each such
/// die as it was or marks a live one as dropped by itself, and every die that comes
/// after them is one it added.
pub proof fn law_modifiers_keep_existing_dice(
    m: Modifier,
    rolls: Seq<RollView>,
    sides: u8,
    draws: Seq<u8>,
    after: Seq<RollView>,
)
    requires
        m.outcome(rolls, sides, draws) == Some(after),
    ensures
        after.len() >= rolls.len(),
        forall|i: int|
            0 <= i < rolls.len() ==> #[trigger] after[i] == rolls[i] || (rolls[i].live()
                && after[i] == dropped(rolls[i], m)),
        forall|i: int| rolls.len() <= i < after.len() ==> (#[trigger] after[i]).added_by == Some(m),
{
    match m {
        Modifier::Reroll(c, recurse) => {
            lemma_reroll_keeps_existing(rolls, c, recurse, m, draws, after);
        },
        Modifier::Explode(c, recurse) => {
            law_explosion_adds_dice(m, rolls, sides, draws, after);
            assert forall|i: int| 0 <= i < rolls.len() implies #[trigger] after[i] == rolls[i] by {
                assert(after.take(rolls.len() as int)[i] == after[i]);
            }
            assert forall|i: int| rolls.len() <= i < after.len() implies (
            #[trigger] after[i]).added_by == Some(m) by {
                assert(after[i] == added_roll(after[i].val, m));
            }
        },
        Modifier::KeepHigh(_) | Modifier::KeepLow(_) => {
        },
    }
}

// ---------------------------------------------------------------------------
// Keeping dice

/// The indices of the live dice.
spec fn live_set(rolls: Seq<RollView>) -> Set<int> {
    set_int_range(0, rolls.len() as int).filter(|i: int| rolls[i].live())
}

proof fn lemma_live_set_len(rolls: Seq<RollView>)
    ensures
        live_set(rolls).finite(),
        live_set(rolls).len() == live_count(rolls),
    decreases rolls.len(),
{
    lemma_int_range(0, rolls.len() as int);
    set_int_range(0, rolls.len() as int).lemma_len_filter(|i: int| rolls[i].live());
    if rolls.len() == 0 {
        assert(live_set(rolls) =~= Set::<int>::empty());
    } else {
        let r = rolls.drop_last();
        let last = rolls.len() - 1;
        lemma_live_set_len(r);
        if rolls.last().live() {
            assert(live_set(rolls) =~= live_set(r).insert(last));
        } else {
            assert(live_set(rolls) =~= live_set(r));
        }
    }
}

proof fn lemma_outranking_finite(rolls: Seq<RollView>, i: int, high: bool)
    ensures
        outranking(rolls, i, high, rolls.len() as int).finite(),
{
    lemma_int_range(0, rolls.len() as int);
    set_int_range(0, rolls.len() as int).lemma_len_filter(
        |j: int| rolls[j].live() && outranks(rolls, j, i, high),
    );
}

/// A live die that comes before another has a smaller rank.
proof fn lemma_rank_strict(rolls: Seq<RollView>, i: int, j: int, high: bool)
    requires
        0 <= i < rolls.len(),
        0 <= j < rolls.len(),
        rolls[j].live(),
        outranks(rolls, j, i, high),
    ensures
        rank(rolls, j, high) < rank(rolls, i, high),
{
    let n = rolls.len() as int;
    let oj = outranking(rolls, j, high, n);
    let oi = outranking(rolls, i, high, n);
    lemma_outranking_finite(rolls, i, high);
    lemma_outranking_finite(rolls, j, high);
    assert(oj.insert(j).subset_of(oi));
    assert(!oj.contains(j));
    lemma_len_subset(oj.insert(j), oi);
}

/// The rank of a live die is less than the number of live dice.
proof fn lemma_rank_bound(rolls: Seq<RollView>, i: int, high: bool)
    requires
        0 <= i < rolls.len(),
        rolls[i].live(),
    ensures
        rank(rolls, i, high) < live_set(rolls).len(),
{
    lemma_live_set_len(rolls);
    let oi = outranking(rolls, i, high, rolls.len() as int);
    assert(oi.subset_of(live_set(rolls).remove(i)));
    lemma_len_subset(oi, live_set(rolls).remove(i));
}

/// Keeping the `n` highest or lowest dice leaves `n` live dice, or all of them
/// where there were fewer.
pub proof fn law_keep_leaves_count(
    m: Modifier,
    rolls: Seq<RollView>,
    sides: u8,
    draws: Seq<u8>,
    after: Seq<RollView>,
)
    requires
        m is KeepHigh || m is KeepLow,
        m.outcome(rolls, sides, draws) == Some(after),
    ensures
        ({
            let n = if m is KeepHigh {
                m->KeepHigh_0
            } else {
                m->KeepLow_0
            };
            live_count(after) == if live_count(rolls) < n {
                live_count(rolls)
            } else {
                n as nat
            }
        }),
{
    let (n, high) = match m {
        Modifier::KeepHigh(n) => (n, true),
        Modifier::KeepLow(n) => (n, false),
        _ => (0u8, true),
    };
    assert(after == keep_result(rolls, n, high, m));
    let s = live_set(rolls);
    lemma_live_set_len(rolls);
    let l = s.len() as int;
    let f = |i: int| rank(rolls, i, high) as int;
    // ranks of the live dice are distinct
    assert(injective_on(f, s)) by {
        assert forall|x1: int, x2: int|
            s.contains(x1) && s.contains(x2) && #[trigger] f(x1) == #[trigger] f(x2) implies x1
            == x2 by {
            if x1 != x2 {
                if outranks(rolls, x1, x2, high) {
                    lemma_rank_strict(rolls, x2, x1, high);
                } else {
                    lemma_rank_strict(rolls, x1, x2, high);
                }
            }
        }
    }
    // so they are exactly 0 .. l
    let image = s.map(f);
    lemma_map_size(s, image, f);
    lemma_int_range(0, l);
    assert(image.subset_of(set_int_range(0, l))) by {
        assert forall|x: int| image.contains(x) implies set_int_range(0, l).contains(x) by {
            let i = choose|i: int| s.contains(i) && x == f(i);
            lemma_rank_bound(rolls, i, high);
        }
    }
    lemma_subset_equality(image, set_int_range(0, l));
    // the dice left live are those of rank below n
    let kept = s.filter(|i: int| rank(rolls, i, high) < n);
    s.lemma_len_filter(|i: int| rank(rolls, i, high) < n);
    assert(live_set(after) =~= kept);
    let bound = if l < n {
        l
    } else {
        n as int
    };
    let kimage = kept.map(f);
    assert(kimage =~= set_int_range(0, bound)) by {
        assert forall|x: int| set_int_range(0, bound).contains(x) implies kimage.contains(x) by {
            assert(image.contains(x));
            let i = choose|i: int| s.contains(i) && x == f(i);
            assert(kept.contains(i));
        }
    }
    lemma_map_size(kept, kimage, f);
    lemma_int_range(0, bound);
    lemma_live_set_len(after);
}

/// After keeping the highest dice, every die left live is at least as high as every
/// die dropped by the keep; after keeping the lowest, at most as high.
pub proof fn law_keep_keeps_extremes(
    m: Modifier,
    rolls: Seq<RollView>,
    sides: u8,
    draws: Seq<u8>,
    after: Seq<RollView>,
)
    requires
        m is KeepHigh || m is KeepLow,
        m.outcome(rolls, sides, draws) == Some(after),
    ensures
        forall|i: int, j: int|
            0 <= i < after.len() && 0 <= j < after.len() && (#[trigger] after[i]).live()
                && rolls[j].live() && !(#[trigger] after[j]).live() ==> if m is KeepHigh {
                after[i].val >= after[j].val
            } else {
                after[i].val <= after[j].val
            },
{
    let (n, high) = match m {
        Modifier::KeepHigh(n) => (n, true),
        Modifier::KeepLow(n) => (n, false),
        _ => (0u8, true),
    };
    assert(after == keep_result(rolls, n, high, m));
    assert forall|i: int, j: int|
        0 <= i < after.len() && 0 <= j < after.len() && (#[trigger] after[i]).live()
            && rolls[j].live() && !(#[trigger] after[j]).live() implies if m is KeepHigh {
        after[i].val >= after[j].val
    } else {
        after[i].val <= after[j].val
    } by {
        assert(rank(rolls, i, high) < n);
        assert(rank(rolls, j, high) >= n);
        if outranks(rolls, j, i, high) {
            lemma_rank_strict(rolls, i, j, high);
        }
    }
}

// ---------------------------------------------------------------------------
// Values of the dice

/// Whether every die shows a value that a die of `sides` sides can show.
pub open spec fn values_ok(rolls: Seq<RollView>, sides: u8) -> bool {
    forall|i: int| 0 <= i < rolls.len() ==> die_value_ok(sides, (#[trigger] rolls[i]).val)
}

proof fn lemma_added_values_ok(vals: Seq<u8>, m: Modifier, sides: u8)
    requires
        draws_ok(sides, vals),
    ensures
        values_ok(added_rolls(vals, m), sides),
{
    assert forall|i: int| 0 <= i < vals.len() implies die_value_ok(
        sides,
        (#[trigger] added_rolls(vals, m)[i]).val,
    ) by {
        assert(die_value_ok(sides, vals[i]));
    }
}

proof fn lemma_reroll_values_ok(
    rolls: Seq<RollView>,
    c: Condition,
    recurse: bool,
    m: Modifier,
    sides: u8,
    draws: Seq<u8>,
    after: Seq<RollView>,
)
    requires
        values_ok(rolls, sides),
        draws_ok(sides, draws),
        reroll_rounds(rolls, c, recurse, m, draws) == Some(after),
    ensures
        values_ok(after, sides),
    decreases draws.len(),
{
    let k = reroll_target_count(rolls, c);
    if k > 0 {
        let vals = draws.take(k as int);
        let rest = draws.skip(k as int);
        assert forall|i: int| 0 <= i < vals.len() implies die_value_ok(sides, #[trigger] vals[i]) by {
            assert(vals[i] == draws[i]);
        }
        assert forall|i: int| 0 <= i < rest.len() implies die_value_ok(sides, #[trigger] rest[i]) by {
            assert(rest[i] == draws[i + k]);
        }
        lemma_added_values_ok(vals, m, sides);
        let marked = mark_rerolled(rolls, c, m);
        let next = marked + added_rolls(vals, m);
        assert forall|i: int| 0 <= i < next.len() implies die_value_ok(sides, (#[trigger] next[i]).val) by {
            if i < rolls.len() {
                assert(next[i] == marked[i]);
                assert(marked[i].val == rolls[i].val);
            } else {
                assert(next[i] == added_rolls(vals, m)[i - rolls.len()]);
            }
        }
        if recurse {
            lemma_reroll_values_ok(next, c, recurse, m, sides, rest, after);
        }
    }
}

proof fn lemma_reroll_added_values(
    rolls: Seq<RollView>,
    c: Condition,
    recurse: bool,
    m: Modifier,
    sides: u8,
    draws: Seq<u8>,
    after: Seq<RollView>,
)
    requires
        draws_ok(sides, draws),
        reroll_rounds(rolls, c, recurse, m, draws) == Some(after),
    ensures
        after.len() >= rolls.len(),
        forall|j: int|
            rolls.len() <= j < after.len() ==> die_value_ok(sides, (#[trigger] after[j]).val),
    decreases draws.len(),
{
    lemma_reroll_keeps_existing(rolls, c, recurse, m, draws, after);
    let k = reroll_target_count(rolls, c);
    if k > 0 {
        let vals = draws.take(k as int);
        let rest = draws.skip(k as int);
        let next = mark_rerolled(rolls, c, m) + added_rolls(vals, m);
        assert forall|j: int|
            rolls.len() <= j < next.len() implies die_value_ok(sides, (#[trigger] next[j]).val) by {
            assert(next[j] == added_rolls(vals, m)[j - rolls.len()]);
            assert(vals[j - rolls.len()] == draws[j - rolls.len()]);
        }
        if recurse {
            assert forall|i: int| 0 <= i < rest.len() implies die_value_ok(sides, #[trigger] rest[i]) by {
                assert(rest[i] == draws[i + k]);
            }
            lemma_reroll_added_values(next, c, recurse, m, sides, rest, after);
            lemma_reroll_keeps_existing(next, c, recurse, m, rest, after);
            assert forall|j: int|
                rolls.len() <= j < after.len() implies die_value_ok(sides, (#[trigger] after[j]).val) by {
                if j < next.len() {
                    assert(after[j] == next[j] || (next[j].live() && after[j] == dropped(next[j], m)));
                    assert(die_value_ok(sides, next[j].val));
                }
            }
        }
    }
}

/// Every die that a modifier adds shows a value that a die of `sides` sides can
/// show, whatever the dice before it show, when the values it rolled are such values.
pub proof fn law_added_dice_show_valid_values(
    m: Modifier,
    rolls: Seq<RollView>,
    sides: u8,
    draws: Seq<u8>,
    after: Seq<RollView>,
)
    requires
        draws_ok(sides, draws),
        m.outcome(rolls, sides, draws) == Some(after),
    ensures
        after.len() >= rolls.len(),
        forall|j: int|
            rolls.len() <= j < after.len() ==> die_value_ok(sides, (#[trigger] after[j]).val),
{
    match m {
        Modifier::Reroll(c, recurse) => {
            lemma_reroll_added_values(rolls, c, recurse, m, sides, draws, after);
        },
        Modifier::Explode(c, recurse) => {
            lemma_explode_rounds_shape(
                rolls,
                explosion_count(rolls, c, sides),
                c,
                sides,
                recurse,
                m,
                draws,
                after,
            );
            assert forall|j: int|
                rolls.len() <= j < after.len() implies die_value_ok(sides, (#[trigger] after[j]).val) by {
                let i = j - rolls.len();
                assert(after.skip(rolls.len() as int).len() == added_rolls(draws, m).len());
                assert(after.skip(rolls.len() as int)[i] == after[j]);
                assert(added_rolls(draws, m)[i] == added_roll(draws[i], m));
                assert(die_value_ok(sides, draws[i]));
            }
        },
        Modifier::KeepHigh(_) | Modifier::KeepLow(_) => {
        },
    }
}

/// When every die shows a value that it can show, so does every die after a
/// modifier has rolled values that the dice can show.
pub proof fn law_modifiers_roll_valid_values(
    m: Modifier,
    rolls: Seq<RollView>,
    sides: u8,
    draws: Seq<u8>,
    after: Seq<RollView>,
)
    requires
        values_ok(rolls, sides),
        draws_ok(sides, draws),
        m.outcome(rolls, sides, draws) == Some(after),
    ensures
        values_ok(after, sides),
{
    match m {
        Modifier::Reroll(c, recurse) => {
            lemma_reroll_values_ok(rolls, c, recurse, m, sides, draws, after);
        },
        Modifier::Explode(c, recurse) => {
            law_explosion_adds_dice(m, rolls, sides, draws, after);
            lemma_explode_rounds_shape(
                rolls,
                explosion_count(rolls, c, sides),
                c,
                sides,
                recurse,
                m,
                draws,
                after,
            );
            lemma_added_values_ok(draws, m, sides);
            assert forall|i: int| 0 <= i < after.len() implies die_value_ok(
                sides,
                (#[trigger] after[i]).val,
            ) by {
                if i < rolls.len() {
                    assert(after.take(rolls.len() as int)[i] == after[i]);
                } else {
                    assert(after.skip(rolls.len() as int)[i - rolls.len()] == after[i]);
                }
            }
        },
        Modifier::KeepHigh(_) | Modifier::KeepLow(_) => {
            law_modifiers_keep_existing_dice(m, rolls, sides, draws, after);
        },
    }
}

proof fn lemma_modifiers_outcome(
    dice: Dice,
    k: nat,
    vals: Seq<u8>,
    draws: Seq<Seq<u8>>,
    after: Seq<RollView>,
)
    requires
        k <= dice.modifiers@.len(),
        k <= draws.len(),
        draws_ok(dice.sides, vals),
        forall|i: int| 0 <= i < draws.len() ==> draws_ok(dice.sides, #[trigger] draws[i]),
        dice.modifiers_outcome(k, original_rolls(vals), draws) == Some(after),
    ensures
        after.len() >= vals.len(),
        forall|i: int|
            0 <= i < vals.len() ==> (#[trigger] after[i]).val == vals[i] && after[i].added_by
                is None,
        forall|i: int| vals.len() <= i < after.len() ==> (#[trigger] after[i]).added_by is Some,
        values_ok(after, dice.sides),
    decreases k,
{
    let start = original_rolls(vals);
    if k == 0 {
        assert(after == start);
        assert forall|i: int| 0 <= i < after.len() implies die_value_ok(
            dice.sides,
            (#[trigger] after[i]).val,
        ) by {
            assert(die_value_ok(dice.sides, vals[i]));
        }
    } else {
        let prev = dice.modifiers_outcome((k - 1) as nat, start, draws).unwrap();
        lemma_modifiers_outcome(dice, (k - 1) as nat, vals, draws, prev);
        let m = dice.modifiers@[k - 1];
        law_modifiers_keep_existing_dice(m, prev, dice.sides, draws[k - 1], after);
        law_modifiers_roll_valid_values(m, prev, dice.sides, draws[k - 1], after);
        assert forall|i: int| 0 <= i < vals.len() implies (#[trigger] after[i]).val == vals[i]
            && after[i].added_by is None by {
            assert(prev[i].val == vals[i]);
        }
        assert forall|i: int| vals.len() <= i < after.len() implies (
        #[trigger] after[i]).added_by is Some by {
            if i < prev.len() {
                assert(prev[i].added_by is Some);
            }
        }
    }
}

/// Rolling dice gives first the `count` dice rolled, with the values they showed, and
/// after them only dice that modifiers added; every die shows a value that a die of
/// that many sides can show.
pub proof fn law_roll_shape(dice: Dice, rolls: Seq<RollView>, vals: Seq<u8>, draws: Seq<Seq<u8>>)
    requires
        dice.rolls_to(rolls, vals, draws),
    ensures
        rolls.len() >= dice.count,
        forall|i: int|
            0 <= i < dice.count ==> (#[trigger] rolls[i]).val == vals[i] && rolls[i].added_by
                is None,
        forall|i: int| dice.count <= i < rolls.len() ==> (#[trigger] rolls[i]).added_by is Some,
        values_ok(rolls, dice.sides),
{
    lemma_modifiers_outcome(dice, dice.modifiers@.len(), vals, draws, rolls);
}

// ---------------------------------------------------------------------------
// What the operations mean, stated over the fields of the dice

/// What a condition means for a die value.
pub proof fn law_condition_meaning(c: Condition, v: u8)
    ensures
        c.holds(v) <==> match c {
            Condition::Eq(o) => v == o,
            Condition::Gt(o) => v > o,
            Condition::Gte(o) => v >= o,
            Condition::Lt(o) => v < o,
            Condition::Lte(o) => v <= o,
        },
{
}

/// A condition is written as the symbol that reads back as the same kind of
/// condition, followed by its value in decimal.
pub proof fn law_condition_text(c: Condition)
    ensures
        ({
            let t = c.text();
            let d = decimal(c.operand() as nat);
            &&& t.len() >= d.len()
            &&& t.subrange(t.len() - d.len(), t.len() as int) == d
            &&& t.subrange(0, t.len() - d.len()) == c.symbol_view()
            &&& Condition::for_symbol(t.subrange(0, t.len() - d.len()), c.operand()) == Some(c)
        }),
{
    let t = c.text();
    let d = decimal(c.operand() as nat);
    assert(t.subrange(t.len() - d.len(), t.len() as int) =~= d);
    assert(t.subrange(0, t.len() - d.len()) =~= c.symbol_view());
    law_symbol_round_trip(c);
}

/// A die is written as its value in decimal, followed by ` (d)` exactly when some
/// modifier, whichever it is, dropped it.
pub proof fn law_die_text(r: RollView)
    ensures
        r.text() == decimal(r.val as nat) + if r.dropped_by is Some {
            seq![' ', '(', 'd', ')']
        } else {
            Seq::<char>::empty()
        },
{
}

/// The total counts every die that no modifier dropped, whether it was rolled first
/// or added by a modifier, and no other die.
pub proof fn law_total_counts_live_dice(rolls: Seq<RollView>, x: RollView)
    ensures
        live_total(Seq::<RollView>::empty()) == 0,
        live_total(rolls.push(x)) == live_total(rolls) + if x.dropped_by is None {
            x.val as nat
        } else {
            0nat
        },
{
    assert(rolls.push(x).drop_last() =~= rolls);
}

proof fn lemma_reroll_marks(
    rolls: Seq<RollView>,
    c: Condition,
    recurse: bool,
    m: Modifier,
    draws: Seq<u8>,
    after: Seq<RollView>,
)
    requires
        reroll_rounds(rolls, c, recurse, m, draws) == Some(after),
    ensures
        after.len() >= rolls.len(),
        forall|i: int|
            0 <= i < rolls.len() ==> #[trigger] after[i] == if rolls[i].dropped_by is None && c.holds(
                rolls[i].val,
            ) {
                RollView { val: rolls[i].val, added_by: rolls[i].added_by, dropped_by: Some(m) }
            } else {
                rolls[i]
            },
    decreases draws.len(),
{
    let k = reroll_target_count(rolls, c);
    if k == 0 {
        lemma_reroll_target_count_zero(rolls, c);
    } else {
        let next = mark_rerolled(rolls, c, m) + added_rolls(draws.take(k as int), m);
        assert forall|i: int| 0 <= i < rolls.len() implies #[trigger] next[i] == if rolls[i].dropped_by
            is None && c.holds(rolls[i].val) {
            RollView { val: rolls[i].val, added_by: rolls[i].added_by, dropped_by: Some(m) }
        } else {
            rolls[i]
        } by {
            assert(next[i] == mark_rerolled(rolls, c, m)[i]);
        }
        if recurse {
            lemma_reroll_marks(next, c, recurse, m, draws.skip(k as int), after);
            assert forall|i: int| 0 <= i < rolls.len() implies #[trigger] after[i] == if rolls[i].dropped_by
                is None && c.holds(rolls[i].val) {
                RollView { val: rolls[i].val, added_by: rolls[i].added_by, dropped_by: Some(m) }
            } else {
                rolls[i]
            } by {
                assert(after[i] == if next[i].dropped_by is None && c.holds(next[i].val) {
                    RollView { val: next[i].val, added_by: next[i].added_by, dropped_by: Some(m) }
                } else {
                    next[i]
                });
            }
        }
    }
}

/// A reroll drops exactly the dice present before it that no modifier had dropped
/// and whose value meets its condition, marking them as dropped by itself; it
/// leaves every other such die as it was.
pub proof fn law_reroll_drops_exactly_matching(
    m: Modifier,
    rolls: Seq<RollView>,
    sides: u8,
    draws: Seq<u8>,
    after: Seq<RollView>,
)
    requires
        m is Reroll,
        m.outcome(rolls, sides, draws) == Some(after),
    ensures
        after.len() >= rolls.len(),
        forall|i: int|
            0 <= i < rolls.len() ==> #[trigger] after[i] == if rolls[i].dropped_by is None
                && m->Reroll_0.holds(rolls[i].val) {
                RollView { val: rolls[i].val, added_by: rolls[i].added_by, dropped_by: Some(m) }
            } else {
                rolls[i]
            },
{
    if let Modifier::Reroll(c, recurse) = m {
        lemma_reroll_marks(rolls, c, recurse, m, draws, after);
    }
}

/// Whether an explosion on `c` fires on a die showing `v`: on the condition where
/// there is one, otherwise on the number of sides.
pub open spec fn explosion_fires(c: Option<Condition>, sides: u8, v: u8) -> bool {
    match c {
        Some(c) => c.holds(v),
        None => v == sides,
    }
}

proof fn lemma_explosion_count_set(rolls: Seq<RollView>, c: Option<Condition>, sides: u8)
    ensures
        explosion_count(rolls, c, sides) == set_int_range(0, rolls.len() as int).filter(
            |i: int| rolls[i].dropped_by is None && explosion_fires(c, sides, rolls[i].val),
        ).len(),
    decreases rolls.len(),
{
    let n = rolls.len() as int;
    let p = |i: int| rolls[i].dropped_by is None && explosion_fires(c, sides, rolls[i].val);
    lemma_int_range(0, n);
    set_int_range(0, n).lemma_len_filter(p);
    if n == 0 {
        assert(set_int_range(0, n).filter(p) =~= Set::<int>::empty());
    } else {
        let r = rolls.drop_last();
        let q = |i: int| r[i].dropped_by is None && explosion_fires(c, sides, r[i].val);
        lemma_explosion_count_set(r, c, sides);
        lemma_int_range(0, n - 1);
        set_int_range(0, n - 1).lemma_len_filter(q);
        if p(n - 1) {
            assert(set_int_range(0, n).filter(p) =~= set_int_range(0, n - 1).filter(q).insert(n - 1));
        } else {
            assert(set_int_range(0, n).filter(p) =~= set_int_range(0, n - 1).filter(q));
        }
    }
}

/// An explosion adds one die for each die present before it that no modifier had
/// dropped and that it fires on (by default, a die showing the number of sides),
/// and, where it recurses, one more for each added die that it fires on.
pub proof fn law_explosion_counts_firing_dice(
    m: Modifier,
    rolls: Seq<RollView>,
    sides: u8,
    draws: Seq<u8>,
    after: Seq<RollView>,
)
    requires
        m is Explode,
        m.outcome(rolls, sides, draws) == Some(after),
    ensures
        after.len() >= rolls.len(),
        ({
            let c = m->Explode_0;
            let added = after.skip(rolls.len() as int);
            let first = set_int_range(0, rolls.len() as int).filter(
                |i: int| rolls[i].dropped_by is None && explosion_fires(c, sides, rolls[i].val),
            ).len();
            let later = set_int_range(0, added.len() as int).filter(
                |k: int| explosion_fires(c, sides, added[k].val),
            ).len();
            added.len() == first + if m->Explode_1 {
                later
            } else {
                0
            }
        }),
{
    law_explosion_adds_dice(m, rolls, sides, draws, after);
    let c = m->Explode_0;
    let added = after.skip(rolls.len() as int);
    lemma_explosion_count_set(rolls, c, sides);
    lemma_explosion_count_set(added, c, sides);
    assert forall|k: int| 0 <= k < added.len() implies (#[trigger] added[k]).dropped_by is None by {
        assert(added[k] == after[rolls.len() + k]);
        assert(after[rolls.len() + k] == added_roll(after[rolls.len() + k].val, m));
    }
    assert(set_int_range(0, added.len() as int).filter(
        |k: int| added[k].dropped_by is None && explosion_fires(c, sides, added[k].val),
    ) =~= set_int_range(0, added.len() as int).filter(
        |k: int| explosion_fires(c, sides, added[k].val),
    ));
}

/// A die is live exactly when no modifier dropped it, whichever modifier added it.
pub proof fn law_live_means_not_dropped(r: RollView)
    ensures
        r.live() <==> r.dropped_by is None,
{
}

/// What each modifier fires on: a reroll or an explosion with a condition on the
/// condition, an explosion without one on the number of sides, a keep on nothing.
pub proof fn law_modifier_triggers(m: Modifier, v: u8, sides: u8)
    ensures
        m.triggers_on(v, sides) <==> match m {
            Modifier::Reroll(c, _) => c.holds(v),
            Modifier::Explode(Some(c), _) => c.holds(v),
            Modifier::Explode(None, _) => v == sides,
            Modifier::KeepHigh(_) | Modifier::KeepLow(_) => false,
        },
{
}

/// Among live dice of equal value, keeping the highest keeps the later ones and
/// keeping the lowest the earlier ones.
pub proof fn law_keep_ties(
    m: Modifier,
    rolls: Seq<RollView>,
    sides: u8,
    draws: Seq<u8>,
    after: Seq<RollView>,
)
    requires
        m is KeepHigh || m is KeepLow,
        m.outcome(rolls, sides, draws) == Some(after),
    ensures
        after.len() == rolls.len(),
        forall|i: int, j: int|
            0 <= i < after.len() && 0 <= j < after.len() && (#[trigger] after[i]).dropped_by is None
                && rolls[j].dropped_by is None && (#[trigger] after[j]).dropped_by is Some
                && rolls[i].val == rolls[j].val ==> if m is KeepHigh {
                j < i
            } else {
                i < j
            },
{
    let (n, high) = match m {
        Modifier::KeepHigh(n) => (n, true),
        Modifier::KeepLow(n) => (n, false),
        _ => (0u8, true),
    };
    assert(after == keep_result(rolls, n, high, m));
    assert forall|i: int, j: int|
        0 <= i < after.len() && 0 <= j < after.len() && (#[trigger] after[i]).dropped_by is None
            && rolls[j].dropped_by is None && (#[trigger] after[j]).dropped_by is Some
            && rolls[i].val == rolls[j].val implies if m is KeepHigh {
        j < i
    } else {
        i < j
    } by {
        assert(rank(rolls, i, high) < n);
        assert(rank(rolls, j, high) >= n);
        if outranks(rolls, j, i, high) {
            lemma_rank_strict(rolls, i, j, high);
        }
    }
}

/// How each modifier is written in dice notation.
pub proof fn law_modifier_text(m: Modifier)
    ensures
        m.text() == match m {
            Modifier::Reroll(c, false) => seq!['r'] + c.text(),
            Modifier::Reroll(c, true) => seq!['r', 'r'] + c.text(),
            Modifier::Explode(None, true) => seq!['x'],
            Modifier::Explode(None, false) => seq!['x', 'o'],
            Modifier::Explode(Some(c), true) => seq!['x'] + c.text(),
            Modifier::Explode(Some(c), false) => seq!['x', 'o'] + c.text(),
            Modifier::KeepHigh(n) => if n > 1 {
                seq!['k', 'h'] + decimal(n as nat)
            } else {
                seq!['k', 'h']
            },
            Modifier::KeepLow(n) => if n > 1 {
                seq!['k', 'l'] + decimal(n as nat)
            } else {
                seq!['k', 'l']
            },
        },
{
    match m {
        Modifier::Reroll(c, false) => {
            assert(seq!['r'] + Seq::<char>::empty() =~= seq!['r']);
        },
        Modifier::Explode(None, true) => {
            assert(seq!['x'] + Seq::<char>::empty() + Seq::<char>::empty() =~= seq!['x']);
        },
        Modifier::Explode(None, false) => {
            assert(seq!['x'] + seq!['o'] + Seq::<char>::empty() =~= seq!['x', 'o']);
        },
        Modifier::Explode(Some(c), true) => {
            assert(seq!['x'] + Seq::<char>::empty() + c.text() =~= seq!['x'] + c.text());
        },
        Modifier::Explode(Some(c), false) => {
            assert(seq!['x'] + seq!['o'] + c.text() =~= seq!['x', 'o'] + c.text());
        },
        Modifier::Reroll(c, true) => {
            assert(seq!['r'] + seq!['r'] + c.text() =~= seq!['r', 'r'] + c.text());
        },
        Modifier::KeepHigh(n) => {
            assert(seq!['k', 'h'] + Seq::<char>::empty() =~= seq!['k', 'h']);
        },
        Modifier::KeepLow(n) => {
            assert(seq!['k', 'l'] + Seq::<char>::empty() =~= seq!['k', 'l']);
        },
    }
}

/// Dice are written as the count, `d`, the number of sides, then each modifier in
/// order.
pub proof fn law_dice_text(count: u8, sides: u8, mods: Seq<Modifier>, m: Modifier)
    ensures
        modifiers_text(Seq::<Modifier>::empty()) == Seq::<char>::empty(),
        modifiers_text(mods.push(m)) == modifiers_text(mods) + m.text(),
{
    assert(mods.push(m).drop_last() =~= mods);
}

/// A description lists the dice's texts separated by `, ` inside square brackets,
/// after the dice; where some are left out it ends the list with how many.
pub proof fn law_description(dice_text: Seq<char>, rolls: Seq<RollView>, x: RollView, max_rolls: nat)
    ensures
        joined(Seq::<RollView>::empty()) == Seq::<char>::empty(),
        joined(seq![x]) == x.text(),
        rolls.len() > 0 ==> joined(rolls.push(x)) == joined(rolls) + seq![',', ' '] + x.text(),
        rolls.len() <= max_rolls ==> description(dice_text, rolls, max_rolls) == dice_text
            + seq!['['] + joined(rolls) + seq![']'],
        rolls.len() > max_rolls ==> description(dice_text, rolls, max_rolls) == dice_text
            + seq!['['] + joined(rolls.take(max_rolls as int)) + seq![',', ' '] + decimal(
            (rolls.len() - max_rolls) as nat,
        ) + seq![' ', 'm', 'o', 'r', 'e', '.', '.', '.'] + seq![']'],
{
    assert(rolls.push(x).drop_last() =~= rolls);
    if rolls.len() <= max_rolls {
        assert(rolls.take(rolls.len() as int) =~= rolls);
        assert(description(dice_text, rolls, max_rolls) =~= dice_text + seq!['['] + joined(rolls)
            + seq![']']);
    } else {
        assert(description(dice_text, rolls, max_rolls) =~= dice_text + seq!['['] + joined(
            rolls.take(max_rolls as int),
        ) + seq![',', ' '] + decimal((rolls.len() - max_rolls) as nat) + seq![
            ' ',
            'm',
            'o',
            'r',
            'e',
            '.',
            '.',
            '.',
        ] + seq![']']);
    }
}

} // verus!
