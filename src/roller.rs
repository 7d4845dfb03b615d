//! Random rolls of dice.
use rand::Rng;
use vstd::prelude::*;

use crate::mode::RollKind;
use crate::model::{
    die_sides, fits, lemma_fits_total, lemma_max_total_step, lemma_total_prefix, max_total,
    sides_positive, total,
};
use crate::notation::Die;

verus! {

/// rand's handle on the thread-local random generator, carried as it is.
#[verifier::external_type_specification]
#[verifier::external_body]
pub struct ExThreadRng(rand::rngs::ThreadRng);

/// Relies on rand::thread_rng for a handle on the thread's random source.
pub assume_specification[ rand::thread_rng ]() -> rand::rngs::ThreadRng;

/// Relies on rand::Rng::gen_range over the inclusive range 1 to `sides`: its
/// result lies in that range; it panics only on an empty range.
#[verifier::external_body]
fn draw_face(rng: &mut rand::rngs::ThreadRng, sides: usize) -> (r: usize)
    requires
        sides >= 1,
    ensures
        1 <= r <= sides,
{
    rng.gen_range(1..=sides)
}

/// What a roll reports.
#[derive(Debug, PartialEq, Eq)]
pub enum RollOutcome {
    Sum(usize),
    Rolls(Vec<usize>),
    SumRolls(usize, Vec<usize>),
}

/// `s` is the total of some roll of the dice.
pub open spec fn is_sum_roll(dice: Seq<Die>, s: usize) -> bool {
    exists|c: Seq<usize>| fits(c, die_sides(dice)) && total(c) == s
}

/// `rolls` gives each individual die of the dice, in order, one of its faces.
pub open spec fn is_rolls(dice: Seq<Die>, rolls: Seq<usize>) -> bool {
    fits(rolls, die_sides(dice))
}

/// The number of sides of each individual die, groups expanded in order.
pub fn individual_sides(dice: &Vec<Die>) -> (r: Vec<usize>)
    ensures
        r@ == die_sides(dice@),
{
    let mut r: Vec<usize> = Vec::new();
    let mut d: usize = 0;
    assert(die_sides(dice@.subrange(0, 0)) =~= r@);
    while d < dice.len()
        invariant
            d <= dice.len(),
            r@ == die_sides(dice@.subrange(0, d as int)),
        decreases dice.len() - d,
    {
        let (count, sides) = dice[d];
        let ghost start = r@;
        let mut c: usize = 0;
        while c < count
            invariant
                c <= count,
                r@ == start + Seq::new(c as nat, |_i: int| sides),
            decreases count - c,
        {
            r.push(sides);
            assert(r@ =~= start + Seq::new((c + 1) as nat, |_i: int| sides));
            c = c + 1;
        }
        let ghost next = dice@.subrange(0, d + 1);
        assert(next.drop_last() =~= dice@.subrange(0, d as int));
        assert(r@ =~= die_sides(next));
        d = d + 1;
    }
    assert(dice@.subrange(0, d as int) =~= dice@);
    r
}

/// The largest total the dice can show, if it fits in `usize`.
pub fn max_sum(dice: &Vec<Die>) -> (r: Option<usize>)
    ensures
        r == (if max_total(dice@) <= usize::MAX {
            Some(max_total(dice@) as usize)
        } else {
            None::<usize>
        }),
{
    let mut sum: usize = 0;
    let mut d: usize = 0;
    assert(die_sides(dice@.subrange(0, 0)).len() == 0);
    while d < dice.len()
        invariant
            d <= dice.len(),
            sum == max_total(dice@.subrange(0, d as int)),
        decreases dice.len() - d,
    {
        let (count, sides) = dice[d];
        let ghost next = dice@.subrange(0, d + 1);
        proof {
            assert(next.drop_last() =~= dice@.subrange(0, d as int));
            lemma_max_total_step(next);
        }
        let group = count.checked_mul(sides);
        if group.is_none() {
            proof {
                lemma_sum_grows(dice@, d + 1);
                assert(count * sides > usize::MAX);
            }
            return None;
        }
        let group = group.unwrap();
        let grown = sum.checked_add(group);
        if grown.is_none() {
            proof {
                lemma_sum_grows(dice@, d + 1);
            }
            return None;
        }
        sum = grown.unwrap();
        d = d + 1;
    }
    assert(dice@.subrange(0, d as int) =~= dice@);
    Some(sum)
}

/// The largest total of the first groups is at most that of all of them.
proof fn lemma_sum_grows(dice: Seq<Die>, d: int)
    requires
        0 <= d <= dice.len(),
    ensures
        max_total(dice.subrange(0, d)) <= max_total(dice),
    decreases dice.len(),
{
    if d < dice.len() {
        assert(dice.drop_last().subrange(0, d) =~= dice.subrange(0, d));
        lemma_sum_grows(dice.drop_last(), d);
        lemma_max_total_step(dice);
    } else {
        assert(dice.subrange(0, d) =~= dice);
    }
}

/// Rolls every individual die once and returns the total.
pub fn roll_sum(dice: &Vec<Die>) -> (r: usize)
    requires
        sides_positive(dice@),
        max_total(dice@) <= usize::MAX,
    ensures
        is_sum_roll(dice@, r),
{
    let sides = individual_sides(dice);
    let mut rng = rand::thread_rng();
    let mut sum: usize = 0;
    let ghost mut drawn: Seq<usize> = seq![];
    let mut k: usize = 0;
    proof {
        lemma_positive_sides(dice@);
    }
    while k < sides.len()
        invariant
            k <= sides@.len(),
            sides@ == die_sides(dice@),
            forall|m: int| 0 <= m < sides@.len() ==> #[trigger] sides@[m] >= 1,
            total(sides@) <= usize::MAX,
            fits(drawn, sides@.subrange(0, k as int)),
            sum == total(drawn),
        decreases sides.len() - k,
    {
        let face = draw_face(&mut rng, sides[k]);
        proof {
            let next = drawn.push(face);
            assert(next.drop_last() =~= drawn);
            assert(fits(next, sides@.subrange(0, k + 1)));
            lemma_fits_total(next, sides@.subrange(0, k + 1));
            lemma_total_prefix(sides@, k + 1);
            drawn = next;
        }
        sum = sum + face;
        k = k + 1;
    }
    assert(sides@.subrange(0, k as int) =~= sides@);
    sum
}

/// Each individual die has at least one side.
proof fn lemma_positive_sides(dice: Seq<Die>)
    requires
        sides_positive(dice),
    ensures
        forall|m: int| 0 <= m < die_sides(dice).len() ==> #[trigger] die_sides(dice)[m] >= 1,
    decreases dice.len(),
{
    if dice.len() > 0 {
        let rest = dice.drop_last();
        assert forall|i: int| 0 <= i < rest.len() implies (#[trigger] rest[i]).1 >= 1 by {
            assert(rest[i] == dice[i]);
        }
        lemma_positive_sides(rest);
        let last = dice[dice.len() - 1];
        assert(last.1 >= 1);
        let all = die_sides(dice);
        assert(all == die_sides(rest) + Seq::new(last.0 as nat, |_i: int| last.1));
        assert forall|m: int| 0 <= m < all.len() implies #[trigger] all[m] >= 1 by {
            if m < die_sides(rest).len() {
                assert(all[m] == die_sides(rest)[m]);
            }
        }
    }
}

/// Rolls every individual die once and returns the faces, in order.
pub fn roll_rolls(dice: &Vec<Die>) -> (r: Vec<usize>)
    requires
        sides_positive(dice@),
    ensures
        is_rolls(dice@, r@),
{
    let sides = individual_sides(dice);
    let mut rng = rand::thread_rng();
    let mut rolls: Vec<usize> = Vec::new();
    let mut k: usize = 0;
    proof {
        lemma_positive_sides(dice@);
    }
    while k < sides.len()
        invariant
            k <= sides@.len(),
            sides@ == die_sides(dice@),
            forall|m: int| 0 <= m < sides@.len() ==> #[trigger] sides@[m] >= 1,
            fits(rolls@, sides@.subrange(0, k as int)),
        decreases sides.len() - k,
    {
        let face = draw_face(&mut rng, sides[k]);
        rolls.push(face);
        k = k + 1;
    }
    assert(sides@.subrange(0, k as int) =~= sides@);
    rolls
}

/// A total and the faces of two separate rolls of the dice.
pub fn roll_sum_rolls(dice: &Vec<Die>) -> (r: (usize, Vec<usize>))
    requires
        sides_positive(dice@),
        max_total(dice@) <= usize::MAX,
    ensures
        is_sum_roll(dice@, r.0),
        is_rolls(dice@, r.1@),
{
    let sum = roll_sum(dice);
    let rolls = roll_rolls(dice);
    (sum, rolls)
}

/// Rolls the dice and reports what `kind` asks for.
pub fn roll(dice: &Vec<Die>, kind: RollKind) -> (r: RollOutcome)
    requires
        sides_positive(dice@),
        max_total(dice@) <= usize::MAX,
    ensures
        match kind {
            RollKind::Sum => r matches RollOutcome::Sum(s) && is_sum_roll(dice@, s),
            RollKind::Rolls => r matches RollOutcome::Rolls(v) && is_rolls(dice@, v@),
            RollKind::SumRolls => r matches RollOutcome::SumRolls(s, v) && is_sum_roll(dice@, s)
                && is_rolls(dice@, v@),
        },
{
    match kind {
        RollKind::Sum => RollOutcome::Sum(roll_sum(dice)),
        RollKind::Rolls => RollOutcome::Rolls(roll_rolls(dice)),
        RollKind::SumRolls => {
            let (s, v) = roll_sum_rolls(dice);
            RollOutcome::SumRolls(s, v)
        },
    }
}

/// The total of `n` rolls of a die with `s` sides lies between `n` and `n * s`.
pub proof fn lemma_sum_roll_bounds(n: usize, s: usize, t: usize)
    requires
        n > 0,
        s > 0,
        is_sum_roll(seq![(n, s)], t),
    ensures
        n <= t <= n * s,
{
    let c = choose|c: Seq<usize>| fits(c, die_sides(seq![(n, s)])) && total(c) == t;
    crate::model::lemma_roll_bounds(n, s, c);
}

} // verus!
