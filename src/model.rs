//! The mathematical view of dice: individual dice, faces and totals.
use vstd::prelude::*;

use crate::notation::Die;

verus! {

/// The number of sides of each individual die, groups expanded in order.
pub open spec fn die_sides(dice: Seq<Die>) -> Seq<usize>
    decreases dice.len(),
{
    if dice.len() == 0 {
        seq![]
    } else {
        die_sides(dice.drop_last()) + Seq::new(dice.last().0 as nat, |_i: int| dice.last().1)
    }
}

/// The faces of one die with `sides` sides: 1 up to `sides`.
pub open spec fn faces(sides: usize) -> Seq<usize> {
    Seq::new(sides as nat, |i: int| (i + 1) as usize)
}

/// The sum of a sequence of face values.
pub open spec fn total(c: Seq<usize>) -> nat
    decreases c.len(),
{
    if c.len() == 0 {
        0
    } else {
        total(c.drop_last()) + c.last() as nat
    }
}

/// `c` gives each individual die a face: one value in 1 up to its sides.
pub open spec fn fits(c: Seq<usize>, sides: Seq<usize>) -> bool {
    &&& c.len() == sides.len()
    &&& forall|k: int| 0 <= k < c.len() ==> 1 <= #[trigger] c[k] <= sides[k]
}

/// The largest total the dice can show: every die on its highest face.
pub open spec fn max_total(dice: Seq<Die>) -> nat {
    total(die_sides(dice))
}

pub proof fn lemma_total_prefix(c: Seq<usize>, k: int)
    requires
        0 <= k <= c.len(),
    ensures
        total(c.subrange(0, k)) <= total(c),
    decreases c.len(),
{
    if k < c.len() {
        assert(c.drop_last() =~= c.subrange(0, c.len() - 1));
        assert(c.drop_last().subrange(0, k) =~= c.subrange(0, k));
        lemma_total_prefix(c.drop_last(), k);
    } else {
        assert(c.subrange(0, k) =~= c);
    }
}

/// A combination of faces totals at least one per die and at most the sum of
/// the sides.
pub proof fn lemma_fits_total(c: Seq<usize>, sides: Seq<usize>)
    requires
        fits(c, sides),
    ensures
        c.len() <= total(c) <= total(sides),
    decreases c.len(),
{
    if c.len() > 0 {
        lemma_fits_total(c.drop_last(), sides.drop_last());
    }
}

/// `n` dice of `s` sides each total `n * s` at most.
pub proof fn lemma_total_constant(n: nat, s: usize)
    ensures
        total(Seq::new(n, |_i: int| s)) == n * s,
    decreases n,
{
    let q = Seq::new(n, |_i: int| s);
    if n > 0 {
        assert(q.drop_last() =~= Seq::new((n - 1) as nat, |_i: int| s));
        lemma_total_constant((n - 1) as nat, s);
        assert(total(q) == total(q.drop_last()) + s);
        assert(n * s == (n - 1) * s + s) by (nonlinear_arith);
    } else {
        assert(n * s == 0) by (nonlinear_arith)
            requires
                n == 0,
        ;
    }
}

/// Every group of dice has at least one side.
pub open spec fn sides_positive(dice: Seq<Die>) -> bool {
    forall|i: int| 0 <= i < dice.len() ==> (#[trigger] dice[i]).1 >= 1
}

pub proof fn lemma_total_concat(a: Seq<usize>, b: Seq<usize>)
    ensures
        total(a + b) == total(a) + total(b),
    decreases b.len(),
{
    if b.len() > 0 {
        assert((a + b).drop_last() =~= a + b.drop_last());
        lemma_total_concat(a, b.drop_last());
    } else {
        assert(a + b =~= a);
    }
}

/// The largest total, group by group: the sum of count times sides.
pub proof fn lemma_max_total_step(dice: Seq<Die>)
    requires
        dice.len() > 0,
    ensures
        max_total(dice) == max_total(dice.drop_last()) + dice.last().0 * dice.last().1,
{
    lemma_total_concat(
        die_sides(dice.drop_last()),
        Seq::new(dice.last().0 as nat, |_i: int| dice.last().1),
    );
    lemma_total_constant(dice.last().0 as nat, dice.last().1);
}

/// Each roll of a die with `s` sides lies in 1 to `s`, and `n` such rolls
/// total between `n` and `n * s`.
pub proof fn lemma_roll_bounds(n: usize, s: usize, c: Seq<usize>)
    requires
        n > 0,
        s > 0,
        fits(c, die_sides(seq![(n, s)])),
    ensures
        c.len() == n,
        forall|k: int| 0 <= k < c.len() ==> 1 <= #[trigger] c[k] <= s,
        n <= total(c) <= n * s,
{
    let dice = seq![(n, s)];
    assert(dice.drop_last() =~= Seq::<Die>::empty());
    assert(die_sides(Seq::<Die>::empty()) == Seq::<usize>::empty());
    assert(die_sides(dice) == die_sides(dice.drop_last()) + Seq::new(n as nat, |_i: int| s));
    assert(die_sides(dice) =~= Seq::new(n as nat, |_i: int| s));
    lemma_fits_total(c, die_sides(dice));
    lemma_total_constant(n as nat, s);
}

} // verus!
