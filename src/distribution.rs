//! Exact outcome distributions, by enumeration of every combination of faces.
use vstd::prelude::*;

use crate::mode::StatsOrder;
use crate::model::{die_sides, faces, fits, max_total, total, lemma_total_prefix};
use crate::notation::Die;

verus! {

/// Every combination that picks one item of each pool, pools in order.
///
/// Combinations are listed as the enumeration produces them: for each item of
/// the last pool in turn, every combination of the earlier pools extended by it.
pub open spec fn product(pools: Seq<Seq<usize>>) -> Seq<Seq<usize>>
    decreases pools.len(),
{
    if pools.len() == 0 {
        seq![seq![]]
    } else {
        extend(product(pools.drop_last()), pools.last())
    }
}

/// For each item of `pool` in turn, every combination of `combos` extended by it.
pub open spec fn extend(combos: Seq<Seq<usize>>, pool: Seq<usize>) -> Seq<Seq<usize>>
    decreases pool.len(),
{
    if pool.len() == 0 {
        seq![]
    } else {
        extend(combos, pool.drop_last()) + combos.map_values(|c: Seq<usize>| c.push(pool.last()))
    }
}

/// Lists every combination of one item from each pool.
pub fn cartesian_product(pools: Vec<Vec<usize>>) -> (r: Vec<Vec<usize>>)
    ensures
        r.deep_view() == product(pools.deep_view()),
{
    let ghost all = pools.deep_view();
    let mut result: Vec<Vec<usize>> = vec![Vec::new()];
    assert(result@[0].deep_view() =~= Seq::<usize>::empty());
    assert(result.deep_view() =~= product(all.subrange(0, 0)));
    let mut p: usize = 0;
    while p < pools.len()
        invariant
            p <= pools.len(),
            all == pools.deep_view(),
            result.deep_view() == product(all.subrange(0, p as int)),
        decreases pools.len() - p,
    {
        let pool = &pools[p];
        let ghost done = result.deep_view();
        let mut new_result: Vec<Vec<usize>> = Vec::new();
        let mut i: usize = 0;
        assert(new_result.deep_view() =~= extend(done, pool@.subrange(0, 0)));
        while i < pool.len()
            invariant
                i <= pool.len(),
                done == result.deep_view(),
                new_result.deep_view() == extend(done, pool@.subrange(0, i as int)),
            decreases pool.len() - i,
        {
            let item = pool[i];
            let ghost before = new_result.deep_view();
            let mut j: usize = 0;
            while j < result.len()
                invariant
                    i < pool.len(),
                    item == pool@[i as int],
                    j <= result.len(),
                    done == result.deep_view(),
                    new_result.deep_view() == before + done.subrange(0, j as int).map_values(
                        |c: Seq<usize>| c.push(item),
                    ),
                decreases result.len() - j,
            {
                let mut combo = result[j].clone();
                assert(combo@ =~= result@[j as int]@);
                combo.push(item);
                assert(combo.deep_view() =~= done[j as int].push(item));
                let ghost old_view = new_result.deep_view();
                let ghost combo_view = combo.deep_view();
                new_result.push(combo);
                assert(new_result.deep_view() =~= old_view.push(combo_view));
                assert(done.subrange(0, j + 1).map_values(|c: Seq<usize>| c.push(item))
                    =~= done.subrange(0, j as int).map_values(|c: Seq<usize>| c.push(item)).push(
                    combo_view,
                ));
                assert(new_result.deep_view() =~= before + done.subrange(0, j + 1).map_values(
                    |c: Seq<usize>| c.push(item),
                ));
                j = j + 1;
            }
            let ghost next = pool@.subrange(0, i + 1);
            assert(next.drop_last() =~= pool@.subrange(0, i as int));
            assert(done.subrange(0, j as int) =~= done);
            assert(new_result.deep_view() =~= extend(done, next));
            i = i + 1;
        }
        assert(pool@.subrange(0, i as int) =~= pool@);
        let ghost next = all.subrange(0, p + 1);
        assert(next.drop_last() =~= all.subrange(0, p as int));
        assert(pool@ == all[p as int]);
        result = new_result;
        p = p + 1;
    }
    assert(all.subrange(0, p as int) =~= all);
    result
}

/// Every combination of faces of the dice, one face per individual die, in
/// enumeration order.
pub open spec fn outcomes(dice: Seq<Die>) -> Seq<Seq<usize>> {
    product(die_sides(dice).map_values(|s: usize| faces(s)))
}

/// How many of `combos` total `v`.
pub open spec fn occurrences(combos: Seq<Seq<usize>>, v: nat) -> nat
    decreases combos.len(),
{
    if combos.len() == 0 {
        0
    } else {
        occurrences(combos.drop_last(), v) + if total(combos.last()) == v {
            1nat
        } else {
            0nat
        }
    }
}

/// No sum is listed twice.
pub open spec fn distinct_sums(r: Seq<(usize, usize)>) -> bool {
    forall|i: int, j: int| 0 <= i < j < r.len() ==> r[i].0 != r[j].0
}

/// `r` lists each total that some of `combos` reach, once, with the number of
/// combinations that reach it.
pub open spec fn is_distribution_of(r: Seq<(usize, usize)>, combos: Seq<Seq<usize>>) -> bool {
    &&& distinct_sums(r)
    &&& forall|i: int|
        0 <= i < r.len() ==> #[trigger] r[i].1 > 0 && r[i].1 == occurrences(combos, r[i].0 as nat)
    &&& forall|v: nat|
        #[trigger] occurrences(combos, v) > 0 ==> exists|i: int| 0 <= i < r.len() && r[i].0 == v
}

/// The key that `order` sorts a (sum, count) entry by.
pub open spec fn sort_key(e: (usize, usize), order: StatsOrder) -> usize {
    match order {
        StatsOrder::Val => e.0,
        StatsOrder::Freq => e.1,
    }
}

/// The entries of `r` ascend by the key of `order`.
pub open spec fn sorted_by(r: Seq<(usize, usize)>, order: StatsOrder) -> bool {
    forall|i: int, j: int| 0 <= i < j < r.len() ==> sort_key(r[i], order) <= sort_key(r[j], order)
}

proof fn lemma_extend_member(combos: Seq<Seq<usize>>, pool: Seq<usize>, k: int)
    requires
        0 <= k < extend(combos, pool).len(),
    ensures
        exists|a: int, b: int|
            0 <= a < combos.len() && 0 <= b < pool.len() && extend(combos, pool)[k] == combos[a].push(
                pool[b],
            ),
    decreases pool.len(),
{
    let prev = extend(combos, pool.drop_last());
    if k < prev.len() {
        lemma_extend_member(combos, pool.drop_last(), k);
        let (a, b) = choose|a: int, b: int|
            0 <= a < combos.len() && 0 <= b < pool.drop_last().len() && prev[k] == combos[a].push(
                pool.drop_last()[b],
            );
        assert(extend(combos, pool)[k] == combos[a].push(pool[b]));
    } else {
        let a = k - prev.len();
        assert(extend(combos, pool)[k] == combos[a].push(pool[pool.len() - 1]));
    }
}

/// Each enumerated combination gives every die one of its faces.
pub proof fn lemma_product_fits(sides: Seq<usize>, k: int)
    requires
        0 <= k < product(sides.map_values(|s: usize| faces(s))).len(),
    ensures
        fits(product(sides.map_values(|s: usize| faces(s)))[k], sides),
    decreases sides.len(),
{
    let pools = sides.map_values(|s: usize| faces(s));
    if sides.len() == 0 {
        assert(product(pools) == seq![Seq::<usize>::empty()]);
    } else {
        let rest = sides.drop_last();
        assert(pools.drop_last() =~= rest.map_values(|s: usize| faces(s)));
        let prev = product(pools.drop_last());
        lemma_extend_member(prev, pools.last(), k);
        let (a, b) = choose|a: int, b: int|
            0 <= a < prev.len() && 0 <= b < pools.last().len() && product(pools)[k] == prev[a].push(
                pools.last()[b],
            );
        lemma_product_fits(rest, a);
        let c = product(pools)[k];
        assert forall|m: int| 0 <= m < c.len() implies 1 <= #[trigger] c[m] <= sides[m] by {
            if m < c.len() - 1 {
                assert(c[m] == prev[a][m]);
                assert(rest[m] == sides[m]);
            }
        }
    }
}

proof fn lemma_occurrences_bound(combos: Seq<Seq<usize>>, v: nat)
    ensures
        occurrences(combos, v) <= combos.len(),
    decreases combos.len(),
{
    if combos.len() > 0 {
        lemma_occurrences_bound(combos.drop_last(), v);
    }
}

fn face_list(sides: usize) -> (r: Vec<usize>)
    ensures
        r@ == faces(sides),
{
    let mut r: Vec<usize> = Vec::new();
    let mut f: usize = 0;
    while f < sides
        invariant
            f <= sides,
            r@ =~= Seq::new(f as nat, |i: int| (i + 1) as usize),
        decreases sides - f,
    {
        r.push(f + 1);
        f = f + 1;
    }
    r
}

/// One pool of faces per individual die, groups expanded in order.
pub fn pools(dice: &Vec<Die>) -> (r: Vec<Vec<usize>>)
    ensures
        r.deep_view() == die_sides(dice@).map_values(|s: usize| faces(s)),
{
    let mut r: Vec<Vec<usize>> = Vec::new();
    let mut d: usize = 0;
    assert(die_sides(dice@.subrange(0, 0)) =~= Seq::<usize>::empty());
    assert(r.deep_view() =~= die_sides(dice@.subrange(0, 0)).map_values(|s: usize| faces(s)));
    while d < dice.len()
        invariant
            d <= dice.len(),
            r.deep_view() == die_sides(dice@.subrange(0, d as int)).map_values(
                |s: usize| faces(s),
            ),
        decreases dice.len() - d,
    {
        let (count, sides) = dice[d];
        let ghost start = r.deep_view();
        let mut c: usize = 0;
        while c < count
            invariant
                c <= count,
                r.deep_view() == start + Seq::new(c as nat, |_i: int| faces(sides)),
            decreases count - c,
        {
            let faces_vec = face_list(sides);
            let ghost before = r.deep_view();
            r.push(faces_vec);
            assert(faces_vec.deep_view() =~= faces(sides));
            assert(r.deep_view() =~= before.push(faces(sides)));
            assert(r.deep_view() =~= start + Seq::new((c + 1) as nat, |_i: int| faces(sides)));
            c = c + 1;
        }
        let ghost next = dice@.subrange(0, d + 1);
        assert(next.drop_last() =~= dice@.subrange(0, d as int));
        assert(die_sides(next) == die_sides(dice@.subrange(0, d as int)) + Seq::new(
            count as nat,
            |_i: int| sides,
        ));
        assert(r.deep_view() =~= die_sides(next).map_values(|s: usize| faces(s)));
        d = d + 1;
    }
    assert(dice@.subrange(0, d as int) =~= dice@);
    r
}

/// The sum of one combination of faces.
fn combination_total(c: &Vec<usize>) -> (r: usize)
    requires
        total(c@) <= usize::MAX,
    ensures
        r == total(c@),
{
    let mut sum: usize = 0;
    let mut k: usize = 0;
    while k < c.len()
        invariant
            k <= c.len(),
            total(c@) <= usize::MAX,
            sum == total(c@.subrange(0, k as int)),
        decreases c.len() - k,
    {
        proof {
            lemma_total_prefix(c@, k + 1);
            assert(c@.subrange(0, k + 1).drop_last() =~= c@.subrange(0, k as int));
        }
        sum = sum + c[k];
        k = k + 1;
    }
    assert(c@.subrange(0, k as int) =~= c@);
    sum
}

/// The exact distribution of totals of the dice: each reachable sum once, with
/// the number of combinations of faces that give it.
pub fn distribution(dice: &Vec<Die>) -> (r: Vec<(usize, usize)>)
    requires
        max_total(dice@) <= usize::MAX,
    ensures
        is_distribution_of(r@, outcomes(dice@)),
{
    let combos = cartesian_product(pools(dice));
    let ghost all = combos.deep_view();
    let ghost sides = die_sides(dice@);
    let mut dist: Vec<(usize, usize)> = Vec::new();
    let mut i: usize = 0;
    assert(all.subrange(0, 0).len() == 0);
    while i < combos.len()
        invariant
            i <= combos.len(),
            all == combos.deep_view(),
            all == outcomes(dice@),
            sides == die_sides(dice@),
            total(sides) <= usize::MAX,
            is_distribution_of(dist@, all.subrange(0, i as int)),
        decreases combos.len() - i,
    {
        let c = &combos[i];
        proof {
            lemma_product_fits(sides, i as int);
            crate::model::lemma_fits_total(all[i as int], sides);
            assert(c@ =~= all[i as int]);
        }
        let t = combination_total(c);
        let ghost prev = all.subrange(0, i as int);
        let ghost next = all.subrange(0, i + 1);
        assert(next.drop_last() =~= prev);
        assert(next.last() == all[i as int]);
        assert forall|v: nat| #[trigger] occurrences(next, v) == occurrences(prev, v) + if t == v {
            1nat
        } else {
            0nat
        } by {}
        let mut j: usize = 0;
        while j < dist.len() && dist[j].0 != t
            invariant
                j <= dist.len(),
                forall|m: int| 0 <= m < j ==> dist@[m].0 != t,
            decreases dist.len() - j,
        {
            j = j + 1;
        }
        let ghost old_dist = dist@;
        if j < dist.len() {
            proof {
                lemma_occurrences_bound(prev, t as nat);
            }
            let n = dist[j].1;
            dist.set(j, (t, n + 1));
            assert forall|v: nat| #[trigger] occurrences(next, v) > 0 implies exists|m: int|
                0 <= m < dist@.len() && dist@[m].0 == v by {
                if v != t {
                    let m = choose|m: int| 0 <= m < old_dist.len() && old_dist[m].0 == v;
                    assert(dist@[m].0 == v);
                } else {
                    assert(dist@[j as int].0 == v);
                }
            }
        } else {
            dist.push((t, 1));
            assert forall|v: nat| #[trigger] occurrences(next, v) > 0 implies exists|m: int|
                0 <= m < dist@.len() && dist@[m].0 == v by {
                if v != t {
                    let m = choose|m: int| 0 <= m < old_dist.len() && old_dist[m].0 == v;
                    assert(dist@[m].0 == v);
                } else {
                    assert(dist@[j as int].0 == v);
                }
            }
            assert(occurrences(prev, t as nat) == 0);
        }
        i = i + 1;
    }
    assert(all.subrange(0, i as int) =~= all);
    dist
}

fn key_of(e: (usize, usize), order: StatsOrder) -> (r: usize)
    ensures
        r == sort_key(e, order),
{
    match order {
        StatsOrder::Val => e.0,
        StatsOrder::Freq => e.1,
    }
}

/// Each entry of `out` is the entry of `part` that `src` points to.
spec fn drawn_from(out: Seq<(usize, usize)>, part: Seq<(usize, usize)>, src: Seq<int>) -> bool {
    &&& src.len() == out.len()
    &&& forall|i: int| 0 <= i < out.len() ==> 0 <= #[trigger] src[i] < part.len() && out[i] == part[src[i]]
}

/// Each entry of `part` stands in `out` where `pos` points.
spec fn placed_in(part: Seq<(usize, usize)>, out: Seq<(usize, usize)>, pos: Seq<int>) -> bool {
    &&& pos.len() == part.len()
    &&& forall|j: int| 0 <= j < part.len() ==> 0 <= #[trigger] pos[j] < out.len() && out[pos[j]] == part[j]
}

/// Where the entries of `part` stand once an entry is inserted at `p`.
spec fn shifted(pos: Seq<int>, p: int) -> Seq<int> {
    Seq::new(pos.len(), |j: int| if pos[j] >= p { pos[j] + 1 } else { pos[j] })
}

/// Inserting the next entry of `dist` where its key belongs keeps the
/// entries sorted, their sums distinct, and the same as those of `dist` so far.
proof fn lemma_insert_sorted(
    before: Seq<(usize, usize)>,
    p: int,
    dist: Seq<(usize, usize)>,
    idx: int,
    order: StatsOrder,
    src: Seq<int>,
    pos: Seq<int>,
)
    requires
        0 <= idx < dist.len(),
        0 <= p <= before.len(),
        distinct_sums(dist),
        distinct_sums(before),
        sorted_by(before, order),
        forall|m: int| 0 <= m < p ==> sort_key(#[trigger] before[m], order) <= sort_key(dist[idx], order),
        forall|m: int|
            p <= m < before.len() ==> sort_key(#[trigger] before[m], order) > sort_key(dist[idx], order),
        drawn_from(before, dist.subrange(0, idx), src),
        placed_in(dist.subrange(0, idx), before, pos),
    ensures
        distinct_sums(before.insert(p, dist[idx])),
        sorted_by(before.insert(p, dist[idx]), order),
        drawn_from(before.insert(p, dist[idx]), dist.subrange(0, idx + 1), src.insert(p, idx)),
        placed_in(dist.subrange(0, idx + 1), before.insert(p, dist[idx]), shifted(pos, p).push(p)),
{
    let e = dist[idx];
    let out = before.insert(p, e);
    before.insert_ensures(p, e);
    src.insert_ensures(p, idx);
    assert forall|m: int| 0 <= m < before.len() implies before[m].0 != e.0 by {
        assert(before[m] == dist[src[m]]);
    }
    assert forall|a: int, b: int| 0 <= a < b < out.len() implies out[a].0 != out[b].0 by {
        let a0 = if a < p { a } else { a - 1 };
        let b0 = if b <= p { b } else { b - 1 };
        if a != p && b != p {
            assert(out[a] == before[a0] && out[b] == before[b0]);
        }
        if a == p {
            assert(out[b] == before[b0]);
        }
        if b == p {
            assert(out[a] == before[a0]);
        }
    }
    assert forall|a: int, b: int| 0 <= a < b < out.len() implies sort_key(out[a], order)
        <= sort_key(out[b], order) by {
        let a0 = if a < p { a } else { a - 1 };
        let b0 = if b <= p { b } else { b - 1 };
        if a != p && b != p {
            assert(out[a] == before[a0] && out[b] == before[b0]);
        }
        if a == p {
            assert(out[b] == before[b0]);
        }
        if b == p {
            assert(out[a] == before[a0]);
        }
    }
    let part = dist.subrange(0, idx + 1);
    let src2 = src.insert(p, idx);
    assert forall|i: int| 0 <= i < out.len() implies 0 <= #[trigger] src2[i] < part.len() && out[i]
        == part[src2[i]] by {
        if i < p {
            assert(out[i] == before[i] && src2[i] == src[i]);
        } else if i > p {
            assert(out[i] == before[i - 1] && src2[i] == src[i - 1]);
        }
    }
    let pos2 = shifted(pos, p).push(p);
    assert forall|j: int| 0 <= j < part.len() implies 0 <= #[trigger] pos2[j] < out.len() && out[pos2[j]]
        == part[j] by {
        if j < idx {
            assert(pos2[j] == shifted(pos, p)[j]);
            assert(before[pos[j]] == dist.subrange(0, idx)[j]);
        }
    }
}

/// Orders the entries of a distribution ascending by the key of `order`;
/// entries with equal keys keep their relative order.
pub fn sort_distribution(dist: Vec<(usize, usize)>, order: StatsOrder) -> (r: Vec<(usize, usize)>)
    requires
        distinct_sums(dist@),
    ensures
        r@.len() == dist@.len(),
        distinct_sums(r@),
        sorted_by(r@, order),
        forall|i: int| 0 <= i < r@.len() ==> dist@.contains(#[trigger] r@[i]),
        forall|j: int| 0 <= j < dist@.len() ==> r@.contains(#[trigger] dist@[j]),
{
    let mut out: Vec<(usize, usize)> = Vec::new();
    let mut idx: usize = 0;
    let ghost mut src: Seq<int> = seq![];
    let ghost mut pos: Seq<int> = seq![];
    while idx < dist.len()
        invariant
            idx <= dist.len(),
            out@.len() == idx,
            distinct_sums(dist@),
            distinct_sums(out@),
            sorted_by(out@, order),
            drawn_from(out@, dist@.subrange(0, idx as int), src),
            placed_in(dist@.subrange(0, idx as int), out@, pos),
        decreases dist.len() - idx,
    {
        let e = dist[idx];
        let k = key_of(e, order);
        let mut p: usize = 0;
        while p < out.len() && key_of(out[p], order) <= k
            invariant
                p <= out@.len(),
                k == sort_key(e, order),
                forall|m: int| 0 <= m < p ==> sort_key(#[trigger] out@[m], order) <= k,
            decreases out.len() - p,
        {
            p = p + 1;
        }
        let ghost before = out@;
        assert forall|m: int| p <= m < before.len() implies sort_key(#[trigger] before[m], order) > k by {
            if m > p {
                assert(sort_key(before[p as int], order) <= sort_key(before[m], order));
            }
        }
        out.insert(p, e);
        proof {
            lemma_insert_sorted(before, p as int, dist@, idx as int, order, src, pos);
            src = src.insert(p as int, idx as int);
            pos = shifted(pos, p as int).push(p as int);
        }
        idx = idx + 1;
    }
    let ghost d = dist@;
    assert(d.subrange(0, idx as int) =~= d);
    assert forall|i: int| 0 <= i < out@.len() implies d.contains(#[trigger] out@[i]) by {
        assert(out@[i] == d[src[i]]);
    }
    assert forall|j: int| 0 <= j < d.len() implies out@.contains(#[trigger] d[j]) by {
        assert(out@[pos[j]] == d[j]);
    }
    out
}

/// What the statistics mode shows for the dice.
pub open spec fn is_stats_result(dice: Seq<Die>, order: StatsOrder, r: Seq<(usize, usize)>) -> bool {
    is_distribution_of(r, outcomes(dice)) && sorted_by(r, order)
}

/// The exact distribution of totals of the dice, ordered by `order`.
pub fn stats(dice: &Vec<Die>, order: StatsOrder) -> (r: Vec<(usize, usize)>)
    requires
        max_total(dice@) <= usize::MAX,
    ensures
        is_stats_result(dice@, order, r@),
{
    let dist = distribution(dice);
    let ghost combos = outcomes(dice@);
    let ghost d = dist@;
    let r = sort_distribution(dist, order);
    assert forall|i: int| 0 <= i < r@.len() implies #[trigger] r@[i].1 > 0 && r@[i].1 == occurrences(
        combos,
        r@[i].0 as nat,
    ) by {
        assert(d.contains(r@[i]));
        let j = choose|j: int| 0 <= j < d.len() && d[j] == r@[i];
    }
    assert forall|v: nat| #[trigger] occurrences(combos, v) > 0 implies exists|i: int|
        0 <= i < r@.len() && r@[i].0 == v by {
        let j = choose|j: int| 0 <= j < d.len() && d[j].0 == v;
        assert(r@.contains(d[j]));
        let i = choose|i: int| 0 <= i < r@.len() && r@[i] == d[j];
    }
    r
}

/// The count that `r` lists for the sum `v`, or 0 where it lists none.
pub open spec fn count_of(r: Seq<(usize, usize)>, v: nat) -> nat {
    if exists|i: int| 0 <= i < r.len() && r[i].0 == v {
        r[choose|i: int| 0 <= i < r.len() && r[i].0 == v].1 as nat
    } else {
        0
    }
}

/// A distribution lists, for every sum, the number of combinations that reach it.
pub proof fn lemma_count_of(r: Seq<(usize, usize)>, combos: Seq<Seq<usize>>, v: nat)
    requires
        is_distribution_of(r, combos),
    ensures
        count_of(r, v) == occurrences(combos, v),
{
    if exists|i: int| 0 <= i < r.len() && r[i].0 == v {
        let i = choose|i: int| 0 <= i < r.len() && r[i].0 == v;
        assert(r[i].1 == occurrences(combos, r[i].0 as nat));
    } else if occurrences(combos, v) > 0 {
        assert(exists|i: int| 0 <= i < r.len() && r[i].0 == v);
    }
}

/// Entries `j < k` of two distributions of the same combinations, both in
/// ascending order of sums, agree.
proof fn lemma_val_prefix(
    r1: Seq<(usize, usize)>,
    r2: Seq<(usize, usize)>,
    combos: Seq<Seq<usize>>,
    k: int,
)
    requires
        is_distribution_of(r1, combos),
        is_distribution_of(r2, combos),
        sorted_by(r1, StatsOrder::Val),
        sorted_by(r2, StatsOrder::Val),
        0 <= k <= r1.len(),
        k <= r2.len(),
    ensures
        forall|j: int| 0 <= j < k ==> r1[j] == r2[j],
    decreases k,
{
    if k > 0 {
        let j = k - 1;
        lemma_val_prefix(r1, r2, combos, j);
        let x = r1[j].0;
        assert(r1[j].1 > 0);
        assert(occurrences(combos, x as nat) > 0);
        let m2 = choose|m: int| 0 <= m < r2.len() && r2[m].0 == x as nat;
        if m2 < j {
            assert(r1[m2] == r2[m2]);
        }
        assert(sort_key(r2[j], StatsOrder::Val) <= sort_key(r2[m2], StatsOrder::Val));
        let y = r2[j].0;
        assert(r2[j].1 > 0);
        assert(occurrences(combos, y as nat) > 0);
        let m1 = choose|m: int| 0 <= m < r1.len() && r1[m].0 == y as nat;
        if m1 < j {
            assert(r1[m1] == r2[m1]);
        }
        assert(sort_key(r1[j], StatsOrder::Val) <= sort_key(r1[m1], StatsOrder::Val));
        assert(r1[j].0 == r2[j].0);
    }
}

/// Two calls of the statistics mode on the same dice and order give the same
/// distribution: equal counts for every sum, and in ascending order of sums
/// the very same list.
pub proof fn lemma_stats_deterministic(
    dice: Seq<Die>,
    order: StatsOrder,
    r1: Seq<(usize, usize)>,
    r2: Seq<(usize, usize)>,
)
    requires
        is_stats_result(dice, order, r1),
        is_stats_result(dice, order, r2),
    ensures
        forall|v: nat| #[trigger] count_of(r1, v) == count_of(r2, v),
        order == StatsOrder::Val ==> r1 == r2,
{
    let combos = outcomes(dice);
    assert forall|v: nat| #[trigger] count_of(r1, v) == count_of(r2, v) by {
        lemma_count_of(r1, combos, v);
        lemma_count_of(r2, combos, v);
    }
    if order == StatsOrder::Val {
        if r1.len() <= r2.len() {
            lemma_val_prefix(r1, r2, combos, r1.len() as int);
            if r1.len() < r2.len() {
                let y = r2[r1.len() as int].0;
                assert(r2[r1.len() as int].1 > 0);
                assert(occurrences(combos, y as nat) > 0);
                let m = choose|m: int| 0 <= m < r1.len() && r1[m].0 == y as nat;
                assert(r1[m] == r2[m]);
            }
        } else {
            lemma_val_prefix(r1, r2, combos, r2.len() as int);
            let y = r1[r2.len() as int].0;
            assert(r1[r2.len() as int].1 > 0);
            assert(occurrences(combos, y as nat) > 0);
            let m = choose|m: int| 0 <= m < r2.len() && r2[m].0 == y as nat;
            assert(r1[m] == r2[m]);
        }
        assert(r1 =~= r2);
    }
}

/// With no dice the only combination is the empty one: the distribution is a
/// single entry, sum 0 counted once.
pub proof fn lemma_no_dice(order: StatsOrder, r: Seq<(usize, usize)>)
    requires
        is_stats_result(Seq::<Die>::empty(), order, r),
    ensures
        r == seq![(0usize, 1usize)],
{
    let combos = outcomes(Seq::<Die>::empty());
    assert(die_sides(Seq::<Die>::empty()) == Seq::<usize>::empty());
    assert(Seq::<usize>::empty().map_values(|s: usize| faces(s)) =~= Seq::<Seq<usize>>::empty());
    assert(combos == seq![Seq::<usize>::empty()]);
    assert(combos.drop_last() =~= Seq::<Seq<usize>>::empty());
    assert(total(Seq::<usize>::empty()) == 0);
    assert(combos.last() == Seq::<usize>::empty());
    assert forall|v: nat| #[trigger] occurrences(combos, v) == if v == 0 { 1nat } else { 0nat } by {
        assert(occurrences(Seq::<Seq<usize>>::empty(), v) == 0);
    }
    assert(occurrences(combos, 0) == 1);
    let i = choose|i: int| 0 <= i < r.len() && r[i].0 == 0nat;
    assert forall|j: int| 0 <= j < r.len() implies r[j] == (0usize, 1usize) by {
        assert(r[j].1 > 0);
        assert(occurrences(combos, r[j].0 as nat) == if r[j].0 == 0 { 1nat } else { 0nat });
    }
    if r.len() > 1 {
        assert(r[0].0 == r[1].0);
    }
    assert(r =~= seq![(0usize, 1usize)]);
}

} // verus!
