//! Single random draw: shuffle the pool and take outputs until the target,
//! plus a minimum change, is reached.
use vstd::prelude::*;

use crate::candidates::{
    eff_of, eff_sum, is_positive, is_subset_of, kept_total, lemma_subset_within_total, picks_at,
    positive_total, targets,
};
use crate::fee::WeightedUtxo;
use crate::{CHANGE_LOWER, MAX_MONEY};

verus! {

/// What `u` adds to a random draw: its effective value where positive, else 0.
pub open spec fn drawn_value(u: WeightedUtxo, fee_rate: u64) -> int {
    if is_positive(u, fee_rate) {
        eff_of(u, fee_rate)
    } else {
        0
    }
}

/// The value drawn from the first `k` outputs of `pool` in the order `order`.
pub open spec fn drawn_sum(pool: Seq<WeightedUtxo>, order: Seq<usize>, fee_rate: u64, k: int) -> int
    decreases k,
{
    if k <= 0 {
        0
    } else {
        drawn_sum(pool, order, fee_rate, k - 1) + drawn_value(pool[order[k - 1] as int], fee_rate)
    }
}

/// The outputs taken from the first `k` outputs of `pool` in the order
/// `order`: those of positive effective value.
pub open spec fn drawn(pool: Seq<WeightedUtxo>, order: Seq<usize>, fee_rate: u64, k: int) -> Seq<
    WeightedUtxo,
>
    decreases k,
{
    if k <= 0 {
        Seq::empty()
    } else {
        let before = drawn(pool, order, fee_rate, k - 1);
        let u = pool[order[k - 1] as int];
        if is_positive(u, fee_rate) {
            before.push(u)
        } else {
            before
        }
    }
}

/// The drawn value never decreases as the draw goes on.
proof fn lemma_drawn_sum_monotone(
    pool: Seq<WeightedUtxo>,
    order: Seq<usize>,
    fee_rate: u64,
    a: int,
    b: int,
)
    requires
        0 <= a <= b,
    ensures
        drawn_sum(pool, order, fee_rate, a) <= drawn_sum(pool, order, fee_rate, b),
    decreases b - a,
{
    if a < b {
        lemma_drawn_sum_monotone(pool, order, fee_rate, a, b - 1);
    }
}

/// The drawn outputs are positive, sum to the drawn value, and sit at
/// increasing positions `pos` of the order.
proof fn lemma_drawn(pool: Seq<WeightedUtxo>, order: Seq<usize>, fee_rate: u64, k: int) -> (pos:
    Seq<int>)
    requires
        0 <= k <= order.len(),
    ensures
        pos.len() == drawn(pool, order, fee_rate, k).len(),
        forall|t: int| 0 <= t < pos.len() ==> 0 <= #[trigger] pos[t] < k,
        forall|a: int, b: int| 0 <= a < b < pos.len() ==> pos[a] < pos[b],
        forall|t: int|
            0 <= t < pos.len() ==> #[trigger] drawn(pool, order, fee_rate, k)[t] == pool[order[pos[t]] as int],
        forall|t: int|
            0 <= t < pos.len() ==> is_positive(#[trigger] drawn(pool, order, fee_rate, k)[t], fee_rate),
        eff_sum(drawn(pool, order, fee_rate, k), fee_rate) == drawn_sum(pool, order, fee_rate, k),
    decreases k,
{
    if k == 0 {
        Seq::empty()
    } else {
        let p = lemma_drawn(pool, order, fee_rate, k - 1);
        let before = drawn(pool, order, fee_rate, k - 1);
        let u = pool[order[k - 1] as int];
        if is_positive(u, fee_rate) {
            let now = before.push(u);
            assert(now.drop_last() =~= before);
            let q = p.push(k - 1);
            assert forall|t: int| 0 <= t < q.len() implies #[trigger] now[t] == pool[order[q[t]] as int] by {
                if t < p.len() {
                    assert(now[t] == before[t]);
                }
            }
            assert forall|t: int| 0 <= t < q.len() implies is_positive(#[trigger] now[t], fee_rate) by {
                if t < p.len() {
                    assert(now[t] == before[t]);
                }
            }
            q
        } else {
            p
        }
    }
}

/// The drawn value depends only on the part of the order drawn so far.
proof fn lemma_drawn_sum_prefix(
    pool: Seq<WeightedUtxo>,
    a: Seq<usize>,
    b: Seq<usize>,
    fee_rate: u64,
    k: int,
)
    requires
        0 <= k <= a.len(),
        k <= b.len(),
        forall|j: int| 0 <= j < k ==> a[j] == b[j],
    ensures
        drawn_sum(pool, a, fee_rate, k) == drawn_sum(pool, b, fee_rate, k),
    decreases k,
{
    if k > 0 {
        lemma_drawn_sum_prefix(pool, a, b, fee_rate, k - 1);
    }
}

/// The drawn value depends only on the outputs that the order reaches.
proof fn lemma_drawn_sum_pool(
    pool: Seq<WeightedUtxo>,
    other: Seq<WeightedUtxo>,
    order: Seq<usize>,
    fee_rate: u64,
    k: int,
)
    requires
        0 <= k <= order.len(),
        forall|j: int|
            0 <= j < k ==> order[j] < pool.len() && order[j] < other.len() && pool[order[j] as int]
                == other[order[j] as int],
    ensures
        drawn_sum(pool, order, fee_rate, k) == drawn_sum(other, order, fee_rate, k),
    decreases k,
{
    if k > 0 {
        lemma_drawn_sum_pool(pool, other, order, fee_rate, k - 1);
    }
}

/// Taking one position out of a whole order takes its output's value out of the draw.
proof fn lemma_drawn_sum_remove(pool: Seq<WeightedUtxo>, order: Seq<usize>, fee_rate: u64, t: int)
    requires
        0 <= t < order.len(),
    ensures
        drawn_sum(pool, order, fee_rate, order.len() as int) == drawn_sum(
            pool,
            order.remove(t),
            fee_rate,
            order.len() - 1,
        ) + drawn_value(pool[order[t] as int], fee_rate),
    decreases order.len(),
{
    let n = order.len() as int;
    if t == n - 1 {
        lemma_drawn_sum_prefix(pool, order, order.remove(t), fee_rate, n - 1);
    } else {
        let shorter = order.drop_last();
        lemma_drawn_sum_remove(pool, shorter, fee_rate, t);
        lemma_drawn_sum_prefix(pool, order, shorter, fee_rate, n - 1);
        lemma_drawn_sum_prefix(pool, order.remove(t), shorter.remove(t), fee_rate, n - 2);
        assert(order.remove(t)[n - 2] == order[n - 1]);
    }
}

/// An order that lists every position of the pool once draws the value of
/// all the outputs of positive effective value.
proof fn lemma_drawn_sum_whole(pool: Seq<WeightedUtxo>, order: Seq<usize>, fee_rate: u64)
    requires
        pool.len() <= usize::MAX,
        order.no_duplicates(),
        forall|k: int| 0 <= k < order.len() ==> #[trigger] order[k] < pool.len(),
        forall|i: usize| i < pool.len() ==> #[trigger] order.contains(i),
    ensures
        drawn_sum(pool, order, fee_rate, order.len() as int) == positive_total(pool, fee_rate),
    decreases pool.len(),
{
    if pool.len() == 0 {
        if order.len() > 0 {
            assert(order[0] < pool.len());
        }
    } else {
        let last = (pool.len() - 1) as usize;
        assert(order.contains(last));
        let t = choose|t: int| 0 <= t < order.len() && order[t] == last;
        let rest = order.remove(t);
        let smaller = pool.drop_last();
        assert forall|k: int| 0 <= k < rest.len() implies #[trigger] rest[k] < smaller.len() by {
            if k < t {
                assert(rest[k] == order[k] && order[k] != order[t]);
            } else {
                assert(rest[k] == order[k + 1] && order[k + 1] != order[t]);
            }
        }
        assert(rest.no_duplicates()) by {
            assert forall|a: int, b: int| 0 <= a < rest.len() && 0 <= b < rest.len() && a != b
                implies rest[a] != rest[b] by {
                let a1 = if a < t { a } else { a + 1 };
                let b1 = if b < t { b } else { b + 1 };
                assert(rest[a] == order[a1] && rest[b] == order[b1]);
            }
        }
        assert forall|i: usize| i < smaller.len() implies #[trigger] rest.contains(i) by {
            assert(order.contains(i));
            let j = choose|j: int| 0 <= j < order.len() && order[j] == i;
            if j < t {
                assert(rest[j] == order[j]);
            } else {
                assert(j != t);
                assert(rest[j - 1] == order[j]);
            }
        }
        lemma_drawn_sum_whole(smaller, rest, fee_rate);
        lemma_drawn_sum_pool(pool, smaller, rest, fee_rate, rest.len() as int);
        lemma_drawn_sum_remove(pool, order, fee_rate, t);
        let keep = |u: WeightedUtxo| is_positive(u, fee_rate);
        assert(positive_total(pool, fee_rate) == kept_total(pool, keep, fee_rate));
        assert(positive_total(smaller, fee_rate) == kept_total(smaller, keep, fee_rate));
        assert(kept_total(pool, keep, fee_rate) == kept_total(smaller, keep, fee_rate)
            + drawn_value(pool.last(), fee_rate));
    }
}

/// A draw from the first `k` outputs takes at most `k` of them.
proof fn lemma_drawn_len(pool: Seq<WeightedUtxo>, order: Seq<usize>, fee_rate: u64, k: int)
    requires
        0 <= k,
    ensures
        drawn(pool, order, fee_rate, k).len() <= k,
    decreases k,
{
    if k > 0 {
        lemma_drawn_len(pool, order, fee_rate, k - 1);
    }
}

/// Relies on rand's `SliceRandom::shuffle`: it reorders the items in place.
#[verifier::external_body]
fn shuffle<R: rand::Rng + ?Sized>(order: &mut Vec<usize>, rng: &mut R)
    ensures
        final(order)@.to_multiset() == old(order)@.to_multiset(),
{
    rand::seq::SliceRandom::shuffle(order.as_mut_slice(), rng)
}

/// A random draw over a given order: goes through `weighted_utxos` in the
/// order `order` lists their positions, takes each output of positive
/// effective value, and stops as soon as the value taken reaches
/// `target + CHANGE_LOWER`. Returns the number of outputs gone through and the
/// outputs taken, or `None` where `target` exceeds `MAX_MONEY` or the order
/// runs out first.
pub fn select_coins_srd_in_order<'a>(
    target: u64,
    fee_rate: u64,
    weighted_utxos: &'a [WeightedUtxo],
    order: &Vec<usize>,
) -> (r: Option<(u32, Vec<&'a WeightedUtxo>)>)
    requires
        forall|k: int| 0 <= k < order@.len() ==> #[trigger] order@[k] < weighted_utxos@.len(),
        order@.len() <= u32::MAX,
    ensures
        target > MAX_MONEY ==> r is None,
        target <= MAX_MONEY ==> (r is Some <==> drawn_sum(
            weighted_utxos@,
            order@,
            fee_rate,
            order@.len() as int,
        ) >= target + CHANGE_LOWER),
        r matches Some((iterations, selected)) ==> {
            &&& 1 <= iterations <= order@.len()
            &&& drawn_sum(weighted_utxos@, order@, fee_rate, iterations as int) >= target
                + CHANGE_LOWER
            &&& drawn_sum(weighted_utxos@, order@, fee_rate, iterations - 1) < target
                + CHANGE_LOWER
            &&& targets(selected@) == drawn(weighted_utxos@, order@, fee_rate, iterations as int)
        },
{
    if target > MAX_MONEY {
        return None;
    }
    let threshold = target + CHANGE_LOWER;
    let mut value: u64 = 0;
    let mut result: Vec<&'a WeightedUtxo> = Vec::new();
    let mut k: usize = 0;
    while k < order.len()
        invariant
            forall|k: int| 0 <= k < order@.len() ==> #[trigger] order@[k] < weighted_utxos@.len(),
            order@.len() <= u32::MAX,
            threshold == target + CHANGE_LOWER,
            target <= MAX_MONEY,
            k <= order@.len(),
            value == drawn_sum(weighted_utxos@, order@, fee_rate, k as int) < threshold,
            targets(result@) == drawn(weighted_utxos@, order@, fee_rate, k as int),
        decreases order@.len() - k,
    {
        let u = &weighted_utxos[order[k]];
        let ghost before = result@;
        match u.effective_value(fee_rate) {
            Some(e) => {
                if e > 0 {
                    value = value + e as u64;
                    result.push(u);
                    assert(targets(result@) =~= targets(before).push(*u));
                }
            },
            None => {},
        }
        k += 1;
        if value >= threshold {
            proof {
                lemma_drawn_sum_monotone(weighted_utxos@, order@, fee_rate, k as int, order@.len() as int);
            }
            return Some((k as u32, result));
        }
    }
    None
}

/// Randomly selects outputs: shuffles the pool with `rng`, then takes outputs
/// of positive effective value until their sum reaches
/// `target + CHANGE_LOWER`, so that the change left is worth an output.
/// Returns the number of outputs gone through and the outputs taken, or `None`
/// where `target` exceeds `MAX_MONEY` or the pool runs out first.
pub fn select_coins_srd<'a, R: rand::Rng + ?Sized>(
    target: u64,
    fee_rate: u64,
    weighted_utxos: &'a [WeightedUtxo],
    rng: &mut R,
) -> (r: Option<(u32, Vec<&'a WeightedUtxo>)>)
    requires
        weighted_utxos@.len() <= u32::MAX,
    ensures
        target > MAX_MONEY ==> r is None,
        r matches Some((iterations, selected)) ==> {
            &&& 1 <= iterations <= weighted_utxos@.len()
            &&& is_subset_of(targets(selected@), weighted_utxos@)
            &&& forall|k: int|
                0 <= k < selected@.len() ==> is_positive(#[trigger] targets(selected@)[k], fee_rate)
            &&& eff_sum(targets(selected@), fee_rate) >= target + CHANGE_LOWER
            &&& selected@.len() <= iterations
            &&& eff_sum(targets(selected@).drop_last(), fee_rate) < target + CHANGE_LOWER
            &&& exists|order: Seq<usize>|
                {
                    &&& order.len() == weighted_utxos@.len()
                    &&& order.no_duplicates()
                    &&& forall|k: int| 0 <= k < order.len() ==> #[trigger] order[k] < weighted_utxos@.len()
                    &&& targets(selected@) == drawn(weighted_utxos@, order, fee_rate, iterations as int)
                }
        },
        target <= MAX_MONEY ==> (r is None <==> positive_total(weighted_utxos@, fee_rate) < target
            + CHANGE_LOWER),
        target <= MAX_MONEY && r is None ==> forall|s: Seq<WeightedUtxo>|
            #[trigger] is_subset_of(s, weighted_utxos@) ==> eff_sum(s, fee_rate) < target
                + CHANGE_LOWER,
{
    let n = weighted_utxos.len();
    let mut order: Vec<usize> = Vec::new();
    let mut i: usize = 0;
    while i < n
        invariant
            i <= n == weighted_utxos@.len(),
            order@.len() == i,
            forall|k: int| 0 <= k < i ==> order@[k] == k,
        decreases n - i,
    {
        order.push(i);
        i += 1;
    }
    let ghost identity = order@;
    assert(identity.no_duplicates());
    shuffle(&mut order, rng);
    proof {
        broadcast use vstd::seq_lib::group_to_multiset_ensures;

        assert(order@.to_multiset().len() == identity.to_multiset().len());
        assert forall|k: int| 0 <= k < order@.len() implies #[trigger] order@[k] < n by {
            assert(order@.to_multiset().count(order@[k]) > 0);
            assert(identity.contains(order@[k]));
        }
        identity.lemma_multiset_has_no_duplicates();
        order@.lemma_multiset_has_no_duplicates_conv();
        assert forall|i: usize| i < n implies #[trigger] order@.contains(i) by {
            assert(identity[i as int] == i);
            assert(identity.to_multiset().count(i) > 0);
            assert(order@.to_multiset().count(i) > 0);
        }
        lemma_drawn_sum_whole(weighted_utxos@, order@, fee_rate);
    }
    let r = select_coins_srd_in_order(target, fee_rate, weighted_utxos, &order);
    proof {
        if let Some((iterations, selected)) = &r {
            let k = *iterations as int;
            let pos = lemma_drawn(weighted_utxos@, order@, fee_rate, k);
            let picked = targets(selected@);
            let idx = pos.map_values(|p: int| order@[p] as int);
            assert forall|a: int, b: int| 0 <= a < idx.len() && 0 <= b < idx.len() && a != b implies idx[a]
                != idx[b] by {
                if a < b {
                    assert(pos[a] < pos[b]);
                } else {
                    assert(pos[b] < pos[a]);
                }
            }
            assert forall|t: int| 0 <= t < idx.len() implies 0 <= #[trigger] idx[t] < weighted_utxos@.len()
                && picked[t] == weighted_utxos@[idx[t]] by {
                assert(picked[t] == drawn(weighted_utxos@, order@, fee_rate, k)[t]);
            }
            assert(picks_at(picked, weighted_utxos@, idx));
            lemma_drawn_len(weighted_utxos@, order@, fee_rate, k);
            let before = drawn(weighted_utxos@, order@, fee_rate, k - 1);
            let _ = lemma_drawn(weighted_utxos@, order@, fee_rate, k - 1);
            assert(is_positive(weighted_utxos@[order@[k - 1] as int], fee_rate));
            assert(picked == before.push(weighted_utxos@[order@[k - 1] as int]));
            assert(picked.drop_last() =~= before);
            assert(order@.len() == weighted_utxos@.len());
            assert forall|t: int| 0 <= t < selected@.len() implies is_positive(#[trigger] targets(selected@)[t], fee_rate) by {
                assert(picked[t] == drawn(weighted_utxos@, order@, fee_rate, k)[t]);
            }
            let keep = |u: WeightedUtxo| is_positive(u, fee_rate);
            assert forall|t: int| 0 <= t < picked.len() implies keep(#[trigger] picked[t]) by {
                assert(is_positive(targets(selected@)[t], fee_rate));
            }
            lemma_subset_within_total(picked, weighted_utxos@, keep, fee_rate);
        }
        if target <= MAX_MONEY && r is None {
            let keep = |u: WeightedUtxo| is_positive(u, fee_rate);
            assert forall|s: Seq<WeightedUtxo>| #[trigger] is_subset_of(s, weighted_utxos@) implies eff_sum(s, fee_rate) < target + CHANGE_LOWER by {
                assert forall|k: int| 0 <= k < s.len() implies keep(#[trigger] s[k]) || eff_of(s[k], fee_rate) <= 0 by {}
                lemma_subset_within_total(s, weighted_utxos@, keep, fee_rate);
            }
        }
    }
    r
}

} // verus!
