//! Coin grinder: a depth-first search for the lightest selection whose
//! effective value reaches `target + change_target`.
use vstd::prelude::*;

use crate::candidates::{
    checked_total, eff_of, eff_sum, increasing_below, index_to_utxo_list, is_positive,
    is_subset_of, key_le, lemma_eff_sum_picked, lemma_picked_subset, lemma_sel_sum_bound,
    lemma_ordered_unique, lemma_subset_within_total, lemma_total_within_candidates, lemma_tail_sum_antitone, lemma_weight_sum_picked, origins_ok,
    positive_total, sel_sum, sorted_descending, tail_sum, targets, weight_sum,
};
use crate::branch_and_bound::{result_from, SearchEnd};
use crate::fee::WeightedUtxo;
use crate::ITERATION_LIMIT;

verus! {

/// The outputs of `pool` with a positive effective value, in pool order:
/// each as its effective value and its pool position.
pub open spec fn positive_candidates(pool: Seq<WeightedUtxo>, fee_rate: u64) -> Seq<(u64, usize)>
    decreases pool.len(),
{
    if pool.len() == 0 {
        Seq::empty()
    } else {
        let rest = positive_candidates(pool.drop_last(), fee_rate);
        if is_positive(pool.last(), fee_rate) {
            rest.push((eff_of(pool.last(), fee_rate) as u64, (pool.len() - 1) as usize))
        } else {
            rest
        }
    }
}

/// The least of `weights` after position `i`, or `u64::MAX` where there is none.
pub open spec fn min_after(weights: Seq<u64>, i: int) -> u64
    decreases weights.len() - i,
{
    if i + 1 >= weights.len() || i + 1 < 0 {
        u64::MAX
    } else {
        let rest = min_after(weights, i + 1);
        if weights[i + 1] < rest {
            weights[i + 1]
        } else {
            rest
        }
    }
}

/// Each positive candidate names a distinct position of the pool, in increasing order.
proof fn lemma_positive_candidates(pool: Seq<WeightedUtxo>, fee_rate: u64)
    requires
        pool.len() <= usize::MAX,
    ensures
        forall|k: int|
            0 <= k < positive_candidates(pool, fee_rate).len() ==> {
                let c = #[trigger] positive_candidates(pool, fee_rate)[k];
                &&& c.1 < pool.len()
                &&& is_positive(pool[c.1 as int], fee_rate)
                &&& c.0 == eff_of(pool[c.1 as int], fee_rate)
            },
        forall|a: int, b: int|
            0 <= a < b < positive_candidates(pool, fee_rate).len() ==> positive_candidates(
                pool,
                fee_rate,
            )[a].1 < positive_candidates(pool, fee_rate)[b].1,
        forall|q: int|
            0 <= q < pool.len() && #[trigger] is_positive(pool[q], fee_rate) ==> exists|k: int|
                0 <= k < positive_candidates(pool, fee_rate).len() && positive_candidates(
                    pool,
                    fee_rate,
                )[k].1 == q,
    decreases pool.len(),
{
    if pool.len() > 0 {
        lemma_positive_candidates(pool.drop_last(), fee_rate);
        let rest = positive_candidates(pool.drop_last(), fee_rate);
        let full = positive_candidates(pool, fee_rate);
        assert forall|k: int| 0 <= k < rest.len() implies rest[k].1 < pool.len() - 1 && pool[rest[k].1 as int] == pool.drop_last()[rest[k].1 as int] by {}
        if is_positive(pool.last(), fee_rate) {
            let c = (eff_of(pool.last(), fee_rate) as u64, (pool.len() - 1) as usize);
            assert(full == rest.push(c));
            assert(eff_of(pool.last(), fee_rate) > 0 && eff_of(pool.last(), fee_rate) <= i64::MAX);
            assert forall|k: int| 0 <= k < full.len() implies #[trigger] full[k].1 < pool.len()
                && is_positive(pool[full[k].1 as int], fee_rate) && full[k].0 == eff_of(pool[full[k].1 as int], fee_rate) by {
                if k < rest.len() {
                    assert(full[k] == rest[k]);
                }
            }
            assert forall|a: int, b: int| 0 <= a < b < full.len() implies full[a].1 < full[b].1 by {
                assert(full[a] == rest[a]);
                if b < rest.len() {
                    assert(full[b] == rest[b]);
                }
            }
            assert forall|q: int| 0 <= q < pool.len() && #[trigger] is_positive(pool[q], fee_rate)
                implies exists|k: int| 0 <= k < full.len() && full[k].1 == q by {
                if q < pool.len() - 1 {
                    assert(pool[q] == pool.drop_last()[q]);
                    let k = choose|k: int| 0 <= k < rest.len() && rest[k].1 == q;
                    assert(full[k] == rest[k]);
                } else {
                    assert(full[rest.len() as int] == c);
                }
            }
        } else {
            assert(full == rest);
            assert forall|q: int| 0 <= q < pool.len() && #[trigger] is_positive(pool[q], fee_rate)
                implies exists|k: int| 0 <= k < full.len() && full[k].1 == q by {
                if q < pool.len() - 1 {
                    assert(pool[q] == pool.drop_last()[q]);
                }
            }
        }
    }
}

/// The candidates of the search: each output of `weighted_utxos` with a
/// positive effective value at `fee_rate`, in pool order, as its effective
/// value and its position.
pub fn calc_effective_values(weighted_utxos: &[WeightedUtxo], fee_rate: u64) -> (r: Vec<(u64, usize)>)
    ensures
        r@ == positive_candidates(weighted_utxos@, fee_rate),
{
    let mut r: Vec<(u64, usize)> = Vec::new();
    let mut i: usize = 0;
    while i < weighted_utxos.len()
        invariant
            i <= weighted_utxos@.len(),
            r@ == positive_candidates(weighted_utxos@.subrange(0, i as int), fee_rate),
        decreases weighted_utxos@.len() - i,
    {
        let ghost before = weighted_utxos@.subrange(0, i as int);
        let ghost after = weighted_utxos@.subrange(0, i as int + 1);
        assert(after.drop_last() =~= before);
        match weighted_utxos[i].effective_value(fee_rate) {
            Some(e) => {
                if e > 0 {
                    r.push((e as u64, i));
                }
            },
            None => {},
        }
        i += 1;
    }
    assert(weighted_utxos@.subrange(0, weighted_utxos@.len() as int) =~= weighted_utxos@);
    r
}

/// For each candidate, the sum of the effective values after it: `available_value`
/// less the values up to and including it.
pub fn build_lookahead(effective_values: &Vec<u64>, available_value: u64) -> (r: Vec<u64>)
    requires
        tail_sum(effective_values@, 0) <= available_value,
    ensures
        r@.len() == effective_values@.len(),
        forall|i: int|
            0 <= i < r@.len() ==> r@[i] == available_value - tail_sum(effective_values@, 0)
                + tail_sum(effective_values@, i + 1),
{
    let mut r: Vec<u64> = Vec::new();
    let mut state = available_value;
    let mut i: usize = 0;
    while i < effective_values.len()
        invariant
            i <= effective_values@.len(),
            r@.len() == i,
            tail_sum(effective_values@, 0) <= available_value,
            state == available_value - tail_sum(effective_values@, 0) + tail_sum(
                effective_values@,
                i as int,
            ),
            forall|k: int|
                0 <= k < i ==> r@[k] == available_value - tail_sum(effective_values@, 0)
                    + tail_sum(effective_values@, k + 1),
        decreases effective_values@.len() - i,
    {
        proof {
            lemma_tail_sum_antitone(effective_values@, i as int + 1, effective_values@.len() as int);
        }
        state = state - effective_values[i];
        r.push(state);
        i += 1;
    }
    r
}

/// For each candidate, the least weight of the candidates after it, or
/// `u64::MAX` for the last.
pub fn build_min_tail_weight(weights: &Vec<u64>) -> (r: Vec<u64>)
    ensures
        r@.len() == weights@.len(),
        forall|i: int| 0 <= i < r@.len() ==> r@[i] == min_after(weights@, i),
{
    let n = weights.len();
    let mut reversed: Vec<u64> = Vec::new();
    let mut prev: u64 = u64::MAX;
    let mut k: usize = n;
    while k > 0
        invariant
            k <= n == weights@.len(),
            reversed@.len() == n - k,
            prev == min_after(weights@, k as int - 1),
            forall|j: int| 0 <= j < reversed@.len() ==> reversed@[j] == min_after(weights@, n - 1 - j),
        decreases k,
    {
        k -= 1;
        reversed.push(prev);
        if weights[k] < prev {
            prev = weights[k];
        }
    }
    let mut r: Vec<u64> = Vec::new();
    let mut j: usize = n;
    while j > 0
        invariant
            j <= n == reversed@.len() == weights@.len(),
            r@.len() == n - j,
            forall|i: int| 0 <= i < reversed@.len() ==> reversed@[i] == min_after(weights@, n - 1 - i),
            forall|i: int| 0 <= i < r@.len() ==> r@[i] == min_after(weights@, i),
        decreases j,
    {
        j -= 1;
        r.push(reversed[j]);
    }
    r
}

/// A sum of `values` from `i` on is at most one `u64::MAX` per value.
proof fn lemma_tail_sum_le_count(values: Seq<u64>, i: int)
    requires
        0 <= i <= values.len(),
    ensures
        tail_sum(values, i) <= (values.len() - i) * u64::MAX,
    decreases values.len() - i,
{
    if i < values.len() {
        lemma_tail_sum_le_count(values, i + 1);
        assert((values.len() - i) * u64::MAX == (values.len() - i - 1) * u64::MAX + u64::MAX)
            by (nonlinear_arith);
    }
}

/// What a coin grinder result promises: a non-empty subset of the pool's
/// outputs of positive effective value that reaches `target + change_target`
/// and weighs at most `max_selection_weight`.
pub open spec fn cg_result_ok(
    r: Option<(u32, Vec<&WeightedUtxo>)>,
    target: u64,
    change_target: u64,
    max_selection_weight: u64,
    fee_rate: u64,
    pool: Seq<WeightedUtxo>,
) -> bool {
    r matches Some((iterations, selected)) ==> {
        &&& 1 <= iterations <= ITERATION_LIMIT
        &&& selected@.len() > 0
        &&& is_subset_of(targets(selected@), pool)
        &&& forall|k: int|
            0 <= k < selected@.len() ==> is_positive(#[trigger] targets(selected@)[k], fee_rate)
        &&& eff_sum(targets(selected@), fee_rate) >= target + change_target
        &&& weight_sum(targets(selected@)) <= max_selection_weight
    }
}

/// `effs`, `weights` and `origs` are the candidates of coin grinder: one for
/// each output of the pool with a positive effective value, ordered by
/// descending effective value, then descending weight, then pool position.
pub open spec fn cg_candidates_ok(
    pool: Seq<WeightedUtxo>,
    fee_rate: u64,
    effs: Seq<u64>,
    weights: Seq<u64>,
    origs: Seq<usize>,
) -> bool {
    &&& effs.len() == weights.len() == origs.len()
    &&& origins_ok(origs, pool.len() as int)
    &&& forall|j: int|
        0 <= j < origs.len() ==> {
            &&& is_positive(pool[#[trigger] origs[j] as int], fee_rate)
            &&& effs[j] == eff_of(pool[origs[j] as int], fee_rate)
            &&& weights[j] == pool[origs[j] as int].weight
        }
    &&& forall|q: int|
        0 <= q < pool.len() && #[trigger] is_positive(pool[q], fee_rate) ==> exists|j: int|
            0 <= j < origs.len() && origs[j] == q
    &&& forall|i: int, j: int|
        0 <= i < j < origs.len() ==> effs[j] < effs[i] || (effs[j] == effs[i] && (weights[j]
            < weights[i] || (weights[j] == weights[i] && origs[i] < origs[j])))
}

/// The candidates of the search ordered by descending effective value, then
/// descending weight, then pool position: their effective values, their
/// weights and their pool positions.
fn cg_candidates(pool: &[WeightedUtxo], fee_rate: u64) -> (r: (Vec<u64>, Vec<u64>, Vec<usize>))
    ensures
        r.0@.len() == r.1@.len() == r.2@.len(),
        origins_ok(r.2@, pool@.len() as int),
        forall|j: int|
            0 <= j < r.2@.len() ==> {
                &&& is_positive(pool@[#[trigger] r.2@[j] as int], fee_rate)
                &&& r.0@[j] == eff_of(pool@[r.2@[j] as int], fee_rate)
                &&& r.1@[j] == pool@[r.2@[j] as int].weight
            },
        cg_candidates_ok(pool@, fee_rate, r.0@, r.1@, r.2@),
{
    let n = pool.len();
    let w_utxos = calc_effective_values(pool, fee_rate);
    proof {
        lemma_positive_candidates(pool@, fee_rate);
    }
    let mut keys: Vec<(u64, u64, usize)> = Vec::new();
    let mut k: usize = 0;
    while k < w_utxos.len()
        invariant
            k <= w_utxos@.len(),
            n == pool@.len(),
            w_utxos@ == positive_candidates(pool@, fee_rate),
            forall|i: int| 0 <= i < w_utxos@.len() ==> #[trigger] w_utxos@[i].1 < n,
            keys@.len() == k,
            forall|i: int|
                0 <= i < k ==> #[trigger] keys@[i] == (
                    w_utxos@[i].0,
                    pool@[w_utxos@[i].1 as int].weight,
                    (n - 1 - w_utxos@[i].1) as usize,
                ),
        decreases w_utxos@.len() - k,
    {
        let (e, pos) = w_utxos[k];
        keys.push((e, pool[pos].weight, n - 1 - pos));
        k += 1;
    }
    let ghost before = keys@;
    assert forall|i: int| 0 <= i < before.len() implies {
        let c = #[trigger] before[i];
        &&& c.2 < n
        &&& is_positive(pool@[n - 1 - c.2], fee_rate)
        &&& c.0 == eff_of(pool@[n - 1 - c.2], fee_rate)
        &&& c.1 == pool@[n - 1 - c.2].weight
    } by {
        assert(before[i] == (w_utxos@[i].0, pool@[w_utxos@[i].1 as int].weight, (n - 1 - w_utxos@[i].1) as usize));
    }
    assert forall|i: int, j: int| 0 <= i < j < before.len() implies before[i].2 != before[j].2 by {
        assert(w_utxos@[i].1 < w_utxos@[j].1);
        assert(before[i] == (w_utxos@[i].0, pool@[w_utxos@[i].1 as int].weight, (n - 1 - w_utxos@[i].1) as usize));
        assert(before[j] == (w_utxos@[j].0, pool@[w_utxos@[j].1 as int].weight, (n - 1 - w_utxos@[j].1) as usize));
    }
    let sorted = sorted_descending(keys);
    let mut effs: Vec<u64> = Vec::new();
    let mut weights: Vec<u64> = Vec::new();
    let mut origs: Vec<usize> = Vec::new();
    let mut k: usize = 0;
    while k < sorted.len()
        invariant
            k <= sorted@.len(),
            n == pool@.len(),
            effs@.len() == k && weights@.len() == k && origs@.len() == k,
            forall|i: int| 0 <= i < sorted@.len() ==> before.contains(#[trigger] sorted@[i]),
            forall|i: int|
                0 <= i < before.len() ==> {
                    let c = #[trigger] before[i];
                    &&& c.2 < n
                    &&& is_positive(pool@[n - 1 - c.2], fee_rate)
                    &&& c.0 == eff_of(pool@[n - 1 - c.2], fee_rate)
                    &&& c.1 == pool@[n - 1 - c.2].weight
                },
            forall|a: int, b: int| 0 <= a < b < sorted@.len() ==> sorted@[a].2 != sorted@[b].2,
            forall|a: int, b: int| 0 <= a < b < sorted@.len() ==> key_le(sorted@[b], sorted@[a]),
            forall|i: int| 0 <= i < before.len() ==> sorted@.contains(#[trigger] before[i]),
            w_utxos@ == positive_candidates(pool@, fee_rate),
            before.len() == w_utxos@.len(),
            forall|i: int|
                0 <= i < before.len() ==> #[trigger] before[i] == (
                    w_utxos@[i].0,
                    pool@[w_utxos@[i].1 as int].weight,
                    (n - 1 - w_utxos@[i].1) as usize,
                ),
            forall|i: int| 0 <= i < w_utxos@.len() ==> #[trigger] w_utxos@[i].1 < n,
            forall|q: int|
                0 <= q < pool@.len() && #[trigger] is_positive(pool@[q], fee_rate) ==> exists|k: int|
                    0 <= k < w_utxos@.len() && w_utxos@[k].1 == q,
            forall|j: int|
                0 <= j < k ==> origs@[j] == n - 1 - sorted@[j].2 && effs@[j] == sorted@[j].0
                    && weights@[j] == sorted@[j].1,
        decreases sorted@.len() - k,
    {
        let (e, w, key) = sorted[k];
        assert(before.contains(sorted@[k as int]));
        effs.push(e);
        weights.push(w);
        origs.push(n - 1 - key);
        k += 1;
    }
    proof {
        assert forall|j: int| 0 <= j < origs@.len() implies #[trigger] origs@[j] < pool@.len()
            && is_positive(pool@[origs@[j] as int], fee_rate) && effs@[j] == eff_of(
            pool@[origs@[j] as int],
            fee_rate,
        ) && weights@[j] == pool@[origs@[j] as int].weight by {
            assert(before.contains(sorted@[j]));
        }
        assert forall|i: int, j: int| 0 <= i < j < origs@.len() implies effs@[j] < effs@[i] || (
        effs@[j] == effs@[i] && (weights@[j] < weights@[i] || (weights@[j] == weights@[i]
            && origs@[i] < origs@[j]))) by {
            assert(key_le(sorted@[j], sorted@[i]));
            assert(before.contains(sorted@[i]));
            assert(before.contains(sorted@[j]));
            assert(sorted@[i].2 != sorted@[j].2);
        }
        assert forall|q: int| 0 <= q < pool@.len() && #[trigger] is_positive(pool@[q], fee_rate)
            implies exists|j: int| 0 <= j < origs@.len() && origs@[j] == q by {
            let t = choose|t: int| 0 <= t < w_utxos@.len() && w_utxos@[t].1 == q;
            assert(sorted@.contains(before[t]));
            let j = choose|j: int| 0 <= j < sorted@.len() && sorted@[j] == before[t];
            assert(origs@[j] == q);
        }
    }
    (effs, weights, origs)
}

/// The state of coin grinder between two steps: the selection on the current
/// path, the next candidate to include, the best selection recorded with its
/// weight and effective value, and whether the search is over.
pub struct CgState {
    pub selection: Seq<usize>,
    pub next: int,
    pub best: Seq<usize>,
    pub best_weight: int,
    pub best_amount: int,
    pub done: bool,
}

/// One step of coin grinder over candidates of effective values `effs` and
/// weights `weights`, for `total_target`: include the next candidate, judge
/// the selection, record it if it is the lightest feasible one so far (then
/// the one of least value), and move to the next node of the tree. A cut
/// drops the last candidate first, so that the search resumes after its parent.
pub open spec fn cg_step(effs: Seq<u64>, weights: Seq<u64>, total_target: int, s: CgState) -> CgState {
    let tail = s.next;
    let sel = s.selection.push(tail as usize);
    let amount = sel_sum(effs, sel);
    let weight = sel_sum(weights, sel);
    let short = amount + tail_sum(effs, tail + 1) < total_target;
    let heavy = weight > s.best_weight;
    let no_lighter = weights[tail] <= min_after(weights, tail);
    let feasible = amount >= total_target;
    let record = !short && !heavy && feasible && (weight < s.best_weight || (weight
        == s.best_weight && amount < s.best_amount));
    let best = if record {
        sel
    } else {
        s.best
    };
    let best_weight = if record {
        weight
    } else {
        s.best_weight
    };
    let best_amount = if record {
        amount
    } else {
        s.best_amount
    };
    let cut = short || (heavy && no_lighter) || tail + 1 == effs.len();
    let shift = cut || (!short && heavy && !no_lighter) || (!short && !heavy && feasible);
    let kept = if cut {
        s.selection
    } else {
        sel
    };
    if !shift {
        CgState { selection: sel, next: tail + 1, best, best_weight, best_amount, done: false }
    } else if kept.len() == 0 {
        CgState { selection: kept, next: tail, best, best_weight, best_amount, done: true }
    } else {
        CgState {
            selection: kept.drop_last(),
            next: kept.last() + 1,
            best,
            best_weight,
            best_amount,
            done: false,
        }
    }
}

/// Coin grinder from state `s` after `iterations` steps, until the tree is
/// exhausted or `ITERATION_LIMIT` steps are taken.
pub open spec fn cg_run(
    effs: Seq<u64>,
    weights: Seq<u64>,
    total_target: int,
    s: CgState,
    iterations: nat,
) -> SearchEnd
    decreases ITERATION_LIMIT - iterations,
{
    if s.done || iterations >= ITERATION_LIMIT {
        SearchEnd::Stopped { iterations, best: s.best }
    } else {
        cg_run(effs, weights, total_target, cg_step(effs, weights, total_target, s), iterations + 1)
    }
}

/// The outcome of coin grinder over its candidates: the step count and the
/// positions, among the candidates, of the best selection; `None` where the
/// target is zero, `target + change_target` or the candidates' sum
/// overflows, the sum falls short, or nothing was recorded.
pub open spec fn cg_outcome(
    effs: Seq<u64>,
    weights: Seq<u64>,
    target: u64,
    change_target: u64,
    max_selection_weight: u64,
) -> Option<(u32, Seq<usize>)> {
    if target + change_target > u64::MAX || target == 0 || tail_sum(effs, 0) > u64::MAX
        || tail_sum(effs, 0) < target + change_target {
        None
    } else {
        match cg_run(
            effs,
            weights,
            target + change_target,
            CgState {
                selection: Seq::empty(),
                next: 0,
                best: Seq::empty(),
                best_weight: max_selection_weight as int,
                best_amount: u64::MAX as int,
                done: false,
            },
            0,
        ) {
            SearchEnd::Stopped { iterations, best } => if best.len() == 0 {
                None
            } else {
                Some((iterations as u32, best))
            },
            SearchEnd::Overflowed => None,
        }
    }
}

/// What coin grinder returns: the outcome of the search over the pool's
/// candidates, carried back to the pool.
pub open spec fn cg_spec(
    r: Option<(u32, Vec<&WeightedUtxo>)>,
    target: u64,
    change_target: u64,
    max_selection_weight: u64,
    fee_rate: u64,
    pool: Seq<WeightedUtxo>,
) -> bool {
    exists|effs: Seq<u64>, weights: Seq<u64>, origs: Seq<usize>|
        cg_candidates_ok(pool, fee_rate, effs, weights, origs) && result_from(
            r,
            cg_outcome(effs, weights, target, change_target, max_selection_weight),
            origs,
            pool,
        )
}

/// The invariant of the recorded best selection.
pub open spec fn cg_best_ok(
    effs: Seq<u64>,
    weights: Seq<u64>,
    best: Seq<usize>,
    total_target: u64,
    best_weight: u64,
) -> bool {
    best.len() == 0 || (increasing_below(best, effs.len() as int) && sel_sum(effs, best)
        >= total_target && sel_sum(weights, best) <= best_weight)
}

/// Maps the best selection back to the pool.
fn cg_finish<'a>(
    iteration: u32,
    best_selection: Vec<usize>,
    effs: &Vec<u64>,
    weights: &Vec<u64>,
    origs: &Vec<usize>,
    target: u64,
    change_target: u64,
    max_selection_weight: u64,
    best_weight: u64,
    fee_rate: u64,
    pool: &'a [WeightedUtxo],
) -> (r: Option<(u32, Vec<&'a WeightedUtxo>)>)
    requires
        iteration <= ITERATION_LIMIT,
        effs@.len() == weights@.len() == origs@.len(),
        origins_ok(origs@, pool@.len() as int),
        forall|j: int|
            0 <= j < origs@.len() ==> is_positive(pool@[#[trigger] origs@[j] as int], fee_rate)
                && effs@[j] == eff_of(pool@[origs@[j] as int], fee_rate) && weights@[j]
                == pool@[origs@[j] as int].weight,
        target + change_target <= u64::MAX,
        best_weight <= max_selection_weight,
        cg_best_ok(effs@, weights@, best_selection@, (target + change_target) as u64, best_weight),
        best_selection@.len() > 0 ==> iteration >= 1,
    ensures
        cg_result_ok(r, target, change_target, max_selection_weight, fee_rate, pool@),
        result_from(
            r,
            if best_selection@.len() == 0 {
                None
            } else {
                Some((iteration, best_selection@))
            },
            origs@,
            pool@,
        ),
{
    let ghost best = best_selection@;
    let r = index_to_utxo_list(iteration, best_selection, origs, pool);
    proof {
        if let Some((_, s)) = &r {
            let picked = targets(s@);
            assert forall|k: int| 0 <= k < best.len() implies picked[k] == pool@[origs@[best[k] as int] as int] by {}
            lemma_picked_subset(pool@, origs@, best, picked);
            lemma_eff_sum_picked(pool@, effs@, origs@, best, picked, fee_rate);
            lemma_weight_sum_picked(pool@, weights@, origs@, best, picked);
            assert(picked =~= best.map_values(|k: usize| pool@[origs@[k as int] as int]));
            assert forall|k: int| 0 <= k < s@.len() implies is_positive(
                #[trigger] targets(s@)[k],
                fee_rate,
            ) by {
                assert(targets(s@)[k] == pool@[origs@[best[k] as int] as int]);
            }
        }
    }
    r
}

/// The search itself; see `select_coins`.
fn cg_search<'a>(
    target: u64,
    change_target: u64,
    max_selection_weight: u64,
    fee_rate: u64,
    weighted_utxos: &'a [WeightedUtxo],
) -> (r: Option<(u32, Vec<&'a WeightedUtxo>)>)
    ensures
        cg_result_ok(r, target, change_target, max_selection_weight, fee_rate, weighted_utxos@),
        target == 0 ==> r is None,
        target + change_target > u64::MAX ==> r is None,
        cg_spec(r, target, change_target, max_selection_weight, fee_rate, weighted_utxos@),
{
    let (effs, weights, origs) = cg_candidates(weighted_utxos, fee_rate);
    let ghost pool = weighted_utxos@;
    let ghost outcome = cg_outcome(effs@, weights@, target, change_target, max_selection_weight);
    assert(cg_candidates_ok(pool, fee_rate, effs@, weights@, origs@));
    let total_target = match target.checked_add(change_target) {
        Some(t) => t,
        None => {
            assert(result_from(None, outcome, origs@, pool));
            return None;
        },
    };
    if target == 0 {
        assert(result_from(None, outcome, origs@, pool));
        return None;
    }
    let available_value = match checked_total(&effs) {
        Some(t) => t,
        None => {
            assert(result_from(None, outcome, origs@, pool));
            return None;
        },
    };
    let lookahead = build_lookahead(&effs, available_value);
    let min_tail_weight = build_min_tail_weight(&weights);
    if available_value < total_target {
        assert(result_from(None, outcome, origs@, pool));
        return None;
    }
    let ghost start = CgState {
        selection: Seq::empty(),
        next: 0,
        best: Seq::empty(),
        best_weight: max_selection_weight as int,
        best_amount: u64::MAX as int,
        done: false,
    };
    let ghost end = cg_run(effs@, weights@, total_target as int, start, 0);
    assert(outcome == match end {
        SearchEnd::Stopped { iterations, best } => if best.len() == 0 {
            None
        } else {
            Some((iterations as u32, best))
        },
        SearchEnd::Overflowed => None,
    });
    let m = effs.len();
    proof {
        if m == 0 {
            assert(tail_sum(effs@, 0) == 0);
        }
        lemma_tail_sum_le_count(weights@, 0);
        assert(m * u64::MAX <= usize::MAX * u64::MAX) by (nonlinear_arith)
            requires m <= usize::MAX;
        assert(usize::MAX * u64::MAX <= u128::MAX) by (nonlinear_arith)
            requires usize::MAX <= u64::MAX;
    }
    let mut selection: Vec<usize> = Vec::new();
    let mut best_selection: Vec<usize> = Vec::new();
    let mut amount_total: u64 = 0;
    let mut best_amount: u64 = u64::MAX;
    let mut weight_total: u128 = 0;
    let mut best_weight: u64 = max_selection_weight;
    let mut next_utxo_index: usize = 0;
    let mut iteration: u32 = 0;

    loop
        invariant
            0 < m == effs@.len() == weights@.len() == origs@.len() == lookahead@.len()
                == min_tail_weight@.len(),
            origins_ok(origs@, weighted_utxos@.len() as int),
            forall|j: int|
                0 <= j < origs@.len() ==> is_positive(
                    weighted_utxos@[#[trigger] origs@[j] as int],
                    fee_rate,
                ) && effs@[j] == eff_of(weighted_utxos@[origs@[j] as int], fee_rate)
                    && weights@[j] == weighted_utxos@[origs@[j] as int].weight,
            0 < target,
            total_target == target + change_target,
            available_value == tail_sum(effs@, 0),
            forall|i: int| 0 <= i < m ==> lookahead@[i] == tail_sum(effs@, i + 1),
            tail_sum(weights@, 0) <= u128::MAX,
            iteration < ITERATION_LIMIT,
            next_utxo_index < m,
            increasing_below(selection@, next_utxo_index as int),
            amount_total == sel_sum(effs@, selection@),
            weight_total == sel_sum(weights@, selection@),
            best_weight <= max_selection_weight,
            cg_best_ok(effs@, weights@, best_selection@, total_target, best_weight),
            best_selection@.len() > 0 ==> iteration >= 1,
            forall|i: int| 0 <= i < m ==> min_tail_weight@[i] == min_after(weights@, i),
            cg_candidates_ok(pool, fee_rate, effs@, weights@, origs@),
            pool == weighted_utxos@,
            outcome == cg_outcome(effs@, weights@, target, change_target, max_selection_weight),
            outcome == match end {
                SearchEnd::Stopped { iterations, best } => if best.len() == 0 {
                    None
                } else {
                    Some((iterations as u32, best))
                },
                SearchEnd::Overflowed => None,
            },
            cg_run(
                effs@,
                weights@,
                total_target as int,
                CgState {
                    selection: selection@,
                    next: next_utxo_index as int,
                    best: best_selection@,
                    best_weight: best_weight as int,
                    best_amount: best_amount as int,
                    done: false,
                },
                iteration as nat,
            ) == end,
        decreases ITERATION_LIMIT - iteration,
    {
        let ghost s0 = CgState {
            selection: selection@,
            next: next_utxo_index as int,
            best: best_selection@,
            best_weight: best_weight as int,
            best_amount: best_amount as int,
            done: false,
        };
        let ghost s1 = cg_step(effs@, weights@, total_target as int, s0);
        assert(cg_run(effs@, weights@, total_target as int, s0, iteration as nat) == cg_run(
            effs@,
            weights@,
            total_target as int,
            s1,
            iteration as nat + 1,
        ));
        let mut shift = false;
        let mut cut = false;

        // Include the next candidate.
        let ghost sel = selection@;
        selection.push(next_utxo_index);
        assert(selection@.drop_last() =~= sel);
        proof {
            lemma_sel_sum_bound(effs@, selection@, next_utxo_index as int + 1);
            lemma_sel_sum_bound(weights@, selection@, next_utxo_index as int + 1);
            lemma_tail_sum_antitone(effs@, next_utxo_index as int + 1, m as int);
            lemma_tail_sum_antitone(weights@, next_utxo_index as int + 1, m as int);
        }
        amount_total = amount_total + effs[next_utxo_index];
        weight_total = weight_total + weights[next_utxo_index] as u128;
        next_utxo_index += 1;
        iteration += 1;

        let tail = selection[selection.len() - 1];
        if amount_total + lookahead[tail] < total_target {
            // No completion of this selection can reach the target.
            cut = true;
        } else if weight_total > best_weight as u128 {
            if weights[tail] <= min_tail_weight[tail] {
                // No later candidate is lighter than the last one.
                cut = true;
            } else {
                shift = true;
            }
        } else if amount_total >= total_target {
            shift = true;
            if weight_total < best_weight as u128 || (weight_total == best_weight as u128
                && amount_total < best_amount) {
                best_selection = selection.clone();
                assert(best_selection@ =~= selection@);
                best_weight = weight_total as u64;
                best_amount = amount_total;
            }
        }
        assert(s1.best == best_selection@ && s1.best_weight == best_weight as int && s1.best_amount
            == best_amount as int);
        if iteration >= ITERATION_LIMIT {
            return cg_finish(
                iteration,
                best_selection,
                &effs,
                &weights,
                &origs,
                target,
                change_target,
                max_selection_weight,
                best_weight,
                fee_rate,
                weighted_utxos,
            );
        }
        if next_utxo_index == m {
            cut = true;
        }
        if cut {
            // Drop the last candidate, then shift at its parent.
            let ghost sel = selection@;
            let last = selection[selection.len() - 1];
            assert(sel.drop_last().push(last) =~= sel);
            assert(increasing_below(sel.drop_last(), last as int)) by {
                assert forall|a: int| 0 <= a < sel.drop_last().len() implies sel.drop_last()[a]
                    < last by {
                    assert(sel[a] < sel[sel.len() - 1]);
                }
            }
            proof {
                lemma_sel_sum_bound(effs@, sel.drop_last(), last as int);
                lemma_sel_sum_bound(weights@, sel.drop_last(), last as int);
            }
            amount_total = amount_total - effs[last];
            weight_total = weight_total - weights[last] as u128;
            selection.pop();
            assert(selection@ =~= sel.drop_last());
            next_utxo_index = last;
            shift = true;
        }
        if shift {
            if selection.len() == 0 {
                assert(s1.done);
                return cg_finish(
                    iteration,
                    best_selection,
                    &effs,
                    &weights,
                    &origs,
                    target,
                    change_target,
                    max_selection_weight,
                    best_weight,
                    fee_rate,
                    weighted_utxos,
                );
            }
            // Exclude the last candidate and move on to the one after it.
            let ghost sel = selection@;
            let last = selection[selection.len() - 1];
            assert(sel.drop_last().push(last) =~= sel);
            assert(increasing_below(sel.drop_last(), last as int)) by {
                assert forall|a: int| 0 <= a < sel.drop_last().len() implies sel.drop_last()[a]
                    < last by {
                    assert(sel[a] < sel[sel.len() - 1]);
                }
            }
            proof {
                lemma_sel_sum_bound(effs@, sel.drop_last(), last as int);
                lemma_sel_sum_bound(weights@, sel.drop_last(), last as int);
            }
            next_utxo_index = last + 1;
            amount_total = amount_total - effs[last];
            weight_total = weight_total - weights[last] as u128;
            selection.pop();
            assert(selection@ =~= sel.drop_last());
        }
        assert(s1 == CgState {
            selection: selection@,
            next: next_utxo_index as int,
            best: best_selection@,
            best_weight: best_weight as int,
            best_amount: best_amount as int,
            done: false,
        });
    }
}

/// Performs a depth-first search for the selection of least weight whose
/// effective value reaches `target + change_target`, within
/// `max_selection_weight`; among selections of equal weight the one of least
/// effective value wins. Unlike branch and bound, the selection is meant to
/// fund a change output, which `change_target` pays for.
///
/// Outputs whose effective value at `fee_rate` is not positive, or cannot be
/// computed, are left out. The search visits the outputs by descending
/// effective value, then descending weight; it cuts a subtree that cannot
/// reach the target or cannot get lighter, and stops after `ITERATION_LIMIT`
/// steps with the best selection found so far.
///
/// Returns the step count and the selected outputs, or `None` where the target
/// is zero, `target + change_target` overflows, the outputs' sum overflows or
/// falls short, or nothing was found. Exactly: the result is `cg_outcome`,
/// the step-by-step model of this search (`cg_step`), run over the pool's
/// candidates (`cg_spec`).
pub fn select_coins<'a>(
    target: u64,
    change_target: u64,
    max_selection_weight: u64,
    fee_rate: u64,
    weighted_utxos: &'a [WeightedUtxo],
) -> (r: Option<(u32, Vec<&'a WeightedUtxo>)>)
    ensures
        cg_result_ok(r, target, change_target, max_selection_weight, fee_rate, weighted_utxos@),
        target == 0 ==> r is None,
        target + change_target > u64::MAX ==> r is None,
        positive_total(weighted_utxos@, fee_rate) < target + change_target ==> r is None,
        cg_spec(r, target, change_target, max_selection_weight, fee_rate, weighted_utxos@),
        positive_total(weighted_utxos@, fee_rate) > u64::MAX ==> r is None,
{
    let r = cg_search(target, change_target, max_selection_weight, fee_rate, weighted_utxos);
    proof {
        let (e, w, o) = choose|e: Seq<u64>, w: Seq<u64>, o: Seq<usize>|
            cg_candidates_ok(weighted_utxos@, fee_rate, e, w, o) && result_from(
                r,
                cg_outcome(e, w, target, change_target, max_selection_weight),
                o,
                weighted_utxos@,
            );
        let keep = |u: WeightedUtxo| is_positive(u, fee_rate);
        assert forall|q: int| 0 <= q < weighted_utxos@.len() && #[trigger] keep(weighted_utxos@[q])
            implies exists|j: int| 0 <= j < o.len() && o[j] == q by {
            assert(is_positive(weighted_utxos@[q], fee_rate));
        }
        lemma_total_within_candidates(weighted_utxos@, keep, fee_rate, e, o);
        if let Some((_, selected)) = &r {
            let keep = |u: WeightedUtxo| is_positive(u, fee_rate);
            assert forall|k: int| 0 <= k < targets(selected@).len() implies keep(
                #[trigger] targets(selected@)[k],
            ) by {}
            lemma_subset_within_total(targets(selected@), weighted_utxos@, keep, fee_rate);
        }
    }
    r
}

/// The candidates of coin grinder are fixed by the pool and the fee rate.
proof fn lemma_cg_candidates_unique(
    pool: Seq<WeightedUtxo>,
    fee_rate: u64,
    e1: Seq<u64>,
    w1: Seq<u64>,
    o1: Seq<usize>,
    e2: Seq<u64>,
    w2: Seq<u64>,
    o2: Seq<usize>,
)
    requires
        cg_candidates_ok(pool, fee_rate, e1, w1, o1),
        cg_candidates_ok(pool, fee_rate, e2, w2, o2),
    ensures
        e1 == e2 && w1 == w2 && o1 == o2,
{
    let gt = |x: usize, y: usize|
        eff_of(pool[x as int], fee_rate) > eff_of(pool[y as int], fee_rate) || (eff_of(
            pool[x as int],
            fee_rate,
        ) == eff_of(pool[y as int], fee_rate) && (pool[x as int].weight > pool[y as int].weight
            || (pool[x as int].weight == pool[y as int].weight && x < y)));
    assert forall|i: int, j: int| 0 <= i < j < o1.len() implies gt(o1[i], o1[j]) by {
        assert(is_positive(pool[o1[i] as int], fee_rate));
        assert(is_positive(pool[o1[j] as int], fee_rate));
    }
    assert forall|i: int, j: int| 0 <= i < j < o2.len() implies gt(o2[i], o2[j]) by {
        assert(is_positive(pool[o2[i] as int], fee_rate));
        assert(is_positive(pool[o2[j] as int], fee_rate));
    }
    assert forall|x: usize| o1.contains(x) <==> o2.contains(x) by {
        if o1.contains(x) {
            let k = choose|k: int| 0 <= k < o1.len() && o1[k] == x;
            assert(is_positive(pool[o1[k] as int], fee_rate));
            let j = choose|j: int| 0 <= j < o2.len() && o2[j] == x as int;
            assert(o2[j] == x);
        }
        if o2.contains(x) {
            let k = choose|k: int| 0 <= k < o2.len() && o2[k] == x;
            assert(is_positive(pool[o2[k] as int], fee_rate));
            let j = choose|j: int| 0 <= j < o1.len() && o1[j] == x as int;
            assert(o1[j] == x);
        }
    }
    lemma_ordered_unique(o1, o2, gt);
    assert forall|j: int| 0 <= j < e1.len() implies e1[j] == e2[j] && w1[j] == w2[j] by {
        assert(is_positive(pool[o1[j] as int], fee_rate));
        assert(is_positive(pool[o2[j] as int], fee_rate));
    }
    assert(e1 =~= e2);
    assert(w1 =~= w2);
}

/// Coin grinder is deterministic: two results that both meet its contract
/// for the same arguments agree, on success or failure, on the step count and
/// on the outputs selected, in order.
pub proof fn cg_deterministic(
    r1: Option<(u32, Vec<&WeightedUtxo>)>,
    r2: Option<(u32, Vec<&WeightedUtxo>)>,
    target: u64,
    change_target: u64,
    max_selection_weight: u64,
    fee_rate: u64,
    pool: Seq<WeightedUtxo>,
)
    requires
        cg_spec(r1, target, change_target, max_selection_weight, fee_rate, pool),
        cg_spec(r2, target, change_target, max_selection_weight, fee_rate, pool),
    ensures
        r1 is Some <==> r2 is Some,
        r1 matches Some((i1, s1)) ==> (r2 matches Some((i2, s2)) && i1 == i2 && targets(s1@)
            == targets(s2@)),
{
    let (e1, w1, o1) = choose|e: Seq<u64>, w: Seq<u64>, o: Seq<usize>|
        cg_candidates_ok(pool, fee_rate, e, w, o) && result_from(
            r1,
            cg_outcome(e, w, target, change_target, max_selection_weight),
            o,
            pool,
        );
    let (e2, w2, o2) = choose|e: Seq<u64>, w: Seq<u64>, o: Seq<usize>|
        cg_candidates_ok(pool, fee_rate, e, w, o) && result_from(
            r2,
            cg_outcome(e, w, target, change_target, max_selection_weight),
            o,
            pool,
        );
    lemma_cg_candidates_unique(pool, fee_rate, e1, w1, o1, e2, w2, o2);
}

} // verus!
