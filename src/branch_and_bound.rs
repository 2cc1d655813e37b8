//! Branch and bound: a deterministic depth-first search for a changeless
//! selection, one whose effective value lies in `[target, target + cost_of_change]`,
//! preferring the least waste.
use vstd::prelude::*;

use crate::candidates::{
    checked_total, eff_of, eff_sum, increasing_below, index_to_utxo_list, is_subset_of, kept_total, key_le,
    lemma_eff_sum_picked, lemma_picked_subset, lemma_sel_sum_bound, lemma_subset_within_total,
    lemma_ordered_unique, lemma_tail_sum_antitone, lemma_total_within_candidates,
    origins_ok, sel_sum, sorted_descending, tail_sum, targets,
};
use crate::fee::{effective_value_of, waste_of, WeightedUtxo};
use crate::{ITERATION_LIMIT, MAX_MONEY};

verus! {

/// A branch and bound candidate: positive effective value, computable waste.
pub open spec fn bnb_usable(u: WeightedUtxo, fee_rate: u64, long_term_fee_rate: u64) -> bool {
    &&& effective_value_of(fee_rate, u.weight, u.value) matches Some(e) && e > 0
    &&& waste_of(fee_rate, long_term_fee_rate, u.weight) is Some
}

/// What a branch and bound result promises: a non-empty subset of usable
/// outputs of the pool whose effective value lies in the window.
pub open spec fn bnb_result_ok(
    r: Option<(u32, Vec<&WeightedUtxo>)>,
    target: u64,
    cost_of_change: u64,
    fee_rate: u64,
    long_term_fee_rate: u64,
    pool: Seq<WeightedUtxo>,
) -> bool {
    r matches Some((iterations, selected)) ==> {
        &&& 1 <= iterations <= ITERATION_LIMIT
        &&& selected@.len() > 0
        &&& is_subset_of(targets(selected@), pool)
        &&& forall|k: int|
            0 <= k < selected@.len() ==> bnb_usable(
                #[trigger] targets(selected@)[k],
                fee_rate,
                long_term_fee_rate,
            )
        &&& target <= eff_sum(targets(selected@), fee_rate) <= target + cost_of_change
    }
}

/// `effs`, `wastes` and `origs` are the candidates of branch and bound: one
/// for each output of the pool with a positive effective value and a
/// computable waste, ordered by descending effective value and, among equal
/// values, by descending pool position.
pub open spec fn bnb_candidates_ok(
    pool: Seq<WeightedUtxo>,
    fee_rate: u64,
    long_term_fee_rate: u64,
    effs: Seq<u64>,
    wastes: Seq<i64>,
    origs: Seq<usize>,
) -> bool {
    &&& effs.len() == wastes.len() == origs.len()
    &&& origins_ok(origs, pool.len() as int)
    &&& forall|j: int|
        0 <= j < origs.len() ==> {
            &&& bnb_usable(pool[#[trigger] origs[j] as int], fee_rate, long_term_fee_rate)
            &&& effs[j] == eff_of(pool[origs[j] as int], fee_rate)
            &&& waste_of(fee_rate, long_term_fee_rate, pool[origs[j] as int].weight) == Some(
                wastes[j],
            )
        }
    &&& forall|q: int|
        0 <= q < pool.len() && #[trigger] bnb_usable(pool[q], fee_rate, long_term_fee_rate)
            ==> exists|j: int| 0 <= j < origs.len() && origs[j] == q
    &&& forall|i: int, j: int|
        0 <= i < j < origs.len() ==> effs[j] < effs[i] || (effs[j] == effs[i] && origs[j]
            < origs[i])
}

/// The candidates of branch and bound, ordered by descending effective value
/// (later pool positions first among equal values): their effective values,
/// their wastes and their pool positions.
fn bnb_candidates(pool: &[WeightedUtxo], fee_rate: u64, long_term_fee_rate: u64) -> (r: (
    Vec<u64>,
    Vec<i64>,
    Vec<usize>,
))
    ensures
        r.0@.len() == r.1@.len() == r.2@.len(),
        origins_ok(r.2@, pool@.len() as int),
        forall|j: int|
            0 <= j < r.2@.len() ==> {
                &&& bnb_usable(pool@[#[trigger] r.2@[j] as int], fee_rate, long_term_fee_rate)
                &&& r.0@[j] == eff_of(pool@[r.2@[j] as int], fee_rate)
                &&& waste_of(fee_rate, long_term_fee_rate, pool@[r.2@[j] as int].weight) == Some(
                    r.1@[j],
                )
            },
        forall|i: int, j: int| 0 <= i < j < r.0@.len() ==> r.0@[j] <= r.0@[i],
        bnb_candidates_ok(pool@, fee_rate, long_term_fee_rate, r.0@, r.1@, r.2@),
{
    let mut keys: Vec<(u64, u64, usize)> = Vec::new();
    let mut i: usize = 0;
    while i < pool.len()
        invariant
            i <= pool@.len(),
            forall|k: int|
                0 <= k < keys@.len() ==> {
                    &&& #[trigger] keys@[k].2 < i
                    &&& bnb_usable(pool@[keys@[k].2 as int], fee_rate, long_term_fee_rate)
                    &&& keys@[k].0 == eff_of(pool@[keys@[k].2 as int], fee_rate)
                },
            forall|a: int, b: int| 0 <= a < b < keys@.len() ==> keys@[a].2 < keys@[b].2,
            forall|k: int| 0 <= k < keys@.len() ==> (#[trigger] keys@[k]).1 == 0,
            forall|q: int|
                0 <= q < i && #[trigger] bnb_usable(pool@[q], fee_rate, long_term_fee_rate)
                    ==> keys@.contains((eff_of(pool@[q], fee_rate) as u64, 0u64, q as usize)),
        decreases pool@.len() - i,
    {
        let u = &pool[i];
        match (u.effective_value(fee_rate), u.waste(fee_rate, long_term_fee_rate)) {
            (Some(e), Some(_)) => {
                if e > 0 {
                    let ghost before = keys@;
                    keys.push((e as u64, 0, i));
                    assert forall|q: int|
                        0 <= q < i && #[trigger] bnb_usable(pool@[q], fee_rate, long_term_fee_rate)
                            implies keys@.contains((eff_of(pool@[q], fee_rate) as u64, 0u64, q as usize)) by {
                        assert(before.contains((eff_of(pool@[q], fee_rate) as u64, 0u64, q as usize)));
                        let t = choose|t: int| 0 <= t < before.len() && before[t] == (eff_of(pool@[q], fee_rate) as u64, 0u64, q as usize);
                        assert(keys@[t] == before[t]);
                    }
                    assert(keys@[keys@.len() - 1] == (e as u64, 0u64, i));
                }
            },
            _ => {},
        }
        i += 1;
    }
    let sorted = sorted_descending(keys);
    let mut effs: Vec<u64> = Vec::new();
    let mut wastes: Vec<i64> = Vec::new();
    let mut origs: Vec<usize> = Vec::new();
    let mut k: usize = 0;
    while k < sorted.len()
        invariant
            k <= sorted@.len(),
            effs@.len() == k && wastes@.len() == k && origs@.len() == k,
            forall|k: int| 0 <= k < sorted@.len() ==> keys@.contains(#[trigger] sorted@[k]),
            forall|k: int|
                0 <= k < keys@.len() ==> {
                    &&& #[trigger] keys@[k].2 < pool@.len()
                    &&& bnb_usable(pool@[keys@[k].2 as int], fee_rate, long_term_fee_rate)
                    &&& keys@[k].0 == eff_of(pool@[keys@[k].2 as int], fee_rate)
                },
            forall|a: int, b: int| 0 <= a < b < sorted@.len() ==> sorted@[a].2 != sorted@[b].2,
            forall|a: int, b: int| 0 <= a < b < sorted@.len() ==> key_le(sorted@[b], sorted@[a]),
            forall|k: int| 0 <= k < keys@.len() ==> (#[trigger] keys@[k]).1 == 0,
            forall|k: int| 0 <= k < keys@.len() ==> sorted@.contains(#[trigger] keys@[k]),
            forall|j: int| 0 <= j < k ==> origs@[j] == sorted@[j].2 && effs@[j] == sorted@[j].0,
            forall|j: int|
                0 <= j < k ==> waste_of(fee_rate, long_term_fee_rate, pool@[origs@[j] as int].weight)
                    == Some(#[trigger] wastes@[j]),
        decreases sorted@.len() - k,
    {
        let (e, _, o) = sorted[k];
        assert(keys@.contains(sorted@[k as int]));
        let w = match pool[o].waste(fee_rate, long_term_fee_rate) {
            Some(w) => w,
            None => 0,
        };
        effs.push(e);
        wastes.push(w);
        origs.push(o);
        k += 1;
    }
    proof {
        assert forall|j: int| 0 <= j < origs@.len() implies #[trigger] origs@[j] < pool@.len()
            && bnb_usable(pool@[origs@[j] as int], fee_rate, long_term_fee_rate) && effs@[j]
            == eff_of(pool@[origs@[j] as int], fee_rate) by {
            assert(keys@.contains(sorted@[j]));
        }
        assert forall|i: int, j: int| 0 <= i < j < effs@.len() implies effs@[j] <= effs@[i] by {
            assert(key_le(sorted@[j], sorted@[i]));
        }
        assert forall|i: int, j: int| 0 <= i < j < origs@.len() implies effs@[j] < effs@[i] || (
        effs@[j] == effs@[i] && origs@[j] < origs@[i]) by {
            assert(key_le(sorted@[j], sorted@[i]));
            assert(keys@.contains(sorted@[i]));
            assert(keys@.contains(sorted@[j]));
            assert(sorted@[i].2 != sorted@[j].2);
        }
        assert forall|q: int|
            0 <= q < pool@.len() && #[trigger] bnb_usable(pool@[q], fee_rate, long_term_fee_rate)
                implies exists|j: int| 0 <= j < origs@.len() && origs@[j] == q by {
            let key = (eff_of(pool@[q], fee_rate) as u64, 0u64, q as usize);
            assert(keys@.contains(key));
            let t = choose|t: int| 0 <= t < keys@.len() && keys@[t] == key;
            assert(sorted@.contains(keys@[t]));
            let j = choose|j: int| 0 <= j < sorted@.len() && sorted@[j] == keys@[t];
            assert(origs@[j] == q);
        }
    }
    (effs, wastes, origs)
}

/// The effective value of all the outputs that branch and bound can use.
pub open spec fn bnb_available(pool: Seq<WeightedUtxo>, fee_rate: u64, long_term_fee_rate: u64) -> int {
    kept_total(pool, |u: WeightedUtxo| bnb_usable(u, fee_rate, long_term_fee_rate), fee_rate)
}

/// Whether `x` fits an `i64`.
pub open spec fn fits_i64(x: int) -> bool {
    i64::MIN <= x <= i64::MAX
}

/// The state of branch and bound between two steps: the next candidate to
/// consider, the selection on the current path and its waste, and the best
/// selection recorded with its waste (excess included).
pub struct BnbState {
    pub index: int,
    pub current_waste: int,
    pub best_waste: int,
    pub selection: Seq<usize>,
    pub best: Seq<usize>,
}

/// What one step of a search leads to.
pub enum Step<S> {
    Next(S),
    Exhausted,
    Overflow,
}

/// How a search ends: stopped after `iterations` steps with `best`, or
/// abandoned on an arithmetic overflow.
pub enum SearchEnd {
    Stopped { iterations: nat, best: Seq<usize> },
    Overflowed,
}

/// Leave the current path: drop its last candidate, which is excluded from
/// now on, and go on with the candidate after it.
pub open spec fn bnb_backtrack(wastes: Seq<i64>, s: BnbState) -> Step<BnbState> {
    if s.selection.len() == 0 {
        Step::Exhausted
    } else {
        let last = s.selection.last() as int;
        let w = s.current_waste - wastes[last];
        if !fits_i64(w) {
            Step::Overflow
        } else {
            Step::Next(
                BnbState {
                    index: last + 1,
                    current_waste: w,
                    selection: s.selection.drop_last(),
                    ..s
                },
            )
        }
    }
}

/// One step of branch and bound over candidates of effective values `effs`
/// and wastes `wastes`, for the window `[target, upper]`; `waste_bound` is
/// whether the fee rate exceeds the long-term one, so that waste only grows.
pub open spec fn bnb_step(
    effs: Seq<u64>,
    wastes: Seq<i64>,
    target: int,
    upper: int,
    waste_bound: bool,
    s: BnbState,
) -> Step<BnbState> {
    let value = sel_sum(effs, s.selection);
    if tail_sum(effs, s.index) + value < target || value > upper || (s.current_waste
        > s.best_waste && waste_bound) {
        bnb_backtrack(wastes, s)
    } else if value >= target {
        if value > i64::MAX {
            Step::Overflow
        } else {
            let w = s.current_waste + (value - target);
            if !fits_i64(w) {
                Step::Overflow
            } else if w <= s.best_waste {
                bnb_backtrack(wastes, BnbState { best: s.selection, best_waste: w, ..s })
            } else {
                bnb_backtrack(wastes, s)
            }
        }
    } else {
        let i = s.index;
        if s.selection.len() == 0 || i - 1 == s.selection.last() || effs[i] != effs[i - 1] {
            let w = s.current_waste + wastes[i];
            if !fits_i64(w) {
                Step::Overflow
            } else {
                Step::Next(
                    BnbState {
                        index: i + 1,
                        current_waste: w,
                        selection: s.selection.push(i as usize),
                        ..s
                    },
                )
            }
        } else {
            Step::Next(BnbState { index: i + 1, ..s })
        }
    }
}

/// Branch and bound from state `s` after `iterations` steps, until the tree is
/// exhausted, an amount overflows, or `ITERATION_LIMIT` steps are taken.
pub open spec fn bnb_run(
    effs: Seq<u64>,
    wastes: Seq<i64>,
    target: int,
    upper: int,
    waste_bound: bool,
    s: BnbState,
    iterations: nat,
) -> SearchEnd
    decreases ITERATION_LIMIT - iterations,
{
    if iterations >= ITERATION_LIMIT {
        SearchEnd::Stopped { iterations, best: s.best }
    } else {
        match bnb_step(effs, wastes, target, upper, waste_bound, s) {
            Step::Exhausted => SearchEnd::Stopped { iterations, best: s.best },
            Step::Overflow => SearchEnd::Overflowed,
            Step::Next(next) => bnb_run(
                effs,
                wastes,
                target,
                upper,
                waste_bound,
                next,
                iterations + 1,
            ),
        }
    }
}

/// The state branch and bound starts from.
pub open spec fn bnb_start() -> BnbState {
    BnbState {
        index: 0,
        current_waste: 0,
        best_waste: MAX_MONEY as int,
        selection: Seq::empty(),
        best: Seq::empty(),
    }
}

/// The outcome of branch and bound over its candidates: the step count and
/// the positions, among the candidates, of the best selection; `None` where
/// the target is zero, the window or the candidates' sum overflows, the sum
/// falls short, an amount overflows in the search, or nothing was recorded.
pub open spec fn bnb_outcome(
    effs: Seq<u64>,
    wastes: Seq<i64>,
    target: u64,
    cost_of_change: u64,
    fee_rate: u64,
    long_term_fee_rate: u64,
) -> Option<(u32, Seq<usize>)> {
    if target + cost_of_change > u64::MAX || tail_sum(effs, 0) > u64::MAX || tail_sum(effs, 0)
        < target || target == 0 {
        None
    } else {
        match bnb_run(
            effs,
            wastes,
            target as int,
            target + cost_of_change,
            fee_rate > long_term_fee_rate,
            bnb_start(),
            0,
        ) {
            SearchEnd::Stopped { iterations, best } => if best.len() == 0 {
                None
            } else {
                Some((iterations as u32, best))
            },
            SearchEnd::Overflowed => None,
        }
    }
}

/// `r` is `outcome` carried back to the pool through the candidates' positions `origs`.
pub open spec fn result_from(
    r: Option<(u32, Vec<&WeightedUtxo>)>,
    outcome: Option<(u32, Seq<usize>)>,
    origs: Seq<usize>,
    pool: Seq<WeightedUtxo>,
) -> bool {
    match (r, outcome) {
        (None, None) => true,
        (Some((it, selected)), Some((n, best))) => it == n && targets(selected@) == best.map_values(
            |k: usize| pool[origs[k as int] as int],
        ),
        _ => false,
    }
}

/// What branch and bound returns: the outcome of the search over the pool's
/// candidates, carried back to the pool.
pub open spec fn bnb_spec(
    r: Option<(u32, Vec<&WeightedUtxo>)>,
    target: u64,
    cost_of_change: u64,
    fee_rate: u64,
    long_term_fee_rate: u64,
    pool: Seq<WeightedUtxo>,
) -> bool {
    exists|effs: Seq<u64>, wastes: Seq<i64>, origs: Seq<usize>|
        bnb_candidates_ok(pool, fee_rate, long_term_fee_rate, effs, wastes, origs) && result_from(
            r,
            bnb_outcome(effs, wastes, target, cost_of_change, fee_rate, long_term_fee_rate),
            origs,
            pool,
        )
}

/// The invariant of the recorded best selection.
pub open spec fn best_ok(effs: Seq<u64>, best: Seq<usize>, target: u64, upper_bound: u64) -> bool {
    best.len() == 0 || (increasing_below(best, effs.len() as int) && target <= sel_sum(effs, best)
        <= upper_bound)
}

/// Maps the best selection back to the pool.
fn bnb_finish<'a>(
    iteration: u32,
    best_selection: Vec<usize>,
    effs: &Vec<u64>,
    origs: &Vec<usize>,
    target: u64,
    cost_of_change: u64,
    fee_rate: u64,
    long_term_fee_rate: u64,
    pool: &'a [WeightedUtxo],
) -> (r: Option<(u32, Vec<&'a WeightedUtxo>)>)
    requires
        iteration <= ITERATION_LIMIT,
        effs@.len() == origs@.len(),
        origins_ok(origs@, pool@.len() as int),
        forall|j: int|
            0 <= j < origs@.len() ==> bnb_usable(
                pool@[#[trigger] origs@[j] as int],
                fee_rate,
                long_term_fee_rate,
            ) && effs@[j] == eff_of(pool@[origs@[j] as int], fee_rate),
        target + cost_of_change <= u64::MAX,
        best_ok(effs@, best_selection@, target, (target + cost_of_change) as u64),
        best_selection@.len() > 0 ==> iteration >= 1,
    ensures
        bnb_result_ok(r, target, cost_of_change, fee_rate, long_term_fee_rate, pool@),
        result_from(
            r,
            if best_selection@.len() == 0 {
                None
            } else {
                Some((iteration, best_selection@))
            },
            origs@,
            pool@,
        ),
{
    let ghost best = best_selection@;
    let r = index_to_utxo_list(iteration, best_selection, origs, pool);
    proof {
        if let Some((_, s)) = &r {
            let picked = targets(s@);
            assert forall|k: int| 0 <= k < best.len() implies picked[k] == pool@[origs@[best[k] as int] as int] by {}
            lemma_picked_subset(pool@, origs@, best, picked);
            lemma_eff_sum_picked(pool@, effs@, origs@, best, picked, fee_rate);
            assert(picked =~= best.map_values(|k: usize| pool@[origs@[k as int] as int]));
            assert forall|k: int| 0 <= k < s@.len() implies bnb_usable(
                #[trigger] targets(s@)[k],
                fee_rate,
                long_term_fee_rate,
            ) by {
                assert(targets(s@)[k] == pool@[origs@[best[k] as int] as int]);
            }
        }
    }
    r
}

/// The search itself; see `select_coins_bnb`.
fn bnb_search<'a>(
    target: u64,
    cost_of_change: u64,
    fee_rate: u64,
    long_term_fee_rate: u64,
    weighted_utxos: &'a [WeightedUtxo],
) -> (r: Option<(u32, Vec<&'a WeightedUtxo>)>)
    ensures
        bnb_spec(r, target, cost_of_change, fee_rate, long_term_fee_rate, weighted_utxos@),
        bnb_result_ok(r, target, cost_of_change, fee_rate, long_term_fee_rate, weighted_utxos@),
        target == 0 ==> r is None,
        target + cost_of_change > u64::MAX ==> r is None,
{
    let (effs, wastes, origs) = bnb_candidates(weighted_utxos, fee_rate, long_term_fee_rate);
    let ghost pool = weighted_utxos@;
    assert(bnb_candidates_ok(pool, fee_rate, long_term_fee_rate, effs@, wastes@, origs@));
    let upper_bound = match target.checked_add(cost_of_change) {
        Some(u) => u,
        None => {
            assert(result_from(None, bnb_outcome(effs@, wastes@, target, cost_of_change, fee_rate, long_term_fee_rate), origs@, pool));
            return None;
        },
    };
    let mut available_value = match checked_total(&effs) {
        Some(t) => t,
        None => {
            assert(result_from(None, bnb_outcome(effs@, wastes@, target, cost_of_change, fee_rate, long_term_fee_rate), origs@, pool));
            return None;
        },
    };
    if available_value < target || target == 0 {
        assert(result_from(None, bnb_outcome(effs@, wastes@, target, cost_of_change, fee_rate, long_term_fee_rate), origs@, pool));
        return None;
    }
    let ghost waste_bound = fee_rate > long_term_fee_rate;
    let ghost end = bnb_run(effs@, wastes@, target as int, upper_bound as int, waste_bound, bnb_start(), 0);
    let ghost outcome = bnb_outcome(effs@, wastes@, target, cost_of_change, fee_rate, long_term_fee_rate);
    assert(outcome == match end {
        SearchEnd::Stopped { iterations, best } => if best.len() == 0 {
            None
        } else {
            Some((iterations as u32, best))
        },
        SearchEnd::Overflowed => None,
    });
    let ghost total = tail_sum(effs@, 0);
    let m = effs.len();
    let mut iteration: u32 = 0;
    let mut index: usize = 0;
    let mut value: u64 = 0;
    let mut current_waste: i64 = 0;
    let mut best_waste: i64 = MAX_MONEY as i64;
    let mut index_selection: Vec<usize> = Vec::new();
    let mut best_selection: Vec<usize> = Vec::new();

    while iteration < ITERATION_LIMIT
        invariant
            m == effs@.len() == wastes@.len() == origs@.len(),
            origins_ok(origs@, weighted_utxos@.len() as int),
            forall|j: int|
                0 <= j < origs@.len() ==> bnb_usable(
                    weighted_utxos@[#[trigger] origs@[j] as int],
                    fee_rate,
                    long_term_fee_rate,
                ) && effs@[j] == eff_of(weighted_utxos@[origs@[j] as int], fee_rate),
            0 < target,
            upper_bound == target + cost_of_change,
            total == tail_sum(effs@, 0) <= u64::MAX,
            iteration <= ITERATION_LIMIT,
            index <= m,
            increasing_below(index_selection@, index as int),
            value == sel_sum(effs@, index_selection@),
            available_value == tail_sum(effs@, index as int),
            best_ok(effs@, best_selection@, target, upper_bound),
            best_selection@.len() > 0 ==> iteration >= 1,
            bnb_candidates_ok(pool, fee_rate, long_term_fee_rate, effs@, wastes@, origs@),
            pool == weighted_utxos@,
            waste_bound == (fee_rate > long_term_fee_rate),
            outcome == match end {
                SearchEnd::Stopped { iterations, best } => if best.len() == 0 {
                    None
                } else {
                    Some((iterations as u32, best))
                },
                SearchEnd::Overflowed => None,
            },
            outcome == bnb_outcome(effs@, wastes@, target, cost_of_change, fee_rate, long_term_fee_rate),
            bnb_run(
                effs@,
                wastes@,
                target as int,
                upper_bound as int,
                waste_bound,
                BnbState {
                    index: index as int,
                    current_waste: current_waste as int,
                    best_waste: best_waste as int,
                    selection: index_selection@,
                    best: best_selection@,
                },
                iteration as nat,
            ) == end,
        decreases ITERATION_LIMIT - iteration,
    {
        proof {
            lemma_sel_sum_bound(effs@, index_selection@, index as int);
        }
        let ghost s0 = BnbState {
            index: index as int,
            current_waste: current_waste as int,
            best_waste: best_waste as int,
            selection: index_selection@,
            best: best_selection@,
        };
        let ghost step = bnb_step(effs@, wastes@, target as int, upper_bound as int, waste_bound, s0);
        assert(bnb_run(effs@, wastes@, target as int, upper_bound as int, waste_bound, s0, iteration as nat) == match step {
            Step::Exhausted => SearchEnd::Stopped { iterations: iteration as nat, best: s0.best },
            Step::Overflow => SearchEnd::Overflowed,
            Step::Next(next) => bnb_run(effs@, wastes@, target as int, upper_bound as int, waste_bound, next, iteration as nat + 1),
        });
        let mut backtrack = false;
        if available_value + value < target || value > upper_bound || (current_waste > best_waste
            && fee_rate > long_term_fee_rate) {
            backtrack = true;
        } else if value >= target {
            // A selection in the window: record it where its waste, excess
            // included, is no worse than the best so far.
            backtrack = true;
            if value > i64::MAX as u64 {
                assert(step == Step::<BnbState>::Overflow);
                return None;
            }
            let excess: i64 = (value - target) as i64;
            let with_excess = match current_waste.checked_add(excess) {
                Some(w) => w,
                None => {
                    assert(step == Step::<BnbState>::Overflow);
                    return None;
                },
            };
            if with_excess <= best_waste {
                best_selection = index_selection.clone();
                assert(best_selection@ =~= index_selection@);
                best_waste = with_excess;
            }
        }
        if backtrack {
            if index_selection.len() == 0 {
                assert(step == Step::<BnbState>::Exhausted);
                return bnb_finish(
                    iteration,
                    best_selection,
                    &effs,
                    &origs,
                    target,
                    cost_of_change,
                    fee_rate,
                    long_term_fee_rate,
                    weighted_utxos,
                );
            }
            // Give back the value of the outputs skipped since the last
            // included one, then exclude that one.
            let last = index_selection[index_selection.len() - 1];
            while index > last + 1
                invariant
                    m == effs@.len(),
                    last < index <= m,
                    available_value == tail_sum(effs@, index as int),
                    total == tail_sum(effs@, 0) <= u64::MAX,
                decreases index,
            {
                index -= 1;
                proof {
                    lemma_tail_sum_antitone(effs@, 0, index as int);
                }
                available_value = available_value + effs[index];
            }
            index = last;
            let ghost sel = index_selection@;
            assert(sel.drop_last().push(last) =~= sel);
            current_waste = match current_waste.checked_sub(wastes[index]) {
                Some(w) => w,
                None => {
                    assert(step == Step::<BnbState>::Overflow);
                    return None;
                },
            };
            assert(increasing_below(sel.drop_last(), index as int + 1)) by {
                assert forall|a: int| 0 <= a < sel.drop_last().len() implies sel.drop_last()[a]
                    < index + 1 by {
                    assert(sel[a] < sel[sel.len() - 1]);
                }
            }
            proof {
                lemma_sel_sum_bound(effs@, sel.drop_last(), index as int + 1);
            }
            value = value - effs[index];
            index_selection.pop();
            assert(index_selection@ =~= sel.drop_last());
        } else {
            // Include the next output, unless it equals an excluded predecessor.
            assert(index < m);
            proof {
                lemma_tail_sum_antitone(effs@, index as int + 1, m as int);
            }
            let eff_value = effs[index];
            available_value = available_value - eff_value;
            if index_selection.len() == 0 || index - 1 == index_selection[index_selection.len() - 1]
                || effs[index] != effs[index - 1] {
                let ghost sel = index_selection@;
                index_selection.push(index);
                assert(index_selection@.drop_last() =~= sel);
                current_waste = match current_waste.checked_add(wastes[index]) {
                    Some(w) => w,
                    None => {
                        assert(step == Step::<BnbState>::Overflow);
                        return None;
                    },
                };
                proof {
                    lemma_sel_sum_bound(effs@, index_selection@, index as int + 1);
                }
                value = value + eff_value;
            }
        }
        index += 1;
        iteration += 1;
        assert(step == Step::Next(
            BnbState {
                index: index as int,
                current_waste: current_waste as int,
                best_waste: best_waste as int,
                selection: index_selection@,
                best: best_selection@,
            },
        ));
    }
    bnb_finish(
        iteration,
        best_selection,
        &effs,
        &origs,
        target,
        cost_of_change,
        fee_rate,
        long_term_fee_rate,
        weighted_utxos,
    )
}

/// Performs a deterministic depth-first branch and bound search for a
/// changeless selection: one whose effective value lies in
/// `[target, target + cost_of_change]`, so that dropping the excess is cheaper
/// than a change output. Among the selections it visits it keeps the one of
/// least waste: the sum of the outputs' wastes plus the excess over `target`.
///
/// Each output's effective value and waste are computed at `fee_rate` and
/// `long_term_fee_rate`; outputs where either fails, or whose effective value
/// is not positive, are left out. The search includes before it excludes,
/// visits the outputs by descending effective value, skips an output equal in
/// value to an excluded predecessor, and stops after `ITERATION_LIMIT` steps.
///
/// Returns the step count and the selected outputs, or `None` where the target
/// is zero, the window overflows, the outputs' sum overflows or falls short of
/// the target, an amount overflows during the search, or nothing was found.
/// Exactly: the result is `bnb_outcome`, the step-by-step model of this
/// search (`bnb_step`), run over the pool's candidates (`bnb_spec`).
pub fn select_coins_bnb<'a>(
    target: u64,
    cost_of_change: u64,
    fee_rate: u64,
    long_term_fee_rate: u64,
    weighted_utxos: &'a [WeightedUtxo],
) -> (r: Option<(u32, Vec<&'a WeightedUtxo>)>)
    ensures
        bnb_result_ok(r, target, cost_of_change, fee_rate, long_term_fee_rate, weighted_utxos@),
        target == 0 ==> r is None,
        target + cost_of_change > u64::MAX ==> r is None,
        bnb_available(weighted_utxos@, fee_rate, long_term_fee_rate) < target ==> r is None,
        bnb_spec(r, target, cost_of_change, fee_rate, long_term_fee_rate, weighted_utxos@),
        bnb_available(weighted_utxos@, fee_rate, long_term_fee_rate) > u64::MAX ==> r is None,
{
    let r = bnb_search(target, cost_of_change, fee_rate, long_term_fee_rate, weighted_utxos);
    proof {
        let (e, w, o) = choose|e: Seq<u64>, w: Seq<i64>, o: Seq<usize>|
            bnb_candidates_ok(weighted_utxos@, fee_rate, long_term_fee_rate, e, w, o) && result_from(
                r,
                bnb_outcome(e, w, target, cost_of_change, fee_rate, long_term_fee_rate),
                o,
                weighted_utxos@,
            );
        let usable = |u: WeightedUtxo| bnb_usable(u, fee_rate, long_term_fee_rate);
        assert forall|q: int| 0 <= q < weighted_utxos@.len() && #[trigger] usable(weighted_utxos@[q])
            implies exists|j: int| 0 <= j < o.len() && o[j] == q by {
            assert(bnb_usable(weighted_utxos@[q], fee_rate, long_term_fee_rate));
        }
        lemma_total_within_candidates(weighted_utxos@, usable, fee_rate, e, o);
        if let Some((_, selected)) = &r {
            let keep = |u: WeightedUtxo| bnb_usable(u, fee_rate, long_term_fee_rate);
            assert forall|k: int| 0 <= k < targets(selected@).len() implies keep(
                #[trigger] targets(selected@)[k],
            ) by {}
            lemma_subset_within_total(targets(selected@), weighted_utxos@, keep, fee_rate);
        }
    }
    r
}

/// The candidates of branch and bound are fixed by the pool and the fee rates.
proof fn lemma_bnb_candidates_unique(
    pool: Seq<WeightedUtxo>,
    fee_rate: u64,
    long_term_fee_rate: u64,
    e1: Seq<u64>,
    w1: Seq<i64>,
    o1: Seq<usize>,
    e2: Seq<u64>,
    w2: Seq<i64>,
    o2: Seq<usize>,
)
    requires
        bnb_candidates_ok(pool, fee_rate, long_term_fee_rate, e1, w1, o1),
        bnb_candidates_ok(pool, fee_rate, long_term_fee_rate, e2, w2, o2),
    ensures
        e1 == e2 && w1 == w2 && o1 == o2,
{
    let gt = |x: usize, y: usize|
        eff_of(pool[x as int], fee_rate) > eff_of(pool[y as int], fee_rate) || (eff_of(
            pool[x as int],
            fee_rate,
        ) == eff_of(pool[y as int], fee_rate) && x > y);
    assert forall|i: int, j: int| 0 <= i < j < o1.len() implies gt(o1[i], o1[j]) by {
        assert(bnb_usable(pool[o1[i] as int], fee_rate, long_term_fee_rate));
        assert(bnb_usable(pool[o1[j] as int], fee_rate, long_term_fee_rate));
    }
    assert forall|i: int, j: int| 0 <= i < j < o2.len() implies gt(o2[i], o2[j]) by {
        assert(bnb_usable(pool[o2[i] as int], fee_rate, long_term_fee_rate));
        assert(bnb_usable(pool[o2[j] as int], fee_rate, long_term_fee_rate));
    }
    assert forall|x: usize| o1.contains(x) <==> o2.contains(x) by {
        if o1.contains(x) {
            let k = choose|k: int| 0 <= k < o1.len() && o1[k] == x;
            assert(bnb_usable(pool[o1[k] as int], fee_rate, long_term_fee_rate));
            let j = choose|j: int| 0 <= j < o2.len() && o2[j] == x as int;
            assert(o2[j] == x);
        }
        if o2.contains(x) {
            let k = choose|k: int| 0 <= k < o2.len() && o2[k] == x;
            assert(bnb_usable(pool[o2[k] as int], fee_rate, long_term_fee_rate));
            let j = choose|j: int| 0 <= j < o1.len() && o1[j] == x as int;
            assert(o1[j] == x);
        }
    }
    lemma_ordered_unique(o1, o2, gt);
    assert forall|j: int| 0 <= j < e1.len() implies e1[j] == e2[j] by {
        assert(bnb_usable(pool[o1[j] as int], fee_rate, long_term_fee_rate));
        assert(bnb_usable(pool[o2[j] as int], fee_rate, long_term_fee_rate));
    }
    assert(e1 =~= e2);
    assert forall|j: int| 0 <= j < w1.len() implies w1[j] == w2[j] by {
        assert(bnb_usable(pool[o1[j] as int], fee_rate, long_term_fee_rate));
    }
    assert(w1 =~= w2);
}

/// Branch and bound is deterministic: two results that both meet its contract
/// for the same arguments agree, on success or failure, on the step count and
/// on the outputs selected, in order.
pub proof fn bnb_deterministic(
    r1: Option<(u32, Vec<&WeightedUtxo>)>,
    r2: Option<(u32, Vec<&WeightedUtxo>)>,
    target: u64,
    cost_of_change: u64,
    fee_rate: u64,
    long_term_fee_rate: u64,
    pool: Seq<WeightedUtxo>,
)
    requires
        bnb_spec(r1, target, cost_of_change, fee_rate, long_term_fee_rate, pool),
        bnb_spec(r2, target, cost_of_change, fee_rate, long_term_fee_rate, pool),
    ensures
        r1 is Some <==> r2 is Some,
        r1 matches Some((i1, s1)) ==> (r2 matches Some((i2, s2)) && i1 == i2 && targets(s1@)
            == targets(s2@)),
{
    let (e1, w1, o1) = choose|e: Seq<u64>, w: Seq<i64>, o: Seq<usize>|
        bnb_candidates_ok(pool, fee_rate, long_term_fee_rate, e, w, o) && result_from(
            r1,
            bnb_outcome(e, w, target, cost_of_change, fee_rate, long_term_fee_rate),
            o,
            pool,
        );
    let (e2, w2, o2) = choose|e: Seq<u64>, w: Seq<i64>, o: Seq<usize>|
        bnb_candidates_ok(pool, fee_rate, long_term_fee_rate, e, w, o) && result_from(
            r2,
            bnb_outcome(e, w, target, cost_of_change, fee_rate, long_term_fee_rate),
            o,
            pool,
        );
    lemma_bnb_candidates_unique(pool, fee_rate, long_term_fee_rate, e1, w1, o1, e2, w2, o2);
}

} // verus!
