//! The model of a selection, and the ordering of candidates shared by the
//! searches.
use vstd::prelude::*;

use crate::fee::{effective_value_of, WeightedUtxo};

verus! {

/// The effective value that `u` contributes at `fee_rate`, or 0 where it
/// cannot be computed.
pub open spec fn eff_of(u: WeightedUtxo, fee_rate: u64) -> int {
    match effective_value_of(fee_rate, u.weight, u.value) {
        Some(e) => e as int,
        None => 0,
    }
}

/// Whether `u` has a positive effective value at `fee_rate`.
pub open spec fn is_positive(u: WeightedUtxo, fee_rate: u64) -> bool {
    match effective_value_of(fee_rate, u.weight, u.value) {
        Some(e) => e > 0,
        None => false,
    }
}

/// Sum of the effective values of `s`.
pub open spec fn eff_sum(s: Seq<WeightedUtxo>, fee_rate: u64) -> int
    decreases s.len(),
{
    if s.len() == 0 {
        0
    } else {
        eff_sum(s.drop_last(), fee_rate) + eff_of(s.last(), fee_rate)
    }
}

/// Sum of the weights of `s`.
pub open spec fn weight_sum(s: Seq<WeightedUtxo>) -> int
    decreases s.len(),
{
    if s.len() == 0 {
        0
    } else {
        weight_sum(s.drop_last()) + s.last().weight
    }
}

/// The outputs that a list of references points at.
pub open spec fn targets(s: Seq<&WeightedUtxo>) -> Seq<WeightedUtxo> {
    s.map_values(|r: &WeightedUtxo| *r)
}

/// `picked` lists outputs of `pool` taken at `idx`, distinct positions.
pub open spec fn picks_at(picked: Seq<WeightedUtxo>, pool: Seq<WeightedUtxo>, idx: Seq<int>) -> bool {
    &&& idx.len() == picked.len()
    &&& idx.no_duplicates()
    &&& forall|k: int|
        0 <= k < idx.len() ==> 0 <= #[trigger] idx[k] < pool.len() && picked[k] == pool[idx[k]]
}

/// `picked` lists outputs of `pool` taken at distinct positions: a subset of the pool.
pub open spec fn is_subset_of(picked: Seq<WeightedUtxo>, pool: Seq<WeightedUtxo>) -> bool {
    exists|idx: Seq<int>| picks_at(picked, pool, idx)
}

/// Sum of `values` over positions `lo..values.len()`.
pub open spec fn tail_sum(values: Seq<u64>, lo: int) -> int
    decreases values.len() - lo,
{
    if lo >= values.len() || lo < 0 {
        0
    } else {
        values[lo] + tail_sum(values, lo + 1)
    }
}

/// Sum of `values` at the positions listed in `sel`.
pub open spec fn sel_sum(values: Seq<u64>, sel: Seq<usize>) -> int
    decreases sel.len(),
{
    if sel.len() == 0 {
        0
    } else {
        sel_sum(values, sel.drop_last()) + values[sel.last() as int]
    }
}

/// `sel` is strictly increasing and below `bound`.
pub open spec fn increasing_below(sel: Seq<usize>, bound: int) -> bool {
    &&& forall|a: int, b: int| 0 <= a < b < sel.len() ==> sel[a] < sel[b]
    &&& forall|a: int| 0 <= a < sel.len() ==> sel[a] < bound
}

/// Order of sort keys: lexicographic.
pub open spec fn key_le(a: (u64, u64, usize), b: (u64, u64, usize)) -> bool {
    a.0 < b.0 || (a.0 == b.0 && (a.1 < b.1 || (a.1 == b.1 && a.2 <= b.2)))
}

/// Relies on std's `slice::sort` on tuples of integers: the same items,
/// reordered ascending in the lexicographic order of the tuples.
#[verifier::external_body]
fn sort_keys(keys: &mut Vec<(u64, u64, usize)>)
    ensures
        final(keys)@.to_multiset() == old(keys)@.to_multiset(),
        forall|i: int, j: int|
            0 <= i < j < final(keys)@.len() ==> key_le(final(keys)@[i], final(keys)@[j]),
{
    keys.sort()
}

/// The keys ordered descending, each position's key taken from `keys`.
/// Where the third members of `keys` are distinct, so are those of the result.
pub fn sorted_descending(keys: Vec<(u64, u64, usize)>) -> (r: Vec<(u64, u64, usize)>)
    ensures
        r@.len() == keys@.len(),
        forall|i: int| 0 <= i < r@.len() ==> keys@.contains(#[trigger] r@[i]),
        forall|i: int| 0 <= i < keys@.len() ==> r@.contains(#[trigger] keys@[i]),
        forall|i: int, j: int| 0 <= i < j < r@.len() ==> key_le(r@[j], r@[i]),
        (forall|i: int, j: int| 0 <= i < j < keys@.len() ==> keys@[i].2 != keys@[j].2) ==> (
        forall|i: int, j: int| 0 <= i < j < r@.len() ==> r@[i].2 != r@[j].2),
{
    let ghost before = keys@;
    let mut sorted = keys;
    sort_keys(&mut sorted);
    proof {
        broadcast use vstd::seq_lib::group_to_multiset_ensures;

        assert(sorted@.to_multiset().len() == before.to_multiset().len());
        assert(sorted@.len() == before.len());
        assert forall|i: int| 0 <= i < sorted@.len() implies before.contains(sorted@[i]) by {
            assert(sorted@.to_multiset().count(sorted@[i]) > 0);
        }
        assert forall|i: int| 0 <= i < before.len() implies sorted@.contains(before[i]) by {
            assert(before.to_multiset().count(before[i]) > 0);
        }
        if forall|i: int, j: int| 0 <= i < j < before.len() ==> before[i].2 != before[j].2 {
            assert(before.no_duplicates());
            before.lemma_multiset_has_no_duplicates();
            sorted@.lemma_multiset_has_no_duplicates_conv();
            assert forall|i: int, j: int| 0 <= i < j < sorted@.len() implies sorted@[i].2
                != sorted@[j].2 by {
                let a = choose|a: int| 0 <= a < before.len() && before[a] == sorted@[i];
                let b = choose|b: int| 0 <= b < before.len() && before[b] == sorted@[j];
                if sorted@[i].2 == sorted@[j].2 {
                    assert(a == b);
                }
            }
        }
    }
    let n = sorted.len();
    let mut r: Vec<(u64, u64, usize)> = Vec::new();
    let mut k: usize = n;
    while k > 0
        invariant
            k <= n == sorted@.len(),
            r@.len() == n - k,
            forall|i: int| 0 <= i < r@.len() ==> r@[i] == sorted@[n - 1 - i],
        decreases k,
    {
        k = k - 1;
        r.push(sorted[k]);
    }
    assert forall|i: int| 0 <= i < before.len() implies r@.contains(#[trigger] before[i]) by {
        let j = choose|j: int| 0 <= j < sorted@.len() && sorted@[j] == before[i];
        assert(r@[n - 1 - j] == sorted@[j]);
    }
    r
}

/// Projected candidates: `origs[j]` is the pool position of candidate `j`,
/// distinct for distinct candidates.
pub open spec fn origins_ok(origs: Seq<usize>, pool_len: int) -> bool {
    &&& forall|j: int| 0 <= j < origs.len() ==> #[trigger] origs[j] < pool_len
    &&& forall|i: int, j: int| 0 <= i < j < origs.len() ==> origs[i] != origs[j]
}

/// Tail sums never exceed the sum from an earlier position.
pub proof fn lemma_tail_sum_antitone(values: Seq<u64>, a: int, b: int)
    requires
        0 <= a <= b,
    ensures
        tail_sum(values, b) <= tail_sum(values, a),
    decreases b - a,
{
    if a < b {
        lemma_tail_sum_antitone(values, a + 1, b);
    }
}

/// A selection below `bound` sums to at most the values before `bound`.
pub proof fn lemma_sel_sum_bound(values: Seq<u64>, sel: Seq<usize>, bound: int)
    requires
        0 <= bound <= values.len(),
        increasing_below(sel, bound),
    ensures
        0 <= sel_sum(values, sel),
        sel_sum(values, sel) + tail_sum(values, bound) <= tail_sum(values, 0),
    decreases sel.len(),
{
    if sel.len() == 0 {
        lemma_tail_sum_antitone(values, 0, bound);
    } else {
        let last = sel.last() as int;
        let rest = sel.drop_last();
        assert(increasing_below(rest, last)) by {
            assert forall|a: int| 0 <= a < rest.len() implies rest[a] < last by {
                assert(sel[a] < sel[sel.len() - 1]);
            }
        }
        lemma_sel_sum_bound(values, rest, last);
        lemma_tail_sum_antitone(values, last + 1, bound);
    }
}

/// Sum of effective values over outputs picked through a projection.
pub proof fn lemma_eff_sum_picked(
    pool: Seq<WeightedUtxo>,
    values: Seq<u64>,
    origs: Seq<usize>,
    sel: Seq<usize>,
    picked: Seq<WeightedUtxo>,
    fee_rate: u64,
)
    requires
        values.len() == origs.len(),
        origins_ok(origs, pool.len() as int),
        forall|j: int| 0 <= j < values.len() ==> values[j] == eff_of(pool[origs[j] as int], fee_rate),
        increasing_below(sel, origs.len() as int),
        picked.len() == sel.len(),
        forall|k: int| 0 <= k < sel.len() ==> picked[k] == pool[origs[sel[k] as int] as int],
    ensures
        eff_sum(picked, fee_rate) == sel_sum(values, sel),
    decreases sel.len(),
{
    if sel.len() > 0 {
        lemma_eff_sum_picked(pool, values, origs, sel.drop_last(), picked.drop_last(), fee_rate);
    }
}

/// Sum of weights over outputs picked through a projection.
pub proof fn lemma_weight_sum_picked(
    pool: Seq<WeightedUtxo>,
    weights: Seq<u64>,
    origs: Seq<usize>,
    sel: Seq<usize>,
    picked: Seq<WeightedUtxo>,
)
    requires
        weights.len() == origs.len(),
        origins_ok(origs, pool.len() as int),
        forall|j: int| 0 <= j < weights.len() ==> weights[j] == pool[origs[j] as int].weight,
        increasing_below(sel, origs.len() as int),
        picked.len() == sel.len(),
        forall|k: int| 0 <= k < sel.len() ==> picked[k] == pool[origs[sel[k] as int] as int],
    ensures
        weight_sum(picked) == sel_sum(weights, sel),
    decreases sel.len(),
{
    if sel.len() > 0 {
        lemma_weight_sum_picked(pool, weights, origs, sel.drop_last(), picked.drop_last());
    }
}

/// Outputs picked through a projection at increasing positions form a subset of the pool.
pub proof fn lemma_picked_subset(
    pool: Seq<WeightedUtxo>,
    origs: Seq<usize>,
    sel: Seq<usize>,
    picked: Seq<WeightedUtxo>,
)
    requires
        origins_ok(origs, pool.len() as int),
        increasing_below(sel, origs.len() as int),
        picked.len() == sel.len(),
        forall|k: int| 0 <= k < sel.len() ==> picked[k] == pool[origs[sel[k] as int] as int],
    ensures
        is_subset_of(picked, pool),
{
    let idx = sel.map_values(|s: usize| origs[s as int] as int);
    assert forall|a: int, b: int| 0 <= a < idx.len() && 0 <= b < idx.len() && a != b implies idx[a]
        != idx[b] by {
        if a < b {
            assert(sel[a] < sel[b]);
        } else {
            assert(sel[b] < sel[a]);
        }
    }
    assert(picks_at(picked, pool, idx));
}

/// The outputs at the candidates listed in `index_list`, with the iteration count;
/// `None` where the list is empty.
pub fn index_to_utxo_list<'a>(
    iterations: u32,
    index_list: Vec<usize>,
    origs: &Vec<usize>,
    pool: &'a [WeightedUtxo],
) -> (r: Option<(u32, Vec<&'a WeightedUtxo>)>)
    requires
        forall|k: int| 0 <= k < index_list@.len() ==> #[trigger] index_list@[k] < origs@.len(),
        forall|j: int| 0 <= j < origs@.len() ==> #[trigger] origs@[j] < pool@.len(),
    ensures
        r is None <==> index_list@.len() == 0,
        r matches Some((it, s)) ==> {
            &&& it == iterations
            &&& s@.len() == index_list@.len()
            &&& forall|k: int|
                0 <= k < s@.len() ==> *s@[k] == pool@[origs@[index_list@[k] as int] as int]
        },
{
    let mut result: Vec<&'a WeightedUtxo> = Vec::new();
    let mut k: usize = 0;
    while k < index_list.len()
        invariant
            k <= index_list@.len(),
            result@.len() == k,
            forall|k: int| 0 <= k < index_list@.len() ==> #[trigger] index_list@[k] < origs@.len(),
            forall|j: int| 0 <= j < origs@.len() ==> #[trigger] origs@[j] < pool@.len(),
            forall|i: int|
                0 <= i < k ==> *result@[i] == pool@[origs@[index_list@[i] as int] as int],
        decreases index_list@.len() - k,
    {
        let wu = &pool[origs[index_list[k]]];
        result.push(wu);
        k += 1;
    }
    if result.len() == 0 {
        None
    } else {
        Some((iterations, result))
    }
}

/// The sum of `values`, or `None` where it overflows a `u64`.
pub fn checked_total(values: &Vec<u64>) -> (r: Option<u64>)
    ensures
        r matches Some(t) ==> t == tail_sum(values@, 0),
        r is None ==> tail_sum(values@, 0) > u64::MAX,
{
    let mut k: usize = values.len();
    let mut acc: u64 = 0;
    while k > 0
        invariant
            k <= values@.len(),
            acc == tail_sum(values@, k as int),
        decreases k,
    {
        k -= 1;
        acc = match acc.checked_add(values[k]) {
            Some(a) => a,
            None => {
                proof {
                    lemma_tail_sum_antitone(values@, 0, k as int);
                }
                return None;
            },
        };
    }
    Some(acc)
}

/// Sum of the effective values of the outputs of `pool` that `keep` admits.
pub open spec fn kept_total(pool: Seq<WeightedUtxo>, keep: spec_fn(WeightedUtxo) -> bool, fee_rate: u64) -> int
    decreases pool.len(),
{
    if pool.len() == 0 {
        0
    } else {
        kept_total(pool.drop_last(), keep, fee_rate) + if keep(pool.last()) {
            eff_of(pool.last(), fee_rate)
        } else {
            0
        }
    }
}

/// The effective value of all the outputs of positive effective value.
pub open spec fn positive_total(pool: Seq<WeightedUtxo>, fee_rate: u64) -> int {
    kept_total(pool, |u: WeightedUtxo| is_positive(u, fee_rate), fee_rate)
}

/// Taking one output out of a list takes its effective value out of the sum.
pub proof fn lemma_eff_sum_remove(s: Seq<WeightedUtxo>, t: int, fee_rate: u64)
    requires
        0 <= t < s.len(),
    ensures
        eff_sum(s, fee_rate) == eff_sum(s.remove(t), fee_rate) + eff_of(s[t], fee_rate),
    decreases s.len(),
{
    if t < s.len() - 1 {
        lemma_eff_sum_remove(s.drop_last(), t, fee_rate);
        assert(s.remove(t).drop_last() =~= s.drop_last().remove(t));
        assert(s.remove(t).last() == s.last());
    } else {
        assert(s.remove(t) =~= s.drop_last());
    }
}

/// A subset of the pool is worth at most all the outputs that `keep` admits,
/// where those are never worth less than nothing and the subset's other
/// outputs are worth nothing or less.
pub proof fn lemma_subset_within_total(
    picked: Seq<WeightedUtxo>,
    pool: Seq<WeightedUtxo>,
    keep: spec_fn(WeightedUtxo) -> bool,
    fee_rate: u64,
)
    requires
        is_subset_of(picked, pool),
        forall|k: int|
            0 <= k < picked.len() ==> keep(#[trigger] picked[k]) || eff_of(picked[k], fee_rate)
                <= 0,
        forall|u: WeightedUtxo| #[trigger] keep(u) ==> eff_of(u, fee_rate) >= 0,
    ensures
        eff_sum(picked, fee_rate) <= kept_total(pool, keep, fee_rate),
    decreases pool.len(),
{
    let idx = choose|idx: Seq<int>| picks_at(picked, pool, idx);
    if pool.len() == 0 {
        if picked.len() > 0 {
            assert(0 <= idx[0] < pool.len());
        }
    } else {
        let last = pool.len() - 1;
        let rest = pool.drop_last();
        if exists|t: int| 0 <= t < idx.len() && idx[t] == last {
            let t = choose|t: int| 0 <= t < idx.len() && idx[t] == last;
            let idx2 = idx.remove(t);
            let picked2 = picked.remove(t);
            assert forall|k: int| 0 <= k < idx2.len() implies 0 <= #[trigger] idx2[k] < rest.len()
                && picked2[k] == rest[idx2[k]] by {
                if k < t {
                    assert(idx2[k] == idx[k] && idx[k] != idx[t]);
                } else {
                    assert(idx2[k] == idx[k + 1] && idx[k + 1] != idx[t]);
                }
            }
            assert(idx2.no_duplicates()) by {
                assert forall|a: int, b: int| 0 <= a < idx2.len() && 0 <= b < idx2.len() && a != b
                    implies idx2[a] != idx2[b] by {
                    let a1 = if a < t { a } else { a + 1 };
                    let b1 = if b < t { b } else { b + 1 };
                    assert(idx2[a] == idx[a1] && idx2[b] == idx[b1]);
                }
            }
            assert(picks_at(picked2, rest, idx2));
            assert forall|k: int| 0 <= k < picked2.len() implies keep(#[trigger] picked2[k]) || eff_of(picked2[k], fee_rate) <= 0 by {
                if k < t {
                    assert(picked2[k] == picked[k]);
                } else {
                    assert(picked2[k] == picked[k + 1]);
                }
            }
            lemma_subset_within_total(picked2, rest, keep, fee_rate);
            lemma_eff_sum_remove(picked, t, fee_rate);
            assert(picked[t] == pool.last());
        } else {
            assert forall|k: int| 0 <= k < idx.len() implies 0 <= #[trigger] idx[k] < rest.len()
                && picked[k] == rest[idx[k]] by {}
            assert(picks_at(picked, rest, idx));
            lemma_subset_within_total(picked, rest, keep, fee_rate);
            if keep(pool.last()) {
                assert(eff_of(pool.last(), fee_rate) >= 0);
            }
        }
    }
}

/// Two lists of the same items, each strictly ordered by the same asymmetric
/// relation, are the same list.
pub proof fn lemma_ordered_unique(a: Seq<usize>, b: Seq<usize>, gt: spec_fn(usize, usize) -> bool)
    requires
        forall|x: usize, y: usize| #[trigger] gt(x, y) ==> !gt(y, x),
        forall|i: int, j: int| 0 <= i < j < a.len() ==> gt(a[i], a[j]),
        forall|i: int, j: int| 0 <= i < j < b.len() ==> gt(b[i], b[j]),
        forall|x: usize| a.contains(x) <==> b.contains(x),
    ensures
        a == b,
    decreases a.len(),
{
    if a.len() == 0 {
        if b.len() > 0 {
            assert(b.contains(b[0]));
        }
        assert(a =~= b);
    } else {
        assert(a.contains(a[0]));
        assert(b.contains(a[0]));
        assert(b.len() > 0);
        assert(b.contains(b[0]));
        let i = choose|i: int| 0 <= i < a.len() && a[i] == b[0];
        let j = choose|j: int| 0 <= j < b.len() && b[j] == a[0];
        if i != 0 {
            assert(gt(a[0], a[i]));
            if j != 0 {
                assert(gt(b[0], b[j]));
            }
        }
        assert(a[0] == b[0]);
        let a1 = a.drop_first();
        let b1 = b.drop_first();
        assert forall|x: usize| a1.contains(x) <==> b1.contains(x) by {
            if a1.contains(x) {
                let k = choose|k: int| 0 <= k < a1.len() && a1[k] == x;
                assert(gt(a[0], a[k + 1]));
                assert(b.contains(x));
                let t = choose|t: int| 0 <= t < b.len() && b[t] == x;
                assert(t != 0);
                assert(b1[t - 1] == x);
            }
            if b1.contains(x) {
                let k = choose|k: int| 0 <= k < b1.len() && b1[k] == x;
                assert(gt(b[0], b[k + 1]));
                assert(a.contains(x));
                let t = choose|t: int| 0 <= t < a.len() && a[t] == x;
                assert(t != 0);
                assert(a1[t - 1] == x);
            }
        }
        assert forall|i: int, j: int| 0 <= i < j < a1.len() implies gt(a1[i], a1[j]) by {
            assert(gt(a[i + 1], a[j + 1]));
        }
        assert forall|i: int, j: int| 0 <= i < j < b1.len() implies gt(b1[i], b1[j]) by {
            assert(gt(b[i + 1], b[j + 1]));
        }
        lemma_ordered_unique(a1, b1, gt);
        assert(a =~= seq![a[0]] + a1);
        assert(b =~= seq![b[0]] + b1);
    }
}

/// Past a removed position, the sums of the shorter list are those of the
/// longer one one place further on.
proof fn lemma_tail_sum_shift(values: Seq<u64>, t: int, k: int)
    requires
        0 <= t <= k,
        t < values.len(),
    ensures
        tail_sum(values.remove(t), k) == tail_sum(values, k + 1),
    decreases values.len() - k,
{
    if k < values.len() - 1 {
        lemma_tail_sum_shift(values, t, k + 1);
    }
}

/// Taking one value out of a list takes it out of the sums that reach it.
proof fn lemma_tail_sum_remove(values: Seq<u64>, t: int, lo: int)
    requires
        0 <= lo <= t < values.len(),
    ensures
        tail_sum(values, lo) == tail_sum(values.remove(t), lo) + values[t],
    decreases t - lo,
{
    if lo == t {
        lemma_tail_sum_shift(values, t, t);
    } else {
        lemma_tail_sum_remove(values, t, lo + 1);
    }
}

/// Where every output that `keep` admits is a candidate, the candidates'
/// effective values sum to at least the total of those outputs.
pub proof fn lemma_total_within_candidates(
    pool: Seq<WeightedUtxo>,
    keep: spec_fn(WeightedUtxo) -> bool,
    fee_rate: u64,
    values: Seq<u64>,
    origs: Seq<usize>,
)
    requires
        values.len() == origs.len(),
        origins_ok(origs, pool.len() as int),
        forall|j: int| 0 <= j < values.len() ==> values[j] == eff_of(pool[origs[j] as int], fee_rate),
        forall|q: int|
            0 <= q < pool.len() && #[trigger] keep(pool[q]) ==> exists|j: int|
                0 <= j < origs.len() && origs[j] == q,
    ensures
        kept_total(pool, keep, fee_rate) <= tail_sum(values, 0),
    decreases pool.len(),
{
    if pool.len() == 0 {
        lemma_tail_sum_antitone(values, 0, values.len() as int);
        if origs.len() > 0 {
            assert(origs[0] < pool.len());
        }
    } else {
        let last = pool.len() - 1;
        let rest = pool.drop_last();
        assert forall|q: int| 0 <= q < rest.len() implies rest[q] == pool[q] by {}
        if exists|t: int| 0 <= t < origs.len() && origs[t] == last {
            let t = choose|t: int| 0 <= t < origs.len() && origs[t] == last;
            let v2 = values.remove(t);
            let o2 = origs.remove(t);
            assert forall|j: int| 0 <= j < o2.len() implies #[trigger] o2[j] < rest.len() by {
                if j < t {
                    assert(o2[j] == origs[j] && origs[j] != origs[t]);
                } else {
                    assert(o2[j] == origs[j + 1] && origs[j + 1] != origs[t]);
                }
            }
            assert forall|a: int, b: int| 0 <= a < b < o2.len() implies o2[a] != o2[b] by {
                let a1 = if a < t { a } else { a + 1 };
                let b1 = if b < t { b } else { b + 1 };
                assert(o2[a] == origs[a1] && o2[b] == origs[b1]);
            }
            assert forall|j: int| 0 <= j < v2.len() implies v2[j] == eff_of(rest[o2[j] as int], fee_rate) by {
                let j1 = if j < t { j } else { j + 1 };
                assert(v2[j] == values[j1] && o2[j] == origs[j1]);
            }
            assert forall|q: int| 0 <= q < rest.len() && #[trigger] keep(rest[q]) implies exists|j: int|
                0 <= j < o2.len() && o2[j] == q by {
                assert(keep(pool[q]));
                let j = choose|j: int| 0 <= j < origs.len() && origs[j] == q;
                assert(j != t);
                if j < t {
                    assert(o2[j] == q);
                } else {
                    assert(o2[j - 1] == q);
                }
            }
            lemma_total_within_candidates(rest, keep, fee_rate, v2, o2);
            lemma_tail_sum_remove(values, t, 0);
        } else {
            assert(!keep(pool[last]));
            assert forall|j: int| 0 <= j < origs.len() implies #[trigger] origs[j] < rest.len() by {
                assert(origs[j] != last);
            }
            assert forall|q: int| 0 <= q < rest.len() && #[trigger] keep(rest[q]) implies exists|j: int|
                0 <= j < origs.len() && origs[j] == q by {
                assert(keep(pool[q]));
            }
            lemma_total_within_candidates(rest, keep, fee_rate, values, origs);
        }
    }
}

} // verus!
