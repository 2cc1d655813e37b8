//! Coin selection for a Bitcoin wallet: given a spend target and a pool of
//! unspent outputs, pick a subset whose effective value meets the target.
//!
//! Amounts are satoshis (`u64`), weights are weight units (`u64`) and fee
//! rates are satoshis per 1000 weight units (`u64`).
use vstd::prelude::*;

mod branch_and_bound;
mod candidates;
pub mod coin_grinder;
mod single_random_draw;
mod fee;

pub use crate::branch_and_bound::{
    bnb_deterministic, bnb_outcome, bnb_spec, bnb_candidates_ok, select_coins_bnb, BnbState, SearchEnd,
    Step,
};
pub use crate::candidates::{eff_sum, is_subset_of, positive_total, targets, weight_sum};
pub use crate::fee::{effective_value, WeightedUtxo};
pub use crate::single_random_draw::{select_coins_srd, select_coins_srd_in_order};

verus! {

/// The smallest surplus over the target that a random draw accepts, so that
/// the change output it creates is worth having.
pub const CHANGE_LOWER: u64 = 50_000;

/// The most search steps that branch and bound or coin grinder take.
pub const ITERATION_LIMIT: u32 = 100_000;

/// Bitcoin's total money supply in satoshis.
pub const MAX_MONEY: u64 = 2_100_000_000_000_000;

/// rand's per-thread random generator, carried through without looking inside.
#[verifier::external_type_specification]
#[verifier::external_body]
pub struct ExThreadRng(rand::rngs::ThreadRng);

/// Relies on rand's `thread_rng`: a handle to the thread's random generator.
pub assume_specification[ rand::thread_rng ]() -> rand::rngs::ThreadRng;

/// Selects outputs for `target`: first by branch and bound, for a selection
/// that needs no change output; where that finds none, by a single random
/// draw with the thread's random generator. A selection is thus either
/// changeless, within `cost_of_change` of the target, or leaves at least
/// `CHANGE_LOWER` of change. Returns `None` only where both fail.
pub fn select_coins<'a>(
    target: u64,
    cost_of_change: u64,
    fee_rate: u64,
    long_term_fee_rate: u64,
    weighted_utxos: &'a [WeightedUtxo],
) -> (r: Option<Vec<&'a WeightedUtxo>>)
    requires
        weighted_utxos@.len() <= u32::MAX,
    ensures
        r matches Some(selected) ==> {
            &&& selected@.len() > 0
            &&& is_subset_of(targets(selected@), weighted_utxos@)
            &&& target <= eff_sum(targets(selected@), fee_rate)
            &&& eff_sum(targets(selected@), fee_rate) <= target + cost_of_change || eff_sum(
                targets(selected@),
                fee_rate,
            ) >= target + CHANGE_LOWER
        },
        positive_total(weighted_utxos@, fee_rate) < target ==> r is None,
        r is None ==> target > MAX_MONEY || positive_total(weighted_utxos@, fee_rate) < target
            + CHANGE_LOWER,
        exists|bnb: Option<(u32, Vec<&'a WeightedUtxo>)>|
            {
                &&& bnb_spec(bnb, target, cost_of_change, fee_rate, long_term_fee_rate, weighted_utxos@)
                &&& bnb matches Some((_, s)) ==> r == Some(s)
                &&& r is None ==> bnb is None
            },
{
    let bnb = select_coins_bnb(target, cost_of_change, fee_rate, long_term_fee_rate, weighted_utxos);
    let ghost bnb_result = bnb;
    match bnb {
        Some((_, selected)) => {
            proof {
                let keep = |u: WeightedUtxo| crate::candidates::is_positive(u, fee_rate);
                assert forall|k: int| 0 <= k < targets(selected@).len() implies keep(
                    #[trigger] targets(selected@)[k],
                ) by {}
                crate::candidates::lemma_subset_within_total(
                    targets(selected@),
                    weighted_utxos@,
                    keep,
                    fee_rate,
                );
            }
            assert(bnb_spec(bnb_result, target, cost_of_change, fee_rate, long_term_fee_rate, weighted_utxos@));
            Some(selected)
        },
        None => {
            let mut rng = rand::thread_rng();
            let r = match select_coins_srd(target, fee_rate, weighted_utxos, &mut rng) {
                Some((_, selected)) => Some(selected),
                None => None,
            };
            assert(bnb_spec(bnb_result, target, cost_of_change, fee_rate, long_term_fee_rate, weighted_utxos@));
            r
        },
    }
}

} // verus!
