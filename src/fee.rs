//! Fees, effective values and waste of a single output.
use vstd::prelude::*;

verus! {

/// The fee to spend `weight` weight units at `fee_rate` (sat per 1000 wu),
/// rounded up to whole satoshis; `None` where the product overflows.
pub open spec fn fee_of(fee_rate: u64, weight: u64) -> Option<u64> {
    let product = fee_rate * weight;
    if product + 999 <= u64::MAX {
        Some(((product + 999) / 1000) as u64)
    } else {
        None
    }
}

/// `value - fee`, where the fee and the value both fit a signed amount.
pub open spec fn effective_value_of(fee_rate: u64, weight: u64, value: u64) -> Option<i64> {
    match fee_of(fee_rate, weight) {
        Some(f) => if f <= i64::MAX && value <= i64::MAX {
            Some((value - f) as i64)
        } else {
            None
        },
        None => None,
    }
}

/// The fee now minus the fee at the long-term rate, where both fit a signed amount.
pub open spec fn waste_of(fee_rate: u64, long_term_fee_rate: u64, weight: u64) -> Option<i64> {
    match (fee_of(fee_rate, weight), fee_of(long_term_fee_rate, weight)) {
        (Some(f), Some(l)) => if f <= i64::MAX && l <= i64::MAX {
            Some((f - l) as i64)
        } else {
            None
        },
        _ => None,
    }
}

/// Relies on bitcoin's `FeeRate::fee_wu`: rate times weight, divided by 1000
/// and rounded up, or `None` when `rate * weight + 999` overflows a `u64`.
#[verifier::external_body]
fn fee_wu(fee_rate: u64, weight: u64) -> (r: Option<u64>)
    ensures
        r == fee_of(fee_rate, weight),
{
    bitcoin::FeeRate::from_sat_per_kwu(fee_rate)
        .fee_wu(bitcoin::Weight::from_wu(weight))
        .map(|a| a.to_sat())
}

/// `value` as a signed amount, where it fits one.
fn to_signed(value: u64) -> (r: Option<i64>)
    ensures
        r == (if value <= i64::MAX { Some(value as i64) } else { None::<i64> }),
{
    if value <= i64::MAX as u64 {
        Some(value as i64)
    } else {
        None
    }
}

/// Computes the value of an output net of the fee to spend it:
/// `value - fee_rate * weight`, or `None` where the fee overflows or either
/// side does not fit a signed amount.
pub fn effective_value(fee_rate: u64, weight: u64, value: u64) -> (r: Option<i64>)
    ensures
        r == effective_value_of(fee_rate, weight, value),
{
    let fee = match fee_wu(fee_rate, weight) {
        Some(f) => f,
        None => return None,
    };
    let signed_fee = match to_signed(fee) {
        Some(f) => f,
        None => return None,
    };
    let signed_value = match to_signed(value) {
        Some(v) => v,
        None => return None,
    };
    Some(signed_value - signed_fee)
}

/// A candidate output: its value in satoshis and the weight of spending it,
/// base input weight included.
#[derive(Clone, Copy, Debug, PartialEq, Eq)]
pub struct WeightedUtxo {
    pub value: u64,
    pub weight: u64,
}

impl WeightedUtxo {
    /// Total weight of spending this output.
    pub fn weight(&self) -> (r: u64)
        ensures
            r == self.weight,
    {
        self.weight
    }

    /// The value of this output.
    pub fn value(&self) -> (r: u64)
        ensures
            r == self.value,
    {
        self.value
    }

    /// The value of this output net of the fee to spend it at `fee_rate`.
    pub fn effective_value(&self, fee_rate: u64) -> (r: Option<i64>)
        ensures
            r == effective_value_of(fee_rate, self.weight, self.value),
    {
        effective_value(fee_rate, self.weight, self.value)
    }

    /// How much more spending this output costs now than at the long-term
    /// fee rate (negative when fees are below the long-term rate).
    pub fn waste(&self, fee_rate: u64, long_term_fee_rate: u64) -> (r: Option<i64>)
        ensures
            r == waste_of(fee_rate, long_term_fee_rate, self.weight),
    {
        let fee = match fee_wu(fee_rate, self.weight) {
            Some(f) => f,
            None => return None,
        };
        let lt_fee = match fee_wu(long_term_fee_rate, self.weight) {
            Some(f) => f,
            None => return None,
        };
        let fee = match to_signed(fee) {
            Some(f) => f,
            None => return None,
        };
        let lt_fee = match to_signed(lt_fee) {
            Some(f) => f,
            None => return None,
        };
        Some(fee - lt_fee)
    }
}

} // verus!
