//! The data model of one solve: time intervals with predicted power and
//! price, the battery configuration, and the resulting plan. Timestamps are
//! opaque to the core (it never computes with them); all physical
//! quantities are exact rationals.

use crate::rat::{rat_le, Rat};
use vstd::prelude::*;

verus! {

/// One fixed-length interval of the joined input series: predicted average
/// power draw and the energy price applying to that slot.
#[derive(Clone, Copy, Debug)]
pub struct Data {
    pub start: i64,
    pub end: i64,
    pub power: Rat,
    pub price: Rat,
}

impl Data {
    pub open spec fn wf(self) -> bool {
        self.power.wf() && self.price.wf()
    }
}

/// Scalar physical limits of one solve. `battery_efficiency` lies in
/// `(0, 1]` and applies to the charging leg only.
#[derive(Clone, Copy, Debug)]
pub struct Config {
    pub max_consumption: Rat,
    pub battery_capacity: Rat,
    pub battery_max_charge: Rat,
    pub battery_initial_charge: Rat,
    pub battery_efficiency: Rat,
    pub battery_final_charge: Rat,
}

impl Config {
    pub open spec fn wf(self) -> bool {
        &&& self.max_consumption.wf()
        &&& self.battery_capacity.wf()
        &&& self.battery_max_charge.wf()
        &&& self.battery_initial_charge.wf()
        &&& self.battery_efficiency.wf()
        &&& self.battery_final_charge.wf()
        &&& self.battery_efficiency.num > 0
        &&& self.battery_efficiency.num <= self.battery_efficiency.den
    }
}

/// Per-interval output: how much energy flows into or out of the battery.
/// By construction at most one of the two fields is nonzero.
#[derive(Clone, Copy, Debug)]
pub struct Plan {
    pub start: i64,
    pub end: i64,
    pub energy_from_battery_wh: Rat,
    pub energy_to_battery_wh: Rat,
}

/// The full schedule, one `Plan` per input interval.
#[derive(Debug)]
pub struct Out {
    pub planning: Vec<Plan>,
}

/// One record of the consumption forecast series.
#[derive(Clone, Copy, Debug)]
pub struct Consumption {
    pub start: i64,
    pub end: i64,
    pub power: Rat,
}

/// One record of the market price series; one price spans four consecutive
/// consumption intervals.
#[derive(Clone, Copy, Debug)]
pub struct Price {
    pub start: i64,
    pub end: i64,
    pub value: Rat,
}

/// The validation performed before joining the two series: both are
/// non-empty and they cover the same time span.
pub fn series_aligned(forecasts: &Vec<Consumption>, prices: &Vec<Price>) -> (r: bool)
    ensures
        r == (forecasts@.len() >= 1 && prices@.len() >= 1 && forecasts@[0].start
            == prices@[0].start && forecasts@[forecasts@.len() - 1].end == prices@[prices@.len()
            - 1].end),
{
    if forecasts.len() == 0 || prices.len() == 0 {
        return false;
    }
    let f0 = forecasts[0].start;
    let fl = forecasts[forecasts.len() - 1].end;
    let p0 = prices[0].start;
    let pl = prices[prices.len() - 1].end;
    f0 == p0 && fl == pl
}

/// Join the two input series: each consumption interval keeps its power,
/// and takes the price of the record covering it (one price record per
/// four consumption intervals).
pub fn join_series(forecasts: &Vec<Consumption>, prices: &Vec<Price>) -> (r: Vec<Data>)
    requires
        forecasts@.len() >= 1,
        prices@.len() >= 1,
        (forecasts@.len() - 1) / 4 < prices@.len(),
    ensures
        r@.len() == forecasts@.len(),
        forall|i: int|
            0 <= i < r@.len() ==> {
                &&& (#[trigger] r@[i]).start == forecasts@[i].start
                &&& r@[i].end == forecasts@[i].end
                &&& r@[i].power == forecasts@[i].power
                &&& r@[i].price == prices@[i / 4].value
            },
{
    let n = forecasts.len();
    let mut joined: Vec<Data> = Vec::new();
    let mut i: usize = 0;
    while i < n
        invariant
            n == forecasts@.len(),
            n >= 1,
            (n - 1) / 4 < prices@.len(),
            i <= n,
            joined@.len() == i,
            forall|j: int|
                0 <= j < i ==> {
                    &&& (#[trigger] joined@[j]).start == forecasts@[j].start
                    &&& joined@[j].end == forecasts@[j].end
                    &&& joined@[j].power == forecasts@[j].power
                    &&& joined@[j].price == prices@[j / 4].value
                },
        decreases n - i,
    {
        proof {
            vstd::arithmetic::div_mod::lemma_div_is_ordered(i as int, n - 1, 4);
        }
        let f = forecasts[i];
        let p = prices[i / 4];
        joined.push(Data { start: f.start, end: f.end, power: f.power, price: p.value });
        i += 1;
    }
    joined
}

} // verus!
