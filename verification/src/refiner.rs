use vstd::prelude::*;

use crate::dates::CivilDate;
use crate::errors::RefineError;
use crate::ranking::{in_6_l_8, in_8_low, in_top, max, min, rank_bottom, rank_top};
use crate::series::{
    average, average_of, has_hour, price_at, price_now, price_ratio, ratio_of, sum_prices, Frac,
    HourPrice, PriceSeries,
};
use crate::threshold::{rel_thresh_spec, within_thresh};

verus! {

/// One hour's composite classification: the tags that place it, the exact
/// daily statistics, and the ten boolean band flags.
#[derive(Clone, Copy, Debug, PartialEq, Eq, Structural)]
pub struct ClassificationRecord {
    pub date: CivilDate,
    pub hour: usize,
    pub pris_snitt_24: Frac,
    pub pris_time: i64,
    pub pris_forhold_24: Frac,
    pub pris_max: usize,
    pub pris_min: usize,
    pub in_6_l_8: bool,
    pub in_0_6_high: bool,
    pub in_6_12_high: bool,
    pub in_12_18_high: bool,
    pub in_18_24_high: bool,
    pub t90_115: bool,
    pub t60_90: bool,
    pub t0_60: bool,
    pub t115_140: bool,
    pub t140_999: bool,
    pub i8h_low: bool,
}

/// The record `refine` assembles for `hour` of `date` from the series `s`.
pub open spec fn record_spec(s: Seq<HourPrice>, hour: usize, date: CivilDate)
    -> ClassificationRecord {
    ClassificationRecord {
        date: date,
        hour: hour,
        pris_snitt_24: Frac { num: average_of(s).0 as i64, den: average_of(s).1 as i64 },
        pris_time: price_at(s, hour),
        pris_forhold_24: Frac { num: ratio_of(s, hour).0 as i64, den: ratio_of(s, hour).1 as i64 },
        pris_max: rank_top(s, 1, 0, 23)[0].hour,
        pris_min: rank_bottom(s, 1, 0, 23)[0].hour,
        in_6_l_8: !has_hour(rank_top(s, 2, 0, 8), hour) && has_hour(rank_top(s, 8, 0, 8), hour),
        in_0_6_high: has_hour(rank_top(s, 3, 0, 6), hour),
        in_6_12_high: has_hour(rank_top(s, 3, 6, 12), hour),
        in_12_18_high: has_hour(rank_top(s, 3, 12, 18), hour),
        in_18_24_high: has_hour(rank_top(s, 3, 18, 24), hour),
        t90_115: has_hour(rel_thresh_spec(s, 90_000, 115_000), hour),
        t60_90: has_hour(rel_thresh_spec(s, 60_000, 90_000), hour),
        t0_60: has_hour(rel_thresh_spec(s, 0, 60_000), hour),
        t115_140: has_hour(rel_thresh_spec(s, 115_000, 140_000), hour),
        t140_999: has_hour(rel_thresh_spec(s, 140_000, 999_000), hour),
        i8h_low: has_hour(rank_bottom(s, 8, 0, 23), hour),
    }
}

/// What `refine` returns: the hour's record, or the failure of the hour
/// lookup, or of the exact ratio when the daily average is zero.
pub open spec fn refine_spec(s: Seq<HourPrice>, hour: usize, date: CivilDate) -> Result<
    ClassificationRecord,
    RefineError,
> {
    if !has_hour(s, hour) {
        Err(RefineError::Lookup)
    } else if sum_prices(s) == 0 {
        Err(RefineError::Normalization)
    } else {
        Ok(record_spec(s, hour, date))
    }
}

/// Classifies one hour of the given day's series: the early-day shoulder
/// band, the four quarter-day peak flags, the five relative-threshold
/// flags, the daily low band, the daily extreme hours, and the exact
/// average, price and ratio, assembled into one record for `date`.
pub fn refine(hour: usize, prices: &PriceSeries, date: CivilDate) -> (r: Result<
    ClassificationRecord,
    RefineError,
>)
    ensures
        r == refine_spec(prices@, hour, date),
{
    proof {
        use_type_invariant(prices);
    }
    let pris_time = match price_now(hour, prices) {
        Ok(p) => p,
        Err(e) => {
            return Err(e);
        },
    };
    let pris_forhold = match price_ratio(hour, prices) {
        Ok(f) => f,
        Err(e) => {
            return Err(e);
        },
    };
    let snitt = match average(prices) {
        Ok(f) => f,
        Err(e) => {
            return Err(e);
        },
    };
    let mx = match max(prices) {
        Ok(hp) => hp,
        Err(e) => {
            return Err(e);
        },
    };
    let mn = match min(prices) {
        Ok(hp) => hp,
        Err(e) => {
            return Err(e);
        },
    };
    Ok(
        ClassificationRecord {
            date: date,
            hour: hour,
            pris_snitt_24: snitt,
            pris_time: pris_time,
            pris_forhold_24: pris_forhold,
            pris_max: mx.hour,
            pris_min: mn.hour,
            in_6_l_8: in_6_l_8(hour, prices),
            in_0_6_high: in_top(hour, 0, 6, prices),
            in_6_12_high: in_top(hour, 6, 12, prices),
            in_12_18_high: in_top(hour, 12, 18, prices),
            in_18_24_high: in_top(hour, 18, 24, prices),
            t90_115: within_thresh(hour, 90_000, 115_000, prices),
            t60_90: within_thresh(hour, 60_000, 90_000, prices),
            t0_60: within_thresh(hour, 0, 60_000, prices),
            t115_140: within_thresh(hour, 115_000, 140_000, prices),
            t140_999: within_thresh(hour, 140_000, 999_000, prices),
            i8h_low: in_8_low(hour, prices),
        },
    )
}

/// Law: classification is deterministic in its inputs. Two refine results
/// computed from the same series, hour and date agree flag for flag and
/// statistic for statistic.
pub proof fn lemma_refine_deterministic(
    s: Seq<HourPrice>,
    hour: usize,
    date: CivilDate,
    r1: Result<ClassificationRecord, RefineError>,
    r2: Result<ClassificationRecord, RefineError>,
)
    requires
        r1 == refine_spec(s, hour, date),
        r2 == refine_spec(s, hour, date),
    ensures
        r1 == r2,
{
}

} // verus!
