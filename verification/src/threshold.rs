use vstd::prelude::*;

use crate::ranking::contains_hour;
use crate::series::{
    average, has_hour, lemma_series_len, lemma_sum_bound, series_wf, sum_prices, HourPrice,
    PriceSeries, PRICE_MAX,
};

verus! {

/// The denominator of a normalized threshold. Thresholds arrive in
/// thousandths; a value above 1.0 (raw value above 1000) is read as a
/// percentage and divided by a further 100, so its denominator is 100000.
pub open spec fn norm_den(t: i64) -> int {
    if t > 1000 {
        100_000
    } else {
        1000
    }
}

/// Whether a price lies strictly between `low * average` and
/// `high * average` for a series whose prices sum to `total` over `n`
/// entries, compared exactly by cross-multiplication (the average is
/// `total / n`, and both thresholds are normalized fractions).
pub open spec fn in_band(p: i64, low: i64, high: i64, total: int, n: int) -> bool {
    p * norm_den(low) * n > low * total && p * norm_den(high) * n < high * total
}

/// The subsequence of `s` whose prices lie strictly inside the band, in the
/// order of `s`; `total` and `n` are the price sum and entry count the band
/// is normalized against.
pub open spec fn band_seq(s: Seq<HourPrice>, low: i64, high: i64, total: int, n: int) -> Seq<
    HourPrice,
>
    decreases s.len(),
{
    if s.len() == 0 {
        Seq::empty()
    } else if in_band(s.last().price, low, high, total, n) {
        band_seq(s.drop_last(), low, high, total, n).push(s.last())
    } else {
        band_seq(s.drop_last(), low, high, total, n)
    }
}

/// What `rel_thresh` returns: the entries of the series whose price lies
/// strictly between the normalized thresholds times the daily average.
pub open spec fn rel_thresh_spec(s: Seq<HourPrice>, low: i64, high: i64) -> Seq<HourPrice> {
    band_seq(s, low, high, sum_prices(s), s.len() as int)
}

fn band_check(p: i64, low: i64, high: i64, total: i64, n: i64) -> (r: bool)
    requires
        -PRICE_MAX <= p <= PRICE_MAX,
        -24 * PRICE_MAX <= total <= 24 * PRICE_MAX,
        0 <= n <= 24,
    ensures
        r == in_band(p, low, high, total as int, n as int),
{
    let lden: i128 = if low > 1000 {
        100_000
    } else {
        1000
    };
    let hden: i128 = if high > 1000 {
        100_000
    } else {
        1000
    };
    let pw: i128 = p as i128;
    let nw: i128 = n as i128;
    let lw: i128 = low as i128;
    let hw: i128 = high as i128;
    let tw: i128 = total as i128;
    proof {
        assert(-(100_000 * PRICE_MAX as i128) <= pw * lden <= 100_000 * (PRICE_MAX as i128))
            by (nonlinear_arith)
            requires
                -(PRICE_MAX as i128) <= pw <= PRICE_MAX as i128,
                1000 <= lden <= 100_000,
        ;
        assert(-(100_000 * PRICE_MAX as i128) <= pw * hden <= 100_000 * (PRICE_MAX as i128))
            by (nonlinear_arith)
            requires
                -(PRICE_MAX as i128) <= pw <= PRICE_MAX as i128,
                1000 <= hden <= 100_000,
        ;
        assert(-(2_400_000 * PRICE_MAX as i128) <= (pw * lden) * nw <= 2_400_000 * (
        PRICE_MAX as i128)) by (nonlinear_arith)
            requires
                -(100_000 * PRICE_MAX as i128) <= pw * lden <= 100_000 * PRICE_MAX as i128,
                0 <= nw <= 24,
        ;
        assert(-(2_400_000 * PRICE_MAX as i128) <= (pw * hden) * nw <= 2_400_000 * (
        PRICE_MAX as i128)) by (nonlinear_arith)
            requires
                -(100_000 * PRICE_MAX as i128) <= pw * hden <= 100_000 * PRICE_MAX as i128,
                0 <= nw <= 24,
        ;
        assert(-(24 * (PRICE_MAX as i128) * ((i64::MAX as i128) + 1)) <= lw * tw <= 24 * (
        PRICE_MAX as i128) * ((i64::MAX as i128) + 1)) by (nonlinear_arith)
            requires
                -((i64::MAX as i128) + 1) <= lw <= i64::MAX as i128,
                -24 * (PRICE_MAX as i128) <= tw <= 24 * (PRICE_MAX as i128),
        ;
        assert(-(24 * (PRICE_MAX as i128) * ((i64::MAX as i128) + 1)) <= hw * tw <= 24 * (
        PRICE_MAX as i128) * ((i64::MAX as i128) + 1)) by (nonlinear_arith)
            requires
                -((i64::MAX as i128) + 1) <= hw <= i64::MAX as i128,
                -24 * (PRICE_MAX as i128) <= tw <= 24 * (PRICE_MAX as i128),
        ;
    }
    let above_low = pw * lden * nw > lw * tw;
    let below_high = pw * hden * nw < hw * tw;
    above_low && below_high
}

/// The entries of the series whose price lies strictly between the
/// normalized low and high thresholds times the daily average. A threshold
/// above 1.0 is read as a percentage of the average, one at or below 1.0 as
/// a fraction of it; an empty series has an empty band.
pub fn rel_thresh(prices: &PriceSeries, low_thresh: i64, high_thresh: i64) -> (r: Vec<HourPrice>)
    ensures
        r@ == rel_thresh_spec(prices@, low_thresh, high_thresh),
{
    proof {
        use_type_invariant(prices);
        lemma_series_len(prices@);
        lemma_sum_bound(prices@, PRICE_MAX as int);
    }
    let avg = match average(prices) {
        Ok(f) => f,
        Err(_) => {
            return Vec::new();
        },
    };
    let entries = prices.entries();
    let n = entries.len();
    let ghost total = sum_prices(prices@);
    let ghost count = prices@.len() as int;
    let mut out: Vec<HourPrice> = Vec::new();
    let mut i: usize = 0;
    while i < n
        invariant
            n == prices@.len(),
            i <= n,
            entries@ == prices@,
            series_wf(prices@),
            avg.num == total,
            avg.den == count,
            total == sum_prices(prices@),
            count == prices@.len() as int,
            -24 * PRICE_MAX <= total <= 24 * PRICE_MAX,
            0 <= count <= 24,
            out@ == band_seq(prices@.take(i as int), low_thresh, high_thresh, total, count),
        decreases n - i,
    {
        let e = entries[i];
        proof {
            assert(prices@.take(i + 1).drop_last() =~= prices@.take(i as int));
            assert(prices@.take(i + 1).last() == prices@[i as int]);
        }
        if band_check(e.price, low_thresh, high_thresh, avg.num, avg.den) {
            out.push(e);
        }
        i += 1;
    }
    proof {
        assert(prices@.take(n as int) =~= prices@);
    }
    out
}

/// Whether hour `now`'s price lies strictly inside the normalized threshold
/// band; an absent hour is simply not in the band.
pub fn within_thresh(now: usize, low_thresh: i64, high_thresh: i64, prices: &PriceSeries) -> (r:
    bool)
    ensures
        r == has_hour(rel_thresh_spec(prices@, low_thresh, high_thresh), now),
{
    let band = rel_thresh(prices, low_thresh, high_thresh);
    contains_hour(&band, now)
}

proof fn lemma_band_seq_congruent(
    s: Seq<HourPrice>,
    l1: i64,
    h1: i64,
    l2: i64,
    h2: i64,
    total: int,
    n: int,
)
    requires
        forall|p: i64| in_band(p, l1, h1, total, n) == in_band(p, l2, h2, total, n),
    ensures
        band_seq(s, l1, h1, total, n) == band_seq(s, l2, h2, total, n),
    decreases s.len(),
{
    if s.len() == 0 {
    } else {
        lemma_band_seq_congruent(s.drop_last(), l1, h1, l2, h2, total, n);
    }
}

/// Law: a threshold given as a percentage and the same threshold given as a
/// fraction of the average cut the same band, for every series. This holds
/// for fractions strictly between 0.01 and 1.0: above 1.0 the fraction form
/// is itself read as a percentage, and at or below 0.01 the percentage form
/// is read as a fraction, so there the two forms name different bands.
pub proof fn lemma_threshold_forms_agree(
    s: Seq<HourPrice>,
    low_pct: i64,
    high_pct: i64,
    low_frac: i64,
    high_frac: i64,
)
    requires
        low_pct == 100 * low_frac,
        high_pct == 100 * high_frac,
        10 < low_frac <= 1000,
        10 < high_frac <= 1000,
    ensures
        rel_thresh_spec(s, low_pct, high_pct) == rel_thresh_spec(s, low_frac, high_frac),
{
    let total = sum_prices(s);
    let n = s.len() as int;
    assert forall|p: i64| in_band(p, low_pct, high_pct, total, n) == in_band(
        p,
        low_frac,
        high_frac,
        total,
        n,
    ) by {
        assert(norm_den(low_pct) == 100_000);
        assert(norm_den(low_frac) == 1000);
        assert(norm_den(high_pct) == 100_000);
        assert(norm_den(high_frac) == 1000);
        assert((p * 100_000 * n > 100 * low_frac * total) == (p * 1000 * n > low_frac
            * total)) by (nonlinear_arith);
        assert((p * 100_000 * n < 100 * high_frac * total) == (p * 1000 * n < high_frac
            * total)) by (nonlinear_arith);
    }
    lemma_band_seq_congruent(s, low_pct, high_pct, low_frac, high_frac, total, n);
}

} // verus!
