use vstd::prelude::*;
use vstd::set_lib::{lemma_int_range, lemma_len_subset, set_int_range};

use crate::errors::RefineError;

verus! {

/// Largest price magnitude (in thousandths of the price unit) that a series
/// may carry; it keeps every intermediate product of the exact threshold
/// arithmetic inside the machine integers.
pub const PRICE_MAX: i64 = 1_000_000_000_000;

/// One hour's spot price. `price` is a fixed-point value in thousandths of
/// the price unit, so that all statistics are exact.
#[derive(Clone, Copy, Debug, PartialEq, Eq, Structural)]
pub struct HourPrice {
    pub hour: usize,
    pub price: i64,
}

/// An exact fraction `num / den`; the statistics of a record are carried in
/// this form rather than rounded.
#[derive(Clone, Copy, Debug, PartialEq, Eq, Structural)]
pub struct Frac {
    pub num: i64,
    pub den: i64,
}

/// A well-formed day of prices: hours are unique and below 24, and every
/// price magnitude is at most `PRICE_MAX`. The series need not be sorted and
/// need not hold all 24 hours.
pub open spec fn series_wf(s: Seq<HourPrice>) -> bool {
    &&& forall|i: int, j: int|
        0 <= i < j < s.len() ==> #[trigger] s[i].hour != #[trigger] s[j].hour
    &&& forall|i: int|
        0 <= i < s.len() ==> (#[trigger] s[i]).hour < 24 && -PRICE_MAX <= s[i].price <= PRICE_MAX
}

/// Whether some entry of `s` carries the hour `h`.
pub open spec fn has_hour(s: Seq<HourPrice>, h: usize) -> bool {
    exists|i: int| 0 <= i < s.len() && #[trigger] s[i].hour == h
}

/// The index of the entry carrying hour `h`; meaningful when `has_hour`
/// holds, and unique under `series_wf`.
pub open spec fn hour_index(s: Seq<HourPrice>, h: usize) -> int {
    choose|i: int| 0 <= i < s.len() && #[trigger] s[i].hour == h
}

/// The price recorded for hour `h`; meaningful when `has_hour` holds.
pub open spec fn price_at(s: Seq<HourPrice>, h: usize) -> i64 {
    s[hour_index(s, h)].price
}

/// The sum of all prices of the series.
pub open spec fn sum_prices(s: Seq<HourPrice>) -> int
    decreases s.len(),
{
    if s.len() == 0 {
        0
    } else {
        sum_prices(s.drop_last()) + s.last().price
    }
}

/// The daily average as an exact fraction: the sum of the prices over their
/// count.
pub open spec fn average_of(s: Seq<HourPrice>) -> (int, int) {
    (sum_prices(s), s.len() as int)
}

/// The ratio of hour `h`'s price to the daily average, as an exact fraction:
/// `price / (sum / count) == (price * count) / sum`.
pub open spec fn ratio_of(s: Seq<HourPrice>, h: usize) -> (int, int) {
    (price_at(s, h) * s.len(), sum_prices(s))
}

/// A well-formed series has at most 24 entries: its hours are unique values
/// below 24.
pub proof fn lemma_series_len(s: Seq<HourPrice>)
    requires
        series_wf(s),
    ensures
        s.len() <= 24,
{
    let hs = Seq::new(s.len(), |i: int| s[i].hour as int);
    assert(hs.no_duplicates()) by {
        assert forall|i: int, j: int|
            0 <= i < hs.len() && 0 <= j < hs.len() && i != j implies hs[i] != hs[j] by {
            if i < j {
                assert(s[i].hour != s[j].hour);
            } else {
                assert(s[j].hour != s[i].hour);
            }
        }
    }
    hs.unique_seq_to_set();
    assert(hs.to_set().subset_of(set_int_range(0, 24))) by {
        assert forall|x: int| hs.to_set().contains(x) implies set_int_range(0, 24).contains(
            x,
        ) by {
            let i = choose|i: int| 0 <= i < hs.len() && hs[i] == x;
            assert(s[i].hour < 24);
        }
    }
    lemma_int_range(0, 24);
    lemma_len_subset(hs.to_set(), set_int_range(0, 24));
}

/// Every price of `s` has magnitude at most `bound`, so the sum has
/// magnitude at most `len * bound`.
pub proof fn lemma_sum_bound(s: Seq<HourPrice>, bound: int)
    requires
        forall|i: int| 0 <= i < s.len() ==> -bound <= (#[trigger] s[i]).price <= bound,
    ensures
        -(s.len() * bound) <= sum_prices(s) <= s.len() * bound,
    decreases s.len(),
{
    if s.len() == 0 {
    } else {
        lemma_sum_bound(s.drop_last(), bound);
        assert((s.len() - 1) * bound + bound == s.len() * bound) by (nonlinear_arith);
    }
}

/// Law: the daily average is the exact sum of the prices over their count,
/// and the ratio of an hour present in the series is that hour's price
/// divided by the average. Cross-multiplied: `ratio * average == price`.
pub proof fn lemma_ratio_times_average_is_price(s: Seq<HourPrice>, h: usize)
    requires
        series_wf(s),
        has_hour(s, h),
        sum_prices(s) != 0,
    ensures
        average_of(s).0 == sum_prices(s),
        average_of(s).1 == s.len(),
        ratio_of(s, h).0 * average_of(s).0 == price_at(s, h) * (ratio_of(s, h).1 * average_of(
            s,
        ).1),
{
    let p = price_at(s, h) as int;
    let n = s.len() as int;
    let total = sum_prices(s);
    assert((p * n) * total == p * (total * n)) by (nonlinear_arith);
}

/// The day's series of hourly prices, validated once on construction.
pub struct PriceSeries {
    entries: Vec<HourPrice>,
}

impl View for PriceSeries {
    type V = Seq<HourPrice>;

    closed spec fn view(&self) -> Seq<HourPrice> {
        self.entries@
    }
}

impl PriceSeries {
    #[verifier::type_invariant]
    pub(crate) open spec fn inv(self) -> bool {
        series_wf(self@)
    }

    /// Builds a series from raw `(hour, price)` rows, rejecting data whose
    /// shape breaks the series invariant: an hour repeated or out of range,
    /// or a price beyond `PRICE_MAX`.
    pub fn new(entries: Vec<HourPrice>) -> (r: Result<PriceSeries, RefineError>)
        ensures
            r is Ok <==> series_wf(entries@),
            r matches Ok(ps) ==> ps@ == entries@,
            r is Err ==> r == Err::<PriceSeries, RefineError>(RefineError::Parse),
    {
        let n = entries.len();
        let mut i: usize = 0;
        while i < n
            invariant
                n == entries@.len(),
                i <= n,
                series_wf(entries@.take(i as int)),
            decreases n - i,
        {
            let e = entries[i];
            if e.hour >= 24 || e.price > PRICE_MAX || e.price < -PRICE_MAX {
                return Err(RefineError::Parse);
            }
            let mut j: usize = 0;
            while j < i
                invariant
                    j <= i < n,
                    n == entries@.len(),
                    e == entries@[i as int],
                    forall|k: int| 0 <= k < j ==> (#[trigger] entries@[k]).hour != e.hour,
                decreases i - j,
            {
                if entries[j].hour == e.hour {
                    return Err(RefineError::Parse);
                }
                j += 1;
            }
            proof {
                assert(entries@.take(i + 1).drop_last() =~= entries@.take(i as int));
                assert(entries@.take(i + 1).last() == entries@[i as int]);
            }
            i += 1;
        }
        proof {
            assert(entries@.take(n as int) =~= entries@);
        }
        Ok(PriceSeries { entries })
    }

    /// The number of hours the series holds.
    pub fn len(&self) -> (r: usize)
        ensures
            r == self@.len(),
    {
        self.entries.len()
    }

    /// The rows of the series, in their stored order.
    pub fn entries(&self) -> (r: &Vec<HourPrice>)
        ensures
            r@ == self@,
    {
        &self.entries
    }
}

/// Looks the price for hour `now` up in the series; the hour's absence is a
/// lookup failure.
pub fn price_now(now: usize, prices: &PriceSeries) -> (r: Result<i64, RefineError>)
    ensures
        r is Ok <==> has_hour(prices@, now),
        r matches Ok(p) ==> p == price_at(prices@, now),
        r is Err ==> r == Err::<i64, RefineError>(RefineError::Lookup),
{
    proof {
        use_type_invariant(prices);
    }
    let entries = prices.entries();
    let n = entries.len();
    let mut i: usize = 0;
    while i < n
        invariant
            n == prices@.len(),
            i <= n,
            entries@ == prices@,
            series_wf(prices@),
            forall|k: int| 0 <= k < i ==> (#[trigger] prices@[k]).hour != now,
        decreases n - i,
    {
        if entries[i].hour == now {
            proof {
                assert(has_hour(prices@, now)) by {
                    assert(prices@[i as int].hour == now);
                }
                let k = hour_index(prices@, now);
                assert(0 <= k < prices@.len() && prices@[k].hour == now);
                if k != i as int {
                    assert(prices@[k].hour != prices@[i as int].hour);
                }
            }
            return Ok(entries[i].price);
        }
        i += 1;
    }
    Err(RefineError::Lookup)
}

/// The daily average price as an exact fraction `sum / count`; an empty
/// series has no average.
pub fn average(prices: &PriceSeries) -> (r: Result<Frac, RefineError>)
    ensures
        r is Ok <==> prices@.len() > 0,
        r matches Ok(f) ==> f.num == average_of(prices@).0 && f.den == average_of(prices@).1,
        r is Err ==> r == Err::<Frac, RefineError>(RefineError::Lookup),
{
    proof {
        use_type_invariant(prices);
        lemma_series_len(prices@);
    }
    let entries = prices.entries();
    let n = entries.len();
    if n == 0 {
        return Err(RefineError::Lookup);
    }
    let mut acc: i64 = 0;
    let mut i: usize = 0;
    while i < n
        invariant
            n == prices@.len(),
            n <= 24,
            i <= n,
            entries@ == prices@,
            series_wf(prices@),
            acc == sum_prices(prices@.take(i as int)),
            -(i as int) * PRICE_MAX <= acc <= (i as int) * PRICE_MAX,
        decreases n - i,
    {
        proof {
            assert(prices@.take(i + 1).drop_last() =~= prices@.take(i as int));
            assert(prices@.take(i + 1).last() == prices@[i as int]);
            lemma_sum_bound(prices@.take(i + 1), PRICE_MAX as int);
            assert((i + 1) * PRICE_MAX <= 24 * PRICE_MAX) by (nonlinear_arith)
                requires
                    i + 1 <= 24,
                    PRICE_MAX > 0,
            ;
        }
        acc = acc + entries[i].price;
        i += 1;
    }
    proof {
        assert(prices@.take(n as int) =~= prices@);
    }
    Ok(Frac { num: acc, den: n as i64 })
}

/// The ratio of hour `now`'s price to the daily average, as the exact
/// fraction `(price * count) / sum`; it exists when the hour is present and
/// the average is nonzero.
pub fn price_ratio(now: usize, prices: &PriceSeries) -> (r: Result<Frac, RefineError>)
    ensures
        r is Ok <==> has_hour(prices@, now) && sum_prices(prices@) != 0,
        r matches Ok(f) ==> f.num == ratio_of(prices@, now).0 && f.den == ratio_of(
            prices@,
            now,
        ).1,
        !has_hour(prices@, now) ==> r == Err::<Frac, RefineError>(RefineError::Lookup),
        has_hour(prices@, now) && sum_prices(prices@) == 0 ==> r == Err::<Frac, RefineError>(
            RefineError::Normalization,
        ),
{
    proof {
        use_type_invariant(prices);
        lemma_series_len(prices@);
    }
    let p = match price_now(now, prices) {
        Ok(p) => p,
        Err(e) => {
            return Err(e);
        },
    };
    let avg = match average(prices) {
        Ok(f) => f,
        Err(e) => {
            return Err(e);
        },
    };
    if avg.num == 0 {
        return Err(RefineError::Normalization);
    }
    proof {
        let k = hour_index(prices@, now);
        assert(-PRICE_MAX <= prices@[k].price <= PRICE_MAX);
        assert(-PRICE_MAX * 24 <= p * avg.den <= PRICE_MAX * 24) by (nonlinear_arith)
            requires
                -PRICE_MAX <= p <= PRICE_MAX,
                0 <= avg.den <= 24,
        ;
    }
    Ok(Frac { num: p * avg.den, den: avg.num })
}

} // verus!
