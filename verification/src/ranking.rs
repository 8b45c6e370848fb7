use vstd::prelude::*;
use vstd::relations::{sorted_by, total_ordering};
use vstd::seq_lib::lemma_sorted_unique;

use crate::errors::RefineError;
use crate::series::{has_hour, lemma_series_len, series_wf, HourPrice, PriceSeries};

verus! {

broadcast use vstd::seq_lib::group_to_multiset_ensures;

/// Whether `hp` lies in the inclusive hour window `[start, stop]`.
pub open spec fn in_win(hp: HourPrice, start: usize, stop: usize) -> bool {
    start <= hp.hour && hp.hour <= stop
}

/// The subsequence of `s` whose hours lie in the inclusive window
/// `[start, stop]`, in the order of `s`.
pub open spec fn window_seq(s: Seq<HourPrice>, start: usize, stop: usize) -> Seq<HourPrice>
    decreases s.len(),
{
    if s.len() == 0 {
        Seq::empty()
    } else if in_win(s.last(), start, stop) {
        window_seq(s.drop_last(), start, stop).push(s.last())
    } else {
        window_seq(s.drop_last(), start, stop)
    }
}

/// Whether, while `x` is being inserted, the already placed entry `y` keeps
/// its place in front of `x`. Entries of equal price keep the earlier one in
/// front, which makes the sort stable.
pub open spec fn keeps_place(y: HourPrice, x: HourPrice, asc: bool) -> bool {
    if asc {
        y.price <= x.price
    } else {
        y.price >= x.price
    }
}

/// Inserts `x` behind every leading entry of `s` that keeps its place in
/// front of it.
pub open spec fn insert_sorted(s: Seq<HourPrice>, x: HourPrice, asc: bool) -> Seq<HourPrice>
    decreases s.len(),
{
    if s.len() == 0 {
        seq![x]
    } else if keeps_place(s.first(), x, asc) {
        seq![s.first()] + insert_sorted(s.drop_first(), x, asc)
    } else {
        seq![x] + s
    }
}

/// The stable sort of `s` by price, ascending when `asc` and descending
/// otherwise: entries are inserted one by one in the order of the input, so
/// entries of equal price keep their relative order.
pub open spec fn sort_by_price_spec(s: Seq<HourPrice>, asc: bool) -> Seq<HourPrice>
    decreases s.len(),
{
    if s.len() == 0 {
        Seq::empty()
    } else {
        insert_sorted(sort_by_price_spec(s.drop_last(), asc), s.last(), asc)
    }
}

/// The first `count` entries of `s`, or all of `s` when it is shorter.
pub open spec fn take_first(s: Seq<HourPrice>, count: int) -> Seq<HourPrice> {
    if count >= s.len() {
        s
    } else {
        s.take(count)
    }
}

/// What `highest` returns: the `count` priciest hours of the inclusive
/// window, ordered by falling price, entries of equal price in series order.
pub open spec fn rank_top(s: Seq<HourPrice>, count: int, start: usize, stop: usize) -> Seq<
    HourPrice,
> {
    take_first(sort_by_price_spec(window_seq(s, start, stop), false), count)
}

/// What `lowest` returns: the `count` cheapest hours of the inclusive
/// window, ordered by rising price, entries of equal price in series order.
pub open spec fn rank_bottom(s: Seq<HourPrice>, count: int, start: usize, stop: usize) -> Seq<
    HourPrice,
> {
    take_first(sort_by_price_spec(window_seq(s, start, stop), true), count)
}

/// The prices of the entries, in order.
pub open spec fn prices_of(s: Seq<HourPrice>) -> Seq<i64> {
    s.map_values(|hp: HourPrice| hp.price)
}

/// The price order a sort direction leaves behind.
pub open spec fn price_rel(asc: bool) -> spec_fn(i64, i64) -> bool {
    if asc {
        |a: i64, b: i64| a <= b
    } else {
        |a: i64, b: i64| a >= b
    }
}

proof fn lemma_insert_sorted_props(s: Seq<HourPrice>, x: HourPrice, asc: bool)
    requires
        sorted_by(prices_of(s), price_rel(asc)),
    ensures
        insert_sorted(s, x, asc).len() == s.len() + 1,
        prices_of(insert_sorted(s, x, asc)).to_multiset() == prices_of(s).to_multiset().insert(
            x.price,
        ),
        sorted_by(prices_of(insert_sorted(s, x, asc)), price_rel(asc)),
    decreases s.len(),
{
    let rel = price_rel(asc);
    let r = insert_sorted(s, x, asc);
    if s.len() == 0 {
        assert(prices_of(r) =~= seq![x.price]);
        assert(prices_of(s) =~= Seq::<i64>::empty());
        assert(prices_of(r).to_multiset() =~= prices_of(s).to_multiset().insert(x.price));
    } else if keeps_place(s.first(), x, asc) {
        let tail = s.drop_first();
        assert(prices_of(tail) =~= prices_of(s).drop_first());
        assert(sorted_by(prices_of(tail), rel)) by {
            assert forall|i: int, j: int| 0 <= i < j < prices_of(tail).len() implies rel(
                prices_of(tail)[i],
                prices_of(tail)[j],
            ) by {
                assert(rel(prices_of(s)[i + 1], prices_of(s)[j + 1]));
            }
        }
        lemma_insert_sorted_props(tail, x, asc);
        let rt = insert_sorted(tail, x, asc);
        assert(r =~= seq![s.first()] + rt);
        assert(prices_of(r) =~= seq![s.first().price] + prices_of(rt));
        // multiset bookkeeping
        vstd::seq_lib::lemma_multiset_commutative(seq![s.first().price], prices_of(rt));
        vstd::seq_lib::lemma_multiset_commutative(seq![s.first().price], prices_of(tail));
        assert(prices_of(s) =~= seq![s.first().price] + prices_of(tail));
        assert(prices_of(r).to_multiset() =~= prices_of(s).to_multiset().insert(x.price));
        // sortedness: the head is in front of everything that was or was
        // inserted behind it
        assert forall|i: int, j: int| 0 <= i < j < prices_of(r).len() implies rel(
            prices_of(r)[i],
            prices_of(r)[j],
        ) by {
            if i == 0 {
                let z = prices_of(rt)[j - 1];
                assert(prices_of(rt).to_multiset().contains(z));
                if z == x.price {
                    assert(rel(s.first().price, x.price));
                } else {
                    assert(prices_of(tail).to_multiset().contains(z));
                    assert(prices_of(tail).contains(z));
                    let k = choose|k: int| 0 <= k < prices_of(tail).len() && prices_of(tail)[k]
                        == z;
                    assert(rel(prices_of(s)[0], prices_of(s)[k + 1]));
                }
            } else {
                assert(rel(prices_of(rt)[i - 1], prices_of(rt)[j - 1]));
            }
        }
    } else {
        assert(r =~= seq![x] + s);
        assert(prices_of(r) =~= seq![x.price] + prices_of(s));
        vstd::seq_lib::lemma_multiset_commutative(seq![x.price], prices_of(s));
        assert(prices_of(r).to_multiset() =~= prices_of(s).to_multiset().insert(x.price));
        // x goes in front: it is in front of the old head, and the old order
        // carries it in front of the rest
        assert forall|i: int, j: int| 0 <= i < j < prices_of(r).len() implies rel(
            prices_of(r)[i],
            prices_of(r)[j],
        ) by {
            if i == 0 {
                if asc {
                    assert(x.price < s.first().price);
                } else {
                    assert(x.price > s.first().price);
                }
                if j > 1 {
                    assert(rel(prices_of(s)[0], prices_of(s)[j - 1]));
                }
            } else {
                assert(rel(prices_of(s)[i - 1], prices_of(s)[j - 1]));
            }
        }
    }
}

proof fn lemma_sort_props(s: Seq<HourPrice>, asc: bool)
    ensures
        sort_by_price_spec(s, asc).len() == s.len(),
        prices_of(sort_by_price_spec(s, asc)).to_multiset() == prices_of(s).to_multiset(),
        sorted_by(prices_of(sort_by_price_spec(s, asc)), price_rel(asc)),
    decreases s.len(),
{
    if s.len() == 0 {
        assert(prices_of(Seq::<HourPrice>::empty()) =~= Seq::<i64>::empty());
        assert(prices_of(s) =~= Seq::<i64>::empty());
    } else {
        let butlast = s.drop_last();
        lemma_sort_props(butlast, asc);
        lemma_insert_sorted_props(sort_by_price_spec(butlast, asc), s.last(), asc);
        assert(prices_of(s) =~= prices_of(butlast).push(s.last().price));
        assert(prices_of(s).to_multiset() == prices_of(butlast).to_multiset().insert(
            s.last().price,
        )) by {
            assert(prices_of(butlast).push(s.last().price).to_multiset() =~= prices_of(
                butlast,
            ).to_multiset().insert(s.last().price));
        }
    }
}

/// The head of a sorted nonempty sequence bounds every price of the
/// unsorted one: from below when ascending, from above when descending.
proof fn lemma_sorted_head_bounds_all(s: Seq<HourPrice>, asc: bool)
    requires
        s.len() > 0,
    ensures
        forall|i: int|
            0 <= i < s.len() ==> price_rel(asc)(
                sort_by_price_spec(s, asc)[0].price,
                (#[trigger] s[i]).price,
            ),
{
    lemma_sort_props(s, asc);
    let srt = sort_by_price_spec(s, asc);
    assert forall|i: int| 0 <= i < s.len() implies price_rel(asc)(
        srt[0].price,
        (#[trigger] s[i]).price,
    ) by {
        assert(prices_of(s)[i] == s[i].price);
        assert(prices_of(s).to_multiset().contains(s[i].price));
        assert(prices_of(srt).to_multiset().contains(s[i].price));
        assert(prices_of(srt).contains(s[i].price));
        let k = choose|k: int| 0 <= k < prices_of(srt).len() && prices_of(srt)[k] == s[i].price;
        if k > 0 {
            assert(price_rel(asc)(prices_of(srt)[0], prices_of(srt)[k]));
        }
    }
}

/// A full-day window keeps a well-formed series whole: every hour is below
/// 24.
proof fn lemma_window_full(s: Seq<HourPrice>)
    requires
        forall|i: int| 0 <= i < s.len() ==> (#[trigger] s[i]).hour < 24,
    ensures
        window_seq(s, 0, 23) == s,
    decreases s.len(),
{
    if s.len() == 0 {
        assert(window_seq(s, 0, 23) =~= s);
    } else {
        lemma_window_full(s.drop_last());
        assert(window_seq(s, 0, 23) =~= s);
    }
}

fn filter_window(entries: &Vec<HourPrice>, start: usize, stop: usize) -> (r: Vec<HourPrice>)
    ensures
        r@ == window_seq(entries@, start, stop),
{
    let n = entries.len();
    let mut out: Vec<HourPrice> = Vec::new();
    let mut i: usize = 0;
    while i < n
        invariant
            n == entries@.len(),
            i <= n,
            out@ == window_seq(entries@.take(i as int), start, stop),
        decreases n - i,
    {
        let e = entries[i];
        proof {
            assert(entries@.take(i + 1).drop_last() =~= entries@.take(i as int));
            assert(entries@.take(i + 1).last() == entries@[i as int]);
        }
        if start <= e.hour && e.hour <= stop {
            out.push(e);
        }
        i += 1;
    }
    proof {
        assert(entries@.take(n as int) =~= entries@);
    }
    out
}

fn insertion_point(out: &Vec<HourPrice>, x: HourPrice, asc: bool) -> (j: usize)
    ensures
        j <= out@.len(),
        forall|k: int| 0 <= k < j ==> keeps_place(#[trigger] out@[k], x, asc),
        j < out@.len() ==> !keeps_place(out@[j as int], x, asc),
{
    let n = out.len();
    let mut j: usize = 0;
    while j < n
        invariant
            n == out@.len(),
            j <= n,
            forall|k: int| 0 <= k < j ==> keeps_place(#[trigger] out@[k], x, asc),
        decreases n - j,
    {
        let keep = if asc {
            out[j].price <= x.price
        } else {
            out[j].price >= x.price
        };
        if !keep {
            return j;
        }
        j += 1;
    }
    j
}

proof fn lemma_insert_sorted_split(s: Seq<HourPrice>, x: HourPrice, j: int, asc: bool)
    requires
        0 <= j <= s.len(),
        forall|k: int| 0 <= k < j ==> keeps_place(#[trigger] s[k], x, asc),
        j < s.len() ==> !keeps_place(s[j], x, asc),
    ensures
        insert_sorted(s, x, asc) == s.take(j) + seq![x] + s.skip(j),
    decreases j,
{
    if j == 0 {
        assert(insert_sorted(s, x, asc) =~= s.take(0) + seq![x] + s.skip(0));
    } else {
        let tail = s.drop_first();
        assert(keeps_place(s.first(), x, asc));
        assert forall|k: int| 0 <= k < j - 1 implies keeps_place(#[trigger] tail[k], x, asc) by {
            assert(tail[k] == s[k + 1]);
        }
        assert(j - 1 < tail.len() ==> !keeps_place(tail[j - 1], x, asc));
        lemma_insert_sorted_split(tail, x, j - 1, asc);
        assert(insert_sorted(s, x, asc) =~= s.take(j) + seq![x] + s.skip(j));
    }
}

fn sort_prices(v: Vec<HourPrice>, asc: bool) -> (r: Vec<HourPrice>)
    ensures
        r@ == sort_by_price_spec(v@, asc),
{
    let n = v.len();
    let mut out: Vec<HourPrice> = Vec::new();
    let mut i: usize = 0;
    while i < n
        invariant
            n == v@.len(),
            i <= n,
            out@ == sort_by_price_spec(v@.take(i as int), asc),
        decreases n - i,
    {
        let x = v[i];
        let j = insertion_point(&out, x, asc);
        proof {
            lemma_insert_sorted_split(out@, x, j as int, asc);
            assert(v@.take(i + 1).drop_last() =~= v@.take(i as int));
            assert(v@.take(i + 1).last() == v@[i as int]);
        }
        out.insert(j, x);
        proof {
            assert(out@ =~= sort_by_price_spec(v@.take(i as int), asc).take(j as int) + seq![x]
                + sort_by_price_spec(v@.take(i as int), asc).skip(j as int));
        }
        i += 1;
    }
    proof {
        assert(v@.take(n as int) =~= v@);
    }
    out
}

fn take_count(mut v: Vec<HourPrice>, count: usize) -> (r: Vec<HourPrice>)
    ensures
        r@ == take_first(v@, count as int),
{
    proof {
        if count as int <= v@.len() {
            assert(v@.subrange(0, count as int) =~= v@.take(count as int));
        }
    }
    v.truncate(count);
    v
}

/// The `count` priciest hours whose hour lies in the inclusive window
/// `[start, stop]`, ordered by falling price; entries of equal price stay in
/// series order.
pub fn highest(prices: &PriceSeries, count: usize, start: usize, stop: usize) -> (r: Vec<
    HourPrice,
>)
    requires
        start <= stop,
    ensures
        r@ == rank_top(prices@, count as int, start, stop),
{
    let w = filter_window(prices.entries(), start, stop);
    let sorted = sort_prices(w, false);
    take_count(sorted, count)
}

/// The `count` cheapest hours whose hour lies in the inclusive window
/// `[start, stop]`, ordered by rising price; entries of equal price stay in
/// series order.
pub fn lowest(prices: &PriceSeries, count: usize, start: usize, stop: usize) -> (r: Vec<
    HourPrice,
>)
    requires
        start <= stop,
    ensures
        r@ == rank_bottom(prices@, count as int, start, stop),
{
    let w = filter_window(prices.entries(), start, stop);
    let sorted = sort_prices(w, true);
    take_count(sorted, count)
}

pub(crate) fn contains_hour(v: &Vec<HourPrice>, h: usize) -> (r: bool)
    ensures
        r == has_hour(v@, h),
{
    let n = v.len();
    let mut i: usize = 0;
    while i < n
        invariant
            n == v@.len(),
            i <= n,
            forall|k: int| 0 <= k < i ==> (#[trigger] v@[k]).hour != h,
        decreases n - i,
    {
        if v[i].hour == h {
            return true;
        }
        i += 1;
    }
    false
}

/// The priciest hour of the whole day; an empty series has none.
pub fn max(prices: &PriceSeries) -> (r: Result<HourPrice, RefineError>)
    ensures
        r is Ok <==> prices@.len() > 0,
        r matches Ok(hp) ==> hp == rank_top(prices@, 1, 0, 23)[0],
        r matches Ok(hp) ==> forall|i: int|
            0 <= i < prices@.len() ==> (#[trigger] prices@[i]).price <= hp.price,
        r is Err ==> r == Err::<HourPrice, RefineError>(RefineError::Lookup),
{
    proof {
        use_type_invariant(prices);
        lemma_window_full(prices@);
        lemma_sort_props(window_seq(prices@, 0, 23), false);
        if prices@.len() > 0 {
            lemma_sorted_head_bounds_all(prices@, false);
        }
    }
    let top = highest(prices, 1, 0, 23);
    if top.len() == 0 {
        Err(RefineError::Lookup)
    } else {
        Ok(top[0])
    }
}

/// The cheapest hour of the whole day; an empty series has none.
pub fn min(prices: &PriceSeries) -> (r: Result<HourPrice, RefineError>)
    ensures
        r is Ok <==> prices@.len() > 0,
        r matches Ok(hp) ==> hp == rank_bottom(prices@, 1, 0, 23)[0],
        r matches Ok(hp) ==> forall|i: int|
            0 <= i < prices@.len() ==> (#[trigger] prices@[i]).price >= hp.price,
        r is Err ==> r == Err::<HourPrice, RefineError>(RefineError::Lookup),
{
    proof {
        use_type_invariant(prices);
        lemma_window_full(prices@);
        lemma_sort_props(window_seq(prices@, 0, 23), true);
        if prices@.len() > 0 {
            lemma_sorted_head_bounds_all(prices@, true);
        }
    }
    let bottom = lowest(prices, 1, 0, 23);
    if bottom.len() == 0 {
        Err(RefineError::Lookup)
    } else {
        Ok(bottom[0])
    }
}

/// Whether hour `now` ranks among the 3 priciest hours of the inclusive
/// window `[start, stop]`.
pub fn in_top(now: usize, start: usize, stop: usize, prices: &PriceSeries) -> (r: bool)
    requires
        start <= stop,
    ensures
        r == has_hour(rank_top(prices@, 3, start, stop), now),
{
    let top = highest(prices, 3, start, stop);
    contains_hour(&top, now)
}

/// Whether hour `now` sits in the early-day shoulder band: among the 8
/// priciest hours of hours 0 to 8 but not among the 2 priciest.
pub fn in_6_l_8(now: usize, prices: &PriceSeries) -> (r: bool)
    ensures
        r == (!has_hour(rank_top(prices@, 2, 0, 8), now) && has_hour(
            rank_top(prices@, 8, 0, 8),
            now,
        )),
{
    let top2 = highest(prices, 2, 0, 8);
    let top8 = highest(prices, 8, 0, 8);
    !contains_hour(&top2, now) && contains_hour(&top8, now)
}

/// Whether hour `now` ranks among the 8 cheapest hours of the whole day.
pub fn in_8_low(now: usize, prices: &PriceSeries) -> (r: bool)
    ensures
        r == has_hour(rank_bottom(prices@, 8, 0, 23), now),
{
    let bottom = lowest(prices, 8, 0, 23);
    contains_hour(&bottom, now)
}

/// Law: the hour window is inclusive on both ends. An hour appears in the
/// windowed series exactly when it appears in the series and satisfies
/// `start <= hour <= stop`.
pub proof fn lemma_window_inclusive(s: Seq<HourPrice>, start: usize, stop: usize, h: usize)
    ensures
        has_hour(window_seq(s, start, stop), h) <==> (has_hour(s, h) && start <= h <= stop),
    decreases s.len(),
{
    let w = window_seq(s, start, stop);
    if s.len() == 0 {
    } else {
        let butlast = s.drop_last();
        let wb = window_seq(butlast, start, stop);
        lemma_window_inclusive(butlast, start, stop, h);
        if has_hour(wb, h) {
            let i = choose|i: int| 0 <= i < wb.len() && wb[i].hour == h;
            if in_win(s.last(), start, stop) {
                assert(w[i].hour == h);
            }
        }
        if in_win(s.last(), start, stop) && s.last().hour == h {
            assert(w[w.len() - 1].hour == h);
        }
        if has_hour(w, h) {
            let i = choose|i: int| 0 <= i < w.len() && w[i].hour == h;
            if in_win(s.last(), start, stop) {
                if i < w.len() - 1 {
                    assert(wb[i].hour == h);
                } else {
                    assert(s.last().hour == h);
                    assert(s[s.len() - 1].hour == h);
                }
            } else {
                assert(wb[i].hour == h);
            }
        }
        if has_hour(butlast, h) {
            let i = choose|i: int| 0 <= i < butlast.len() && butlast[i].hour == h;
            assert(s[i].hour == h);
        }
        if has_hour(s, h) && start <= h <= stop {
            let i = choose|i: int| 0 <= i < s.len() && s[i].hour == h;
            if i < s.len() - 1 {
                assert(butlast[i].hour == h);
            } else {
                assert(s.last().hour == h);
            }
        }
    }
}

/// Law: a ranking lists its entries sorted by price, falling for the top
/// ranking and rising for the bottom one.
pub proof fn lemma_rank_sorted(s: Seq<HourPrice>, count: int, start: usize, stop: usize)
    requires
        count >= 0,
    ensures
        sorted_by(prices_of(rank_top(s, count, start, stop)), price_rel(false)),
        sorted_by(prices_of(rank_bottom(s, count, start, stop)), price_rel(true)),
{
    let w = window_seq(s, start, stop);
    lemma_sort_props(w, false);
    lemma_sort_props(w, true);
    let top = rank_top(s, count, start, stop);
    let bottom = rank_bottom(s, count, start, stop);
    assert(sorted_by(prices_of(sort_by_price_spec(w, false)), price_rel(false)));
    assert(sorted_by(prices_of(sort_by_price_spec(w, true)), price_rel(true)));
    assert forall|i: int, j: int| 0 <= i < j < prices_of(top).len() implies price_rel(false)(
        prices_of(top)[i],
        prices_of(top)[j],
    ) by {
        let srt = sort_by_price_spec(w, false);
        assert(top.len() <= srt.len());
        assert(top[i] == srt[i]);
        assert(top[j] == srt[j]);
        assert(prices_of(top)[i] == top[i].price);
        assert(prices_of(top)[j] == top[j].price);
        assert(prices_of(srt)[i] == srt[i].price);
        assert(prices_of(srt)[j] == srt[j].price);
        assert(price_rel(false)(prices_of(srt)[i], prices_of(srt)[j]));
    }
    assert forall|i: int, j: int| 0 <= i < j < prices_of(bottom).len() implies price_rel(true)(
        prices_of(bottom)[i],
        prices_of(bottom)[j],
    ) by {
        let srt = sort_by_price_spec(w, true);
        assert(bottom.len() <= srt.len());
        assert(bottom[i] == srt[i]);
        assert(bottom[j] == srt[j]);
        assert(prices_of(bottom)[i] == bottom[i].price);
        assert(prices_of(bottom)[j] == bottom[j].price);
        assert(prices_of(srt)[i] == srt[i].price);
        assert(prices_of(srt)[j] == srt[j].price);
        assert(price_rel(true)(prices_of(srt)[i], prices_of(srt)[j]));
    }
}

/// Law: over the full day, ranking all hours by falling price and ranking
/// them all by rising price give reverse orderings of each other on price.
pub proof fn lemma_rank_reverse(s: Seq<HourPrice>)
    requires
        series_wf(s),
    ensures
        prices_of(rank_top(s, 24, 0, 23)) == prices_of(rank_bottom(s, 24, 0, 23)).reverse(),
{
    lemma_series_len(s);
    lemma_window_full(s);
    let w = window_seq(s, 0, 23);
    lemma_sort_props(w, false);
    lemma_sort_props(w, true);
    let d = prices_of(sort_by_price_spec(w, false));
    let a = prices_of(sort_by_price_spec(w, true));
    assert(rank_top(s, 24, 0, 23) == sort_by_price_spec(w, false));
    assert(rank_bottom(s, 24, 0, 23) == sort_by_price_spec(w, true));
    a.lemma_reverse_to_multiset();
    assert(sorted_by(a.reverse(), price_rel(false))) by {
        assert forall|i: int, j: int| 0 <= i < j < a.reverse().len() implies price_rel(false)(
            a.reverse()[i],
            a.reverse()[j],
        ) by {
            assert(a.reverse()[i] == a[a.len() - 1 - i]);
            assert(a.reverse()[j] == a[a.len() - 1 - j]);
            assert(price_rel(true)(a[a.len() - 1 - j], a[a.len() - 1 - i]));
        }
    }
    assert(total_ordering(price_rel(false))) by {
        let rel = price_rel(false);
        assert forall|x: i64| #[trigger] rel(x, x) by {}
        assert forall|x: i64, y: i64| #[trigger] rel(x, y) && #[trigger] rel(y, x) implies x
            == y by {}
        assert forall|x: i64, y: i64, z: i64| #[trigger] rel(x, y) && #[trigger] rel(y, z)
            implies rel(x, z) by {}
        assert forall|x: i64, y: i64| #[trigger] rel(x, y) || #[trigger] rel(y, x) by {}
    }
    assert(d.to_multiset() == a.reverse().to_multiset()) by {
        assert(d.to_multiset() =~= a.reverse().to_multiset());
    }
    lemma_sorted_unique(d, a.reverse(), price_rel(false));
    assert(d =~= a.reverse());
}

} // verus!
