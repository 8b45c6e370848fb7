use tibber_refiner::{
    average, highest, in_6_l_8, in_8_low, in_top, lowest, max, min, price_now, price_ratio,
    rel_thresh, within_thresh, HourPrice, PriceSeries, RefineError, PRICE_MAX,
};

fn series(rows: &[(usize, i64)]) -> PriceSeries {
    let entries: Vec<HourPrice> = rows
        .iter()
        .map(|&(hour, price)| HourPrice { hour, price })
        .collect();
    PriceSeries::new(entries).expect("series rows should be well-formed")
}

fn hours(v: &[HourPrice]) -> Vec<usize> {
    v.iter().map(|hp| hp.hour).collect()
}

#[test]
fn average_is_sum_over_count() {
    let s = series(&[(0, 10_000), (1, 20_000)]);
    let avg = average(&s).unwrap();
    assert_eq!(avg.num, 30_000);
    assert_eq!(avg.den, 2);
}

#[test]
fn average_of_empty_series_fails() {
    let s = series(&[]);
    assert_eq!(average(&s), Err(RefineError::Lookup));
}

#[test]
fn ratio_is_price_over_average() {
    let s = series(&[(0, 10_000), (1, 20_000)]);
    let ratio = price_ratio(1, &s).unwrap();
    // 20.0 / 15.0 as the exact fraction (20 * 2) / 30
    assert_eq!(ratio.num, 40_000);
    assert_eq!(ratio.den, 30_000);
}

#[test]
fn ratio_with_zero_average_fails() {
    let s = series(&[(0, 5_000), (1, -5_000)]);
    assert_eq!(price_ratio(0, &s), Err(RefineError::Normalization));
}

#[test]
fn price_now_looks_hours_up() {
    let s = series(&[(3, 7_000), (10, 1_500)]);
    assert_eq!(price_now(10, &s), Ok(1_500));
    assert_eq!(price_now(4, &s), Err(RefineError::Lookup));
}

#[test]
fn series_rejects_duplicate_hours() {
    let rows = vec![HourPrice { hour: 4, price: 1 }, HourPrice { hour: 4, price: 2 }];
    assert!(matches!(PriceSeries::new(rows), Err(RefineError::Parse)));
}

#[test]
fn series_rejects_out_of_range_hours() {
    let rows = vec![HourPrice { hour: 24, price: 1 }];
    assert!(matches!(PriceSeries::new(rows), Err(RefineError::Parse)));
}

#[test]
fn series_rejects_oversized_prices() {
    let rows = vec![HourPrice { hour: 0, price: PRICE_MAX + 1 }];
    assert!(matches!(PriceSeries::new(rows), Err(RefineError::Parse)));
}

#[test]
fn ranking_keeps_both_window_ends() {
    // hours {5: 10, 6: 20, 7: 5}: the window 5..=6 holds hours 5 and 6,
    // the window 6..=6 holds hour 6 alone
    let s = series(&[(5, 10_000), (6, 20_000), (7, 5_000)]);
    let w56 = highest(&s, 3, 5, 6);
    assert_eq!(hours(&w56), vec![6, 5]);
    let w66 = highest(&s, 3, 6, 6);
    assert_eq!(hours(&w66), vec![6]);
}

#[test]
fn highest_orders_by_falling_price() {
    let s = series(&[(0, 1_000), (1, 9_000), (2, 5_000), (3, 7_000)]);
    let top = highest(&s, 3, 0, 23);
    assert_eq!(hours(&top), vec![1, 3, 2]);
}

#[test]
fn lowest_orders_by_rising_price() {
    let s = series(&[(0, 1_000), (1, 9_000), (2, 5_000), (3, 7_000)]);
    let bottom = lowest(&s, 3, 0, 23);
    assert_eq!(hours(&bottom), vec![0, 2, 3]);
}

#[test]
fn ranking_is_stable_on_equal_prices() {
    // equal prices keep the series' own order
    let s = series(&[(3, 2_000), (1, 2_000), (2, 2_000)]);
    let top = highest(&s, 3, 0, 23);
    assert_eq!(hours(&top), vec![3, 1, 2]);
    let bottom = lowest(&s, 3, 0, 23);
    assert_eq!(hours(&bottom), vec![3, 1, 2]);
}

#[test]
fn full_day_rankings_are_reverse_orderings() {
    let s = series(&[(0, 4_000), (1, 1_000), (2, 3_000), (3, 2_000), (4, 3_000)]);
    let top = highest(&s, 24, 0, 23);
    let bottom = lowest(&s, 24, 0, 23);
    let mut top_prices: Vec<i64> = top.iter().map(|hp| hp.price).collect();
    top_prices.reverse();
    let bottom_prices: Vec<i64> = bottom.iter().map(|hp| hp.price).collect();
    assert_eq!(top_prices, bottom_prices);
}

#[test]
fn max_and_min_find_the_extreme_hours() {
    // strictly falling curve over all 24 hours: the priciest hour is 0,
    // the cheapest is 23
    let rows: Vec<(usize, i64)> = (0..24).map(|h| (h, 48_000 - 2_000 * h as i64)).collect();
    let s = series(&rows);
    assert_eq!(max(&s).unwrap().hour, 0);
    assert_eq!(min(&s).unwrap().hour, 23);
}

#[test]
fn max_and_min_of_empty_series_fail() {
    let s = series(&[]);
    assert_eq!(max(&s), Err(RefineError::Lookup));
    assert_eq!(min(&s), Err(RefineError::Lookup));
}

#[test]
fn shoulder_band_spares_the_two_peak_hours() {
    // prices 9..2 on hours 0..7: the top 2 of hours 0..=8 are hours 0 and
    // 1, the top 8 are all of them
    let rows: Vec<(usize, i64)> = (0..8).map(|h| (h, 9_000 - 1_000 * h as i64)).collect();
    let s = series(&rows);
    assert!(!in_6_l_8(0, &s));
    assert!(!in_6_l_8(1, &s));
    for h in 2..8 {
        assert!(in_6_l_8(h, &s));
    }
}

#[test]
fn in_top_takes_three_per_window() {
    let rows: Vec<(usize, i64)> = (0..6).map(|h| (h, 1_000 * (h as i64 + 1))).collect();
    let s = series(&rows);
    // hours 0..=5 rise in price: the top 3 of the window 0..=5 are 5, 4, 3
    assert!(in_top(5, 0, 5, &s));
    assert!(in_top(4, 0, 5, &s));
    assert!(in_top(3, 0, 5, &s));
    assert!(!in_top(2, 0, 5, &s));
    assert!(!in_top(23, 0, 5, &s));
}

#[test]
fn daily_low_band_takes_eight_hours() {
    let rows: Vec<(usize, i64)> = (0..24).map(|h| (h, 1_000 * (h as i64 + 1))).collect();
    let s = series(&rows);
    for h in 0..8 {
        assert!(in_8_low(h, &s));
    }
    for h in 8..24 {
        assert!(!in_8_low(h, &s));
    }
}

#[test]
fn threshold_band_is_strict() {
    // prices 1.0 and 3.0: the average is 2.0; a bound that lands exactly
    // on a price leaves that hour out
    let s = series(&[(0, 1_000), (1, 3_000)]);
    // high = 0.5 * avg = 1.0: hour 0 sits exactly on the bound
    assert!(!within_thresh(0, 0, 500, &s));
    // high = 0.6 * avg = 1.2: now 0 < 1.0 < 1.2
    assert!(within_thresh(0, 0, 600, &s));
    // low = 140% of avg = 2.8, high = 200% of avg = 4.0: hour 1 is inside
    assert!(within_thresh(1, 140_000, 200_000, &s));
}

#[test]
fn threshold_tolerates_missing_hours() {
    let s = series(&[(0, 1_000), (1, 3_000)]);
    assert!(!within_thresh(7, 0, 999_000, &s));
}

#[test]
fn percentage_and_fraction_thresholds_agree() {
    let rows: Vec<(usize, i64)> = (0..24).map(|h| (h, 500 + 173 * h as i64)).collect();
    let s = series(&rows);
    // 20% to 90% of the average, written as percentages and as fractions
    let pct = rel_thresh(&s, 20_000, 90_000);
    let frac = rel_thresh(&s, 200, 900);
    assert_eq!(pct, frac);
    assert!(!pct.is_empty());
}

#[test]
fn fraction_above_one_is_read_as_percentage() {
    // 1.15 read as a threshold is itself above 1.0, so normalization turns
    // it into 0.0115 of the average; the percentage pair (90, 115) names a
    // different band
    let rows: Vec<(usize, i64)> = (0..24).map(|h| (h, 500 + 173 * h as i64)).collect();
    let s = series(&rows);
    let pct = rel_thresh(&s, 90_000, 115_000);
    let frac = rel_thresh(&s, 900, 1_150);
    assert!(!pct.is_empty());
    assert!(frac.is_empty());
}

#[test]
fn band_keeps_series_order() {
    let s = series(&[(2, 2_500), (0, 1_000), (1, 3_000)]);
    // average 6.5/3; the band 0% to 999% holds every positive hour, in
    // series order
    let band = rel_thresh(&s, 0, 999_000);
    assert_eq!(
        band,
        vec![
            HourPrice { hour: 2, price: 2_500 },
            HourPrice { hour: 0, price: 1_000 },
            HourPrice { hour: 1, price: 3_000 },
        ]
    );
}

#[test]
fn ranking_with_count_zero_is_empty() {
    let s = series(&[(0, 1_000), (1, 3_000)]);
    assert!(highest(&s, 0, 0, 23).is_empty());
    assert!(lowest(&s, 0, 0, 23).is_empty());
}

#[test]
fn empty_series_has_empty_band() {
    let s = series(&[]);
    assert!(rel_thresh(&s, 0, 999_000).is_empty());
}
