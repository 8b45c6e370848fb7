use tibber_refiner::{
    current_date_oslo, date_tag, is_valid_date, next_day, price_query, refine, resolve_day,
    CivilDate, Day, HourPrice, PriceSeries, RefineError,
};

fn falling_day() -> PriceSeries {
    let entries: Vec<HourPrice> = (0..24)
        .map(|h| HourPrice { hour: h, price: 48_000 - 2_000 * h as i64 })
        .collect();
    PriceSeries::new(entries).expect("series rows should be well-formed")
}

fn date(year: i32, month: u8, day: u8) -> CivilDate {
    CivilDate { year, month, day }
}

#[test]
fn refine_classifies_a_falling_day() {
    let s = falling_day();
    let rec = refine(6, &s, date(2024, 3, 15)).unwrap();
    assert_eq!(rec.hour, 6);
    assert_eq!(rec.date, date(2024, 3, 15));
    // strictly falling curve: hour 0 is the priciest, hour 23 the cheapest
    assert_eq!(rec.pris_max, 0);
    assert_eq!(rec.pris_min, 23);
    // sum of 48.0, 46.0, ..., 2.0 is 600.0 over 24 hours
    assert_eq!(rec.pris_snitt_24.num, 600_000);
    assert_eq!(rec.pris_snitt_24.den, 24);
    assert_eq!(rec.pris_time, 36_000);
    assert_eq!(rec.pris_forhold_24.num, 36_000 * 24);
    assert_eq!(rec.pris_forhold_24.den, 600_000);
    // hour 6 is below the top 2 but inside the top 8 of hours 0..=8
    assert!(rec.in_6_l_8);
    // quarter-day peaks: the curve falls, so the top 3 of each window are
    // its first three hours
    assert!(!rec.in_0_6_high);
    assert!(rec.in_6_12_high);
    assert!(!rec.in_12_18_high);
    assert!(!rec.in_18_24_high);
    // price 36.0 against average 25.0 is 144%
    assert!(!rec.t90_115);
    assert!(!rec.t60_90);
    assert!(!rec.t0_60);
    assert!(!rec.t115_140);
    assert!(rec.t140_999);
    assert!(!rec.i8h_low);
}

#[test]
fn refine_flags_the_cheap_tail() {
    let s = falling_day();
    let rec = refine(20, &s, date(2024, 3, 15)).unwrap();
    // hour 20 costs 8.0 against average 25.0: 32% of the average
    assert!(rec.t0_60);
    assert!(!rec.t60_90);
    assert!(rec.i8h_low);
    assert!(!rec.in_6_l_8);
    // the curve falls, so hours 18, 19 and 20 top the evening window
    assert!(rec.in_18_24_high);
    assert!(!rec.in_12_18_high);
}

#[test]
fn refine_is_deterministic() {
    let s = falling_day();
    let first = refine(9, &s, date(2025, 1, 1)).unwrap();
    let second = refine(9, &s, date(2025, 1, 1)).unwrap();
    assert_eq!(first, second);
}

#[test]
fn refine_rejects_an_absent_hour() {
    let entries = vec![HourPrice { hour: 1, price: 2_000 }];
    let s = PriceSeries::new(entries).unwrap();
    assert_eq!(refine(5, &s, date(2024, 3, 15)), Err(RefineError::Lookup));
}

#[test]
fn refine_rejects_a_zero_average() {
    let entries = vec![
        HourPrice { hour: 0, price: 4_000 },
        HourPrice { hour: 1, price: -4_000 },
    ];
    let s = PriceSeries::new(entries).unwrap();
    assert_eq!(refine(0, &s, date(2024, 3, 15)), Err(RefineError::Normalization));
}

#[test]
fn next_day_steps_through_the_calendar() {
    assert_eq!(next_day(date(2024, 3, 15)), Ok(date(2024, 3, 16)));
    assert_eq!(next_day(date(2024, 2, 28)), Ok(date(2024, 2, 29)));
    assert_eq!(next_day(date(2023, 2, 28)), Ok(date(2023, 3, 1)));
    assert_eq!(next_day(date(2100, 2, 28)), Ok(date(2100, 3, 1)));
    assert_eq!(next_day(date(2000, 2, 28)), Ok(date(2000, 2, 29)));
    assert_eq!(next_day(date(2024, 4, 30)), Ok(date(2024, 5, 1)));
    assert_eq!(next_day(date(2023, 12, 31)), Ok(date(2024, 1, 1)));
}

#[test]
fn next_day_fails_past_the_calendar_range() {
    assert_eq!(next_day(date(9999, 12, 31)), Err(RefineError::Normalization));
}

#[test]
fn resolve_day_picks_today_or_tomorrow() {
    let today = date(2024, 12, 31);
    assert_eq!(resolve_day(Day::Today, today), Ok(today));
    assert_eq!(resolve_day(Day::Tomorrow, today), Ok(date(2025, 1, 1)));
}

#[test]
fn date_validation_knows_the_calendar() {
    assert!(is_valid_date(date(2024, 2, 29)));
    assert!(!is_valid_date(date(2023, 2, 29)));
    assert!(!is_valid_date(date(2024, 0, 1)));
    assert!(!is_valid_date(date(2024, 13, 1)));
    assert!(!is_valid_date(date(2024, 6, 31)));
    assert!(!is_valid_date(date(-1, 6, 1)));
    assert!(!is_valid_date(date(10_000, 6, 1)));
}

#[test]
fn date_tag_is_zero_padded() {
    assert_eq!(date_tag(date(2024, 3, 5)), "2024-03-05");
    assert_eq!(date_tag(date(987, 12, 31)), "0987-12-31");
}

#[test]
fn price_query_names_the_measurement_and_date() {
    assert_eq!(
        price_query(date(2024, 3, 5)),
        "SELECT price, hour FROM price_info WHERE date = '2024-03-05'"
    );
}

#[test]
fn current_date_comes_back_valid() {
    let today = current_date_oslo().expect("the clock should give a date in range");
    assert!(is_valid_date(today));
    assert!(today.year >= 2020);
}
