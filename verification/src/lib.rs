//! Exact-arithmetic analysis and classification of one day's hourly
//! electricity spot prices: windowed stable rankings, relative-threshold
//! bands around the daily average, calendar handling for the day tags, and
//! the per-hour composite record that the surrounding process writes back
//! to its store. Prices are carried as fixed-point thousandths and all
//! statistics as exact fractions, so every contract here is exact.

use vstd::prelude::*;

pub mod accessor;
pub mod dates;
pub mod errors;
pub mod ranking;
pub mod refiner;
pub mod series;
pub mod threshold;

pub use accessor::price_query;
pub use dates::{current_date_oslo, date_tag, is_valid_date, next_day, resolve_day, CivilDate, Day};
pub use errors::RefineError;
pub use ranking::{highest, in_6_l_8, in_8_low, in_top, lowest, max, min};
pub use refiner::{refine, ClassificationRecord};
pub use threshold::{rel_thresh, within_thresh};
pub use series::{average, price_now, price_ratio, Frac, HourPrice, PriceSeries, PRICE_MAX};

verus! {

} // verus!
