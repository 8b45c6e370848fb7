use vstd::prelude::*;
use vstd::string::StringExecFns;

use crate::dates::{date_chars, date_tag, date_valid, CivilDate};

verus! {

/// The text of the read query the accessor sends for one day: a select of
/// `(price, hour)` from the `price_info` measurement, filtered to the
/// date's tag.
pub fn price_query(date: CivilDate) -> (r: String)
    requires
        date_valid(date),
    ensures
        r@ == "SELECT price, hour FROM price_info WHERE date = '"@ + date_chars(date) + "'"@,
{
    let mut s = String::from_str("SELECT price, hour FROM price_info WHERE date = '");
    let tag = date_tag(date);
    s.append(tag.as_str());
    s.append("'");
    s
}

} // verus!
