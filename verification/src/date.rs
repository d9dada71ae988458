//! The record date: assigned from the machine's clock when a record is
//! created, and treated as free text everywhere else.

use vstd::prelude::*;

verus! {

/// Relies on `chrono::Local::now` and `DateTime::format`: the current
/// local date, rendered as `YYYY-MM-DD`. The result depends on the clock
/// and the machine's time zone, so nothing is promised of its content;
/// every record treats its date as free text.
#[verifier::external_body]
pub fn today_date() -> String {
    chrono::Local::now().format("%Y-%m-%d").to_string()
}

} // verus!
