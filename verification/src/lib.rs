//! A small expense-tracking library.
//!
//! Expense records hold a monetary amount in integer cents together with
//! free-text description, category and date fields. The library encodes a
//! record sequence to the on-disk store format and parses it back, and
//! computes the reports (total, per-category summary, CSV export) over an
//! in-memory record list. All of it is verified; reading and writing the
//! actual files is left to the surrounding program.

pub mod record;
pub mod amount;
pub mod codec;
pub mod reports;
pub mod date;
