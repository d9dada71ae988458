//! The expense record and its mathematical model.

use vstd::prelude::*;

verus! {

/// Largest magnitude, in cents, that an amount may have: one under 10^18.
/// Amounts within this bound survive the store codec and keep every total
/// representable.
pub const AMOUNT_LIMIT: i64 = 999_999_999_999_999_999;

/// One expense entry. The monetary amount is kept in integer cents; the
/// three text fields are free-form, with the category compared by exact
/// string equality when grouping.
#[derive(Debug, PartialEq, Clone)]
pub struct Expense {
    pub amount: i64,
    pub desc: String,
    pub cat: String,
    pub date: String,
}

/// The mathematical model of a record: an unbounded integer amount (still
/// in cents) and the three text fields as character sequences.
pub ghost struct ExpenseData {
    pub amount: int,
    pub desc: Seq<char>,
    pub cat: Seq<char>,
    pub date: Seq<char>,
}

impl View for Expense {
    type V = ExpenseData;

    open spec fn view(&self) -> ExpenseData {
        ExpenseData {
            amount: self.amount as int,
            desc: self.desc@,
            cat: self.cat@,
            date: self.date@,
        }
    }
}

impl DeepView for Expense {
    type V = ExpenseData;

    open spec fn deep_view(&self) -> ExpenseData {
        self.view()
    }
}

/// An amount the store codec round-trips: its magnitude stays within
/// `AMOUNT_LIMIT`.
pub open spec fn wf_amount(a: int) -> bool {
    -(AMOUNT_LIMIT as int) <= a <= AMOUNT_LIMIT as int
}

/// Every amount of the sequence is within bounds.
pub open spec fn wf_amounts(s: Seq<ExpenseData>) -> bool {
    forall|i: int| 0 <= i < s.len() ==> wf_amount(#[trigger] s[i].amount)
}

/// Appends a freshly built record to the in-memory list; the caller
/// persists the list afterwards.
pub fn add_expense(expenses: &mut Vec<Expense>, amount: i64, desc: String, cat: String, date: String)
    ensures
        final(expenses).deep_view() == old(expenses).deep_view().push(
            ExpenseData { amount: amount as int, desc: desc@, cat: cat@, date: date@ },
        ),
{
    let e = Expense { amount, desc, cat, date };
    let ghost d = e.deep_view();
    expenses.push(e);
    proof {
        assert(final(expenses).deep_view() =~= old(expenses).deep_view().push(d));
    }
}

} // verus!
