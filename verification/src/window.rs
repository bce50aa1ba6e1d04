//! The state of the main window: the rows of payments, the transactions
//! that settle them, and which page is shown.

use vstd::prelude::*;
use crate::payment::Payment;
use crate::split::{all_valid, count, split_payments, split_plan, transaction_triples, SplitError};
use crate::transaction::Transaction;

verus! {

/// The page the window shows where it has room for one page only.
#[derive(PartialEq, Eq, Structural, Debug, Clone, Copy)]
pub enum Page {
    /// The rows of payments.
    Payments,
    /// The transactions that settle them.
    Transactions,
}

/// The state of the main window.
pub struct Window {
    /// The rows of payments, as entered.
    pub input: Vec<Payment>,
    /// The transactions found by the last successful split.
    pub output: Vec<Transaction>,
    /// The page shown.
    pub page: Page,
}

/// The row is blank: no name, nothing paid, nothing wrong with it.
pub open spec fn is_blank_row(p: Payment) -> bool {
    p.from@.len() == 0 && p.amount == 0 && p.valid
}

impl Window {
    /// A new window: one blank row, no transactions, the payments shown.
    pub fn new() -> (w: Window)
        ensures
            w.input.len() == 1,
            is_blank_row(w.input[0]),
            w.output.len() == 0,
            w.page == Page::Payments,
    {
        let mut w = Window { input: Vec::new(), output: Vec::new(), page: Page::Payments };
        w.add_row();
        w
    }

    /// Looks at the last row; changes nothing.
    pub fn maybe_add_row(&self) {
        if self.input.len() > 0 {
            let _last = &self.input[self.input.len() - 1];
        }
    }

    /// Adds a blank row at the end of the payments.
    pub fn add_row(&mut self)
        ensures
            final(self).input@.len() == old(self).input@.len() + 1,
            final(self).input@.drop_last() == old(self).input@,
            is_blank_row(final(self).input@.last()),
            final(self).output@ == old(self).output@,
            final(self).page == old(self).page,
    {
        let payment = Payment::default();
        self.input.push(payment);
    }

    /// Shows the payments again.
    pub fn back_to_payments(&mut self)
        ensures
            final(self).page == Page::Payments,
            final(self).input@ == old(self).input@,
            final(self).output@ == old(self).output@,
    {
        self.page = Page::Payments;
    }

    /// Splits the payments. If the amount of some row could not be read,
    /// nothing changes and the error is returned. Otherwise the
    /// transactions become the plan of `split_payments`, and where the
    /// window shows one page at a time (`folded`) it turns to them.
    pub fn split(&mut self, folded: bool) -> (result: Result<(), SplitError>)
        requires
            old(self).input.len() <= u32::MAX,
        ensures
            final(self).input@ == old(self).input@,
            result is Err <==> !all_valid(old(self).input@),
            result is Err ==> final(self).output@ == old(self).output@ && final(self).page == old(
                self,
            ).page,
            result is Ok ==> transaction_triples(final(self).output@) == split_plan(old(self).input@),
            result is Ok ==> forall|i: int|
                0 <= i < final(self).output.len() ==> #[trigger] final(self).output@[i].parts == count(
                    old(self).input@,
                ),
            result is Ok ==> final(self).page == if folded {
                Page::Transactions
            } else {
                old(self).page
            },
    {
        match split_payments(&self.input) {
            Ok(transactions) => {
                self.output = transactions;
                if folded {
                    self.page = Page::Transactions;
                }
                Ok(())
            },
            Err(e) => Err(e),
        }
    }
}

} // verus!
