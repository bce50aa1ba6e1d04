//! One row of the result: a payment that settles part of a debt.

use vstd::prelude::*;

verus! {

/// `from` pays `to` exactly `amount / parts` cents.
pub struct Transaction {
    pub from: String,
    pub to: String,
    /// The amount paid, in `parts`-ths of a cent.
    pub amount: i128,
    /// Into how many parts a cent is divided for `amount`.
    pub parts: i128,
}

impl Transaction {
    /// `from` pays `to` exactly `amount / parts` cents.
    pub fn new(from: &str, to: &str, amount: i128, parts: i128) -> (t: Transaction)
        ensures
            t.from@ == from@,
            t.to@ == to@,
            t.amount == amount,
            t.parts == parts,
    {
        Transaction { from: from.to_owned(), to: to.to_owned(), amount, parts }
    }

    /// Payer, payee, and the amount in `parts`-ths of a cent.
    pub open spec fn spec_triple(self) -> (Seq<char>, Seq<char>, int) {
        (self.from@, self.to@, self.amount as int)
    }
}

} // verus!
