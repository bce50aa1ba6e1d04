//! One row of the input: who paid, how much, and whether the amount that
//! was typed in could be read.

use vstd::prelude::*;

verus! {

/// A payment made by one participant.
pub struct Payment {
    /// Name of the participant who paid.
    pub from: String,
    /// Amount paid, in the smallest currency unit.
    pub amount: i64,
    /// Whether the amount entered for this row could be read.
    pub valid: bool,
}

/// What an amount entry holds: the amount read from the text, if the text
/// holds a number (`parsed`); zero for an empty entry; nothing otherwise.
pub open spec fn amount_entry(text: Seq<char>, parsed: Option<i64>) -> Option<i64> {
    match parsed {
        Some(amount) => Some(amount),
        None => if text.len() == 0 {
            Some(0)
        } else {
            None
        },
    }
}

/// Law: a text that holds a number is taken with that number, whatever it
/// is (zero and negative numbers too); a text without a number is taken as
/// zero if it is empty and refused otherwise.
pub proof fn law_amount_entry(text: Seq<char>, parsed: Option<i64>)
    ensures
        forall|a: i64| parsed == Some(a) ==> amount_entry(text, parsed) == Some(a),
        parsed is None && text.len() == 0 ==> amount_entry(text, parsed) == Some(0i64),
        parsed is None && text.len() > 0 ==> amount_entry(text, parsed) is None,
{
}

impl Payment {
    /// The name of who paid.
    pub fn from(&self) -> (name: String)
        ensures
            name@ == self.from@,
    {
        self.from.clone()
    }

    /// Sets the name of who paid.
    pub fn set_from(&mut self, name: &str)
        ensures
            final(self).from@ == name@,
            final(self).amount == old(self).amount,
            final(self).valid == old(self).valid,
    {
        self.from = name.to_owned();
    }

    /// The amount paid.
    pub fn amount(&self) -> (amount: i64)
        ensures
            amount == self.amount,
    {
        self.amount
    }

    /// Sets the amount paid.
    pub fn set_amount(&mut self, amount: i64)
        ensures
            final(self).amount == amount,
            final(self).from == old(self).from,
            final(self).valid == old(self).valid,
    {
        self.amount = amount;
    }

    /// Whether the amount of this row could be read.
    pub fn valid(&self) -> (valid: bool)
        ensures
            valid == self.valid,
    {
        self.valid
    }

    /// Sets whether the amount of this row could be read.
    pub fn set_valid(&mut self, valid: bool)
        ensures
            final(self).valid == valid,
            final(self).from == old(self).from,
            final(self).amount == old(self).amount,
    {
        self.valid = valid;
    }

    /// Takes what was typed into the amount entry: `text`, and the amount
    /// read from it (`None` where it holds no number). An empty entry counts
    /// as zero. The row becomes valid with that amount, or, where the text
    /// holds no amount, invalid with amount zero. Returns whether the entry
    /// was accepted.
    pub fn enter_amount(&mut self, text: &str, parsed: Option<i64>) -> (accepted: bool)
        ensures
            accepted == amount_entry(text@, parsed).is_some(),
            final(self).valid == accepted,
            final(self).amount == match amount_entry(text@, parsed) {
                Some(amount) => amount,
                None => 0,
            },
            final(self).from == old(self).from,
            parsed matches Some(a) ==> accepted && final(self).valid && final(self).amount == a,
            parsed is None ==> (accepted <==> text@.len() == 0),
            !accepted ==> final(self).amount == 0,
    {
        let entry = match parsed {
            Some(amount) => Some(amount),
            None => if text.is_empty() {
                Some(0)
            } else {
                None
            },
        };
        match entry {
            Some(amount) => {
                self.valid = true;
                self.amount = amount;
                true
            },
            None => {
                self.valid = false;
                self.amount = 0;
                false
            },
        }
    }
}

impl Default for Payment {
    /// A blank row: nobody, nothing paid, nothing wrong with it.
    fn default() -> (p: Payment)
        ensures
            p.from@ == Seq::<char>::empty(),
            p.amount == 0,
            p.valid,
    {
        Payment { from: String::new(), amount: 0, valid: true }
    }
}

} // verus!
