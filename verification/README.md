# pay_split

Splits shared expenses: given who paid how much, it computes everyone's
share and a list of payments that settles the differences.

- `src/` is the verified library (Verus): `payment` (one input row and how a
  typed amount is taken), `ledger` (payments summed per participant, the
  idle blank row, sorting by amount and name), `names` (the order of names), `settle` (the greedy settlement of a
  sorted balance sheet and its laws), `split` (share, balances, the plan by
  name and its laws), `transaction`, and `window` (the state of the main
  window).
- `app/` is the GTK/libadwaita front end: widgets, list stores, reading the
  typed amounts, logging and page navigation.
- Amounts are whole cents. Everyone's share is the exact average; balances
  are kept `n` times over (`n * paid - total`) so that they stay whole
  numbers, and each transaction carries its exact amount as `amount / parts`
  cents, `parts` being the number of participants. Only the front end turns
  that into a decimal for display.
- Participants are ordered by what they paid and then by name (byte order of
  the name), so the result depends only on the total paid per person.
