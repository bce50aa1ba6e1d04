//! Greedy settlement of a balance sheet.
//!
//! A balance sheet holds, for each participant, how much more than their
//! share they paid (positive: they are owed money; negative: they owe money).
//! Sorted ascending, the participant who owes the most is matched with the
//! one who is owed the most, and money moves from the first to the second
//! until one of the two is even. Debts of at most a tolerance `eps` are not
//! collected, and credits below `eps` are not paid out.
//!
//! The remaining participants always form a window `[lo, hi]` of the sorted
//! sheet, of which only the two ends ever change; the window is kept as two
//! indices into the sheet rather than as a `VecDeque`, whose `back_mut`
//! vstd does not specify.

use vstd::prelude::*;

verus! {

/// One cent: debts of at most this much are not collected, and credits below
/// it are not paid out.
pub const EPSILON: i128 = 1;

/// A payment from one position of a balance sheet to another.
pub struct Transfer {
    pub from: usize,
    pub to: usize,
    pub amount: i128,
}

impl Transfer {
    pub open spec fn spec_triple(self) -> (int, int, int) {
        (self.from as int, self.to as int, self.amount as int)
    }
}

/// The balances as mathematical integers.
pub open spec fn ints(s: Seq<i128>) -> Seq<int> {
    s.map_values(|x: i128| x as int)
}

/// The transfers as triples `(from, to, amount)`.
pub open spec fn triples(s: Seq<Transfer>) -> Seq<(int, int, int)> {
    s.map_values(|t: Transfer| t.spec_triple())
}

/// The smaller of two integers.
pub open spec fn min(a: int, b: int) -> int {
    if a <= b { a } else { b }
}

/// Whether the front of the window still owes more than `eps` while the back
/// is owed at least `eps`: the next round moves money.
pub open spec fn transfer_due(b: Seq<int>, lo: int, hi: int, eps: int) -> bool {
    b[lo] < -eps && b[hi] >= eps
}

/// Progress measure of the settlement on window `[lo, hi]`.
pub open spec fn measure(b: Seq<int>, lo: int, hi: int, eps: int) -> int {
    2 * (hi - lo) + if transfer_due(b, lo, hi, eps) { 1int } else { 0int }
}

/// The balances after moving `amount` from position `lo` to position `hi`.
pub open spec fn move_amount(b: Seq<int>, lo: int, hi: int, amount: int) -> Seq<int> {
    b.update(lo, b[lo] + amount).update(hi, b[hi] - amount)
}

/// Settlement with tolerance `eps` of window `[lo, hi]` of the balances `b`:
/// the final balances and the transfers made, in order.
pub open spec fn settle_from(b: Seq<int>, lo: int, hi: int, eps: int) -> (Seq<int>, Seq<(int, int, int)>)
    decreases measure(b, lo, hi, eps),
    when 0 <= lo <= hi < b.len() && eps > 0
{
    if lo >= hi {
        (b, Seq::empty())
    } else if -b[lo] <= eps {
        settle_from(b, lo + 1, hi, eps)
    } else if b[hi] < eps {
        settle_from(b, lo, hi - 1, eps)
    } else {
        let amount = min(b[hi], -b[lo]);
        proof {
            let nb = move_amount(b, lo, hi, amount);
            assert(nb[lo] == b[lo] + amount);
            assert(nb[hi] == b[hi] - amount);
        }
        let rest = settle_from(move_amount(b, lo, hi, amount), lo, hi, eps);
        (rest.0, seq![(lo, hi, amount)] + rest.1)
    }
}

/// Settlement with tolerance `eps` of a whole balance sheet.
pub open spec fn settlement(b: Seq<int>, eps: int) -> (Seq<int>, Seq<(int, int, int)>) {
    if b.len() == 0 {
        (b, Seq::empty())
    } else {
        settle_from(b, 0, b.len() - 1, eps)
    }
}

/// Settles a balance sheet: repeatedly lets the participant at the front of
/// the remaining window (who owes the most) pay the one at the back (who is
/// owed the most) the smaller of the two amounts; a front that owes at most
/// `eps`, or a back that is owed less than `eps`, leaves the window. Returns
/// the final balances and the transfers, in the order they were made.
pub fn settle(balances: &Vec<i128>, eps: i128) -> (result: (Vec<i128>, Vec<Transfer>))
    requires
        eps > 0,
        forall|k: int| 0 <= k < balances.len() ==> balances[k] > i128::MIN,
    ensures
        ints(result.0@) == settlement(ints(balances@), eps as int).0,
        triples(result.1@) == settlement(ints(balances@), eps as int).1,
{
    let mut b: Vec<i128> = Vec::new();
    let mut k: usize = 0;
    while k < balances.len()
        invariant
            k <= balances.len(),
            b@ == balances@.take(k as int),
        decreases balances.len() - k,
    {
        b.push(balances[k]);
        k = k + 1;
        assert(b@ == balances@.take(k as int));
    }
    assert(b@ == balances@);
    let mut txs: Vec<Transfer> = Vec::new();
    if b.len() == 0 {
        assert(triples(txs@) =~= Seq::empty());
        return (b, txs);
    }
    let ghost init = ints(balances@);
    let ghost e = eps as int;
    let mut lo: usize = 0;
    let mut hi: usize = b.len() - 1;
    assert(triples(txs@) + settle_from(ints(b@), lo as int, hi as int, e).1
        =~= settle_from(ints(b@), lo as int, hi as int, e).1);
    while lo < hi
        invariant
            b.len() == balances.len(),
            lo <= hi < b.len(),
            eps > 0,
            e == eps as int,
            forall|k: int|
                0 <= k < b.len() ==> (balances[k] <= #[trigger] b[k] <= 0) || (0 <= b[k]
                    <= balances[k]),
            forall|k: int| 0 <= k < balances.len() ==> balances[k] > i128::MIN,
            settle_from(ints(b@), lo as int, hi as int, e).0 == settlement(init, e).0,
            triples(txs@) + settle_from(ints(b@), lo as int, hi as int, e).1 == settlement(init, e).1,
            init == ints(balances@),
        decreases measure(ints(b@), lo as int, hi as int, e),
    {
        let ghost bi = ints(b@);
        let front = b[lo];
        let back = b[hi];
        assert(bi[lo as int] == front && bi[hi as int] == back);
        if front >= -eps {
            lo = lo + 1;
        } else if back < eps {
            hi = hi - 1;
        } else {
            let amount = if back < -front { back } else { -front };
            b.set(lo, front + amount);
            b.set(hi, back - amount);
            let t = Transfer { from: lo, to: hi, amount };
            let ghost old_txs = txs@;
            txs.push(t);
            proof {
                assert(ints(b@) =~= move_amount(bi, lo as int, hi as int, amount as int));
                assert(triples(txs@) =~= triples(old_txs).push((lo as int, hi as int, amount as int)));
                let rest = settle_from(ints(b@), lo as int, hi as int, e).1;
                assert(triples(txs@) + rest =~= triples(old_txs) + (seq![(lo as int, hi as int, amount as int)] + rest));
            }
        }
    }
    (b, txs)
}

/// The balances after the transfers, made one after the other.
pub open spec fn apply_transfers(b: Seq<int>, txs: Seq<(int, int, int)>) -> Seq<int>
    decreases txs.len(),
{
    if txs.len() == 0 {
        b
    } else {
        apply_transfers(move_amount(b, txs[0].0, txs[0].1, txs[0].2), txs.drop_first())
    }
}

/// The sum of a sequence of integers.
pub open spec fn sum(s: Seq<int>) -> int
    decreases s.len(),
{
    if s.len() == 0 {
        0
    } else {
        sum(s.drop_last()) + s.last()
    }
}

/// The sequence is in ascending order.
pub open spec fn sorted(s: Seq<int>) -> bool {
    forall|i: int, j: int| 0 <= i <= j < s.len() ==> s[i] <= s[j]
}

/// `x` lies between zero and `y`, both included, on whichever side of zero
/// `y` is.
pub open spec fn between_zero_and(x: int, y: int) -> bool {
    (y <= x <= 0) || (0 <= x <= y)
}

/// What settling window `[lo, hi]` of `b` yields: the balances keep their
/// length and are what the transfers make of `b`; each transfer goes from a
/// position inside the window to a later one, from a participant who owes
/// more than `eps` to one who is owed at least `eps`, and moves at least
/// `eps` but no more than either is owed or owes; every final balance lies
/// between zero and the balance before; there are at most `hi - lo`
/// transfers.
proof fn lemma_settle_from_shape(b: Seq<int>, lo: int, hi: int, eps: int)
    requires
        0 <= lo <= hi < b.len(),
        eps > 0,
    ensures
        settle_from(b, lo, hi, eps).0.len() == b.len(),
        settle_from(b, lo, hi, eps).0 == apply_transfers(b, settle_from(b, lo, hi, eps).1),
        forall|i: int|
            #![trigger settle_from(b, lo, hi, eps).1[i]]
            0 <= i < settle_from(b, lo, hi, eps).1.len() ==> {
                let t = settle_from(b, lo, hi, eps).1[i];
                &&& lo <= t.0 < t.1 <= hi
                &&& b[t.0] < -eps
                &&& b[t.1] >= eps
                &&& eps <= t.2
                &&& t.2 <= -b[t.0]
                &&& t.2 <= b[t.1]
            },
        forall|k: int|
            0 <= k < b.len() ==> between_zero_and(#[trigger] settle_from(b, lo, hi, eps).0[k], b[k]),
        settle_from(b, lo, hi, eps).1.len() + (if lo < hi && !transfer_due(b, lo, hi, eps) {
            1int
        } else {
            0int
        }) <= hi - lo,
    decreases measure(b, lo, hi, eps),
{
    if lo >= hi {
    } else if -b[lo] <= eps {
        lemma_settle_from_shape(b, lo + 1, hi, eps);
    } else if b[hi] < eps {
        lemma_settle_from_shape(b, lo, hi - 1, eps);
    } else {
        let amount = min(b[hi], -b[lo]);
        let nb = move_amount(b, lo, hi, amount);
        assert(nb[lo] == b[lo] + amount);
        assert(nb[hi] == b[hi] - amount);
        lemma_settle_from_shape(nb, lo, hi, eps);
        let rest = settle_from(nb, lo, hi, eps);
        let txs = seq![(lo, hi, amount)] + rest.1;
        assert(settle_from(b, lo, hi, eps).1 == txs);
        assert(txs[0] == (lo, hi, amount));
        assert(txs.drop_first() =~= rest.1);
        assert forall|i: int| #![trigger txs[i]] 0 <= i < txs.len() implies {
            let t = txs[i];
            &&& lo <= t.0 < t.1 <= hi
            &&& b[t.0] < -eps
            &&& b[t.1] >= eps
            &&& eps <= t.2
            &&& t.2 <= -b[t.0]
            &&& t.2 <= b[t.1]
        } by {
            if i > 0 {
                assert(txs[i] == rest.1[i - 1]);
            }
        }
        assert forall|k: int| 0 <= k < b.len() implies between_zero_and(
            #[trigger] settle_from(b, lo, hi, eps).0[k],
            b[k],
        ) by {
            assert(between_zero_and(rest.0[k], nb[k]));
        }
    }
}

pub(crate) proof fn lemma_sum_update(s: Seq<int>, i: int, v: int)
    requires
        0 <= i < s.len(),
    ensures
        sum(s.update(i, v)) == sum(s) - s[i] + v,
    decreases s.len(),
{
    if i == s.len() - 1 {
        assert(s.update(i, v).drop_last() =~= s.drop_last());
    } else {
        lemma_sum_update(s.drop_last(), i, v);
        assert(s.update(i, v).drop_last() =~= s.drop_last().update(i, v));
    }
}

proof fn lemma_sum_all_at_least(s: Seq<int>, c: int)
    requires
        forall|j: int| 0 <= j < s.len() ==> s[j] >= c,
    ensures
        sum(s) >= s.len() * c,
    decreases s.len(),
{
    if s.len() > 0 {
        lemma_sum_all_at_least(s.drop_last(), c);
        let n = s.len() as int;
        assert((n - 1) * c + c == n * c) by (nonlinear_arith);
    }
}

proof fn lemma_sum_all_at_most(s: Seq<int>, c: int)
    requires
        forall|j: int| 0 <= j < s.len() ==> s[j] <= c,
    ensures
        sum(s) <= s.len() * c,
    decreases s.len(),
{
    if s.len() > 0 {
        lemma_sum_all_at_most(s.drop_last(), c);
        let n = s.len() as int;
        assert((n - 1) * c + c == n * c) by (nonlinear_arith);
    }
}

/// If every entry but the one at `k` is at least `c`, the sum is at least
/// that entry plus `c` for each of the others.
proof fn lemma_sum_others_at_least(s: Seq<int>, k: int, c: int)
    requires
        0 <= k < s.len(),
        forall|j: int| 0 <= j < s.len() && j != k ==> s[j] >= c,
    ensures
        sum(s) >= s[k] + (s.len() - 1) * c,
    decreases s.len(),
{
    let n = s.len() as int;
    if k == n - 1 {
        lemma_sum_all_at_least(s.drop_last(), c);
    } else {
        lemma_sum_others_at_least(s.drop_last(), k, c);
        assert((n - 2) * c + c == (n - 1) * c) by (nonlinear_arith);
    }
}

/// If every entry but the one at `k` is at most `c`, the sum is at most
/// that entry plus `c` for each of the others.
proof fn lemma_sum_others_at_most(s: Seq<int>, k: int, c: int)
    requires
        0 <= k < s.len(),
        forall|j: int| 0 <= j < s.len() && j != k ==> s[j] <= c,
    ensures
        sum(s) <= s[k] + (s.len() - 1) * c,
    decreases s.len(),
{
    let n = s.len() as int;
    if k == n - 1 {
        lemma_sum_all_at_most(s.drop_last(), c);
    } else {
        lemma_sum_others_at_most(s.drop_last(), k, c);
        assert((n - 2) * c + c == (n - 1) * c) by (nonlinear_arith);
    }
}

spec fn front_ok(b0: Seq<int>, b: Seq<int>, lo: int) -> bool {
    b[lo] == b0[lo] || b0[lo] <= b[lo] <= 0
}

spec fn back_ok(b0: Seq<int>, b: Seq<int>, hi: int) -> bool {
    b[hi] == b0[hi] || 0 <= b[hi] <= b0[hi]
}

/// What holds of the balances `b` while the sorted sheet `b0`, whose
/// balances add up to zero, is settled on window `[lo, hi]`: the inside of
/// the window is untouched, its ends have only moved towards zero, a
/// position left at the front owes at most `eps` and was either untouched
/// or is not owed anything, and a position left at the back is owed less
/// than `eps` and was either untouched or owes nothing.
spec fn settling(b0: Seq<int>, b: Seq<int>, lo: int, hi: int, eps: int) -> bool {
    &&& b.len() == b0.len()
    &&& 0 <= lo <= hi < b.len()
    &&& eps > 0
    &&& sorted(b0)
    &&& sum(b) == 0
    &&& forall|k: int| lo < k < hi ==> #[trigger] b[k] == b0[k]
    &&& front_ok(b0, b, lo) || (lo == hi && back_ok(b0, b, hi))
    &&& back_ok(b0, b, hi) || (lo == hi && front_ok(b0, b, lo))
    &&& forall|k: int| 0 <= k < lo ==> #[trigger] b[k] >= -eps && (b[k] <= 0 || b[k] == b0[k])
    &&& forall|k: int| hi < k < b.len() ==> #[trigger] b[k] < eps && (b[k] >= 0 || b[k] == b0[k])
}

/// At the end of a settlement every balance is within `eps` times the
/// number of the others of zero.
proof fn lemma_settled_end(b0: Seq<int>, b: Seq<int>, m: int, eps: int)
    requires
        settling(b0, b, m, m, eps),
    ensures
        forall|k: int|
            0 <= k < b.len() ==> -(b.len() - 1) * eps <= #[trigger] b[k] <= (b.len() - 1) * eps,
{
    let n = b.len() as int;
    assert(0 <= (n - 1) * eps) by (nonlinear_arith)
        requires
            n >= 1,
            eps > 0,
    ;
    assert((-(n - 1)) * eps == -((n - 1) * eps)) by (nonlinear_arith);
    if n >= 2 {
        assert(eps <= (n - 1) * eps) by (nonlinear_arith)
            requires
                n >= 2,
                eps > 0,
        ;
    }
    assert forall|k: int| 0 <= k < n implies -(n - 1) * eps <= #[trigger] b[k] <= (n - 1) * eps by {
        if b[k] > 0 && k <= m {
            assert(b0[k] >= b[k]);
            assert forall|j: int| 0 <= j < n && j != k implies b[j] >= -eps by {
                if j > m {
                    assert(b0[j] >= b0[k]);
                } else if j == m {
                    assert(b0[m] >= b0[k]);
                }
            }
            lemma_sum_others_at_least(b, k, -eps);
            assert((n - 1) * (-eps) == -((n - 1) * eps)) by (nonlinear_arith);
            assert(b[k] <= (n - 1) * eps);
        }
        if k > m {
            assert(n >= 2);
            assert(b[k] < eps);
        }
        if b[k] < 0 && k >= m {
            assert(b0[k] <= b[k]);
            assert forall|j: int| 0 <= j < n && j != k implies b[j] <= eps by {
                if j < m {
                    assert(b0[j] <= b0[k]);
                } else if j == m {
                    assert(b0[m] <= b0[k]);
                }
            }
            lemma_sum_others_at_most(b, k, eps);
            assert(b[k] >= -(n - 1) * eps);
        }
        if k < m {
            assert(n >= 2);
            assert(b[k] >= -eps);
        }
    }
}

proof fn lemma_settle_bounded(b0: Seq<int>, b: Seq<int>, lo: int, hi: int, eps: int)
    requires
        settling(b0, b, lo, hi, eps),
    ensures
        forall|k: int|
            0 <= k < b.len() ==> -(b.len() - 1) * eps <= #[trigger] settle_from(b, lo, hi, eps).0[k]
                <= (b.len() - 1) * eps,
    decreases measure(b, lo, hi, eps),
{
    if lo >= hi {
        lemma_settled_end(b0, b, lo, eps);
        assert(settle_from(b, lo, hi, eps).0 == b);
    } else if -b[lo] <= eps {
        lemma_settle_bounded(b0, b, lo + 1, hi, eps);
        assert(settle_from(b, lo, hi, eps) == settle_from(b, lo + 1, hi, eps));
    } else if b[hi] < eps {
        lemma_settle_bounded(b0, b, lo, hi - 1, eps);
        assert(settle_from(b, lo, hi, eps) == settle_from(b, lo, hi - 1, eps));
    } else {
        let amount = min(b[hi], -b[lo]);
        let nb = move_amount(b, lo, hi, amount);
        lemma_sum_update(b, lo, b[lo] + amount);
        lemma_sum_update(b.update(lo, b[lo] + amount), hi, b[hi] - amount);
        assert(nb[lo] == b[lo] + amount);
        assert(nb[hi] == b[hi] - amount);
        assert(settling(b0, nb, lo, hi, eps));
        lemma_settle_bounded(b0, nb, lo, hi, eps);
        assert(settle_from(b, lo, hi, eps).0 == settle_from(nb, lo, hi, eps).0);
    }
}

/// Law: settling a balance sheet moves money by the transfers it returns.
/// The final balances are what the transfers, made in order, make of the
/// sheet, and no participant ends on the other side of zero or farther from
/// it than before: debts only shrink, credits only shrink.
pub proof fn law_settlement_applies_transfers(b: Seq<int>, eps: int)
    requires
        eps > 0,
    ensures
        settlement(b, eps).0.len() == b.len(),
        settlement(b, eps).0 == apply_transfers(b, settlement(b, eps).1),
        forall|k: int| 0 <= k < b.len() ==> between_zero_and(#[trigger] settlement(b, eps).0[k], b[k]),
{
    if b.len() > 0 {
        lemma_settle_from_shape(b, 0, b.len() - 1, eps);
    }
}

/// Law: every transfer of a settlement goes from a participant who owes more
/// than `eps` to a later one on the sheet who is owed at least `eps`, and
/// moves at least `eps` and no more than either owes or is owed.
pub proof fn law_transfers_go_from_debtor_to_creditor(b: Seq<int>, eps: int)
    requires
        eps > 0,
    ensures
        forall|i: int|
            #![trigger settlement(b, eps).1[i]]
            0 <= i < settlement(b, eps).1.len() ==> {
                let t = settlement(b, eps).1[i];
                &&& 0 <= t.0 < t.1 < b.len()
                &&& b[t.0] < -eps
                &&& b[t.1] >= eps
                &&& eps <= t.2 <= -b[t.0]
                &&& t.2 <= b[t.1]
            },
{
    if b.len() > 0 {
        lemma_settle_from_shape(b, 0, b.len() - 1, eps);
    }
}

/// Law: a settlement of `n` participants makes at most `n - 1` transfers.
pub proof fn law_settlement_transfer_count(b: Seq<int>, eps: int)
    requires
        eps > 0,
    ensures
        b.len() > 0 ==> settlement(b, eps).1.len() <= b.len() - 1,
        b.len() == 0 ==> settlement(b, eps).1.len() == 0,
{
    if b.len() > 0 {
        lemma_settle_from_shape(b, 0, b.len() - 1, eps);
    }
}

/// Law: when the balances are sorted ascending and add up to zero, after
/// settlement every balance is within `eps` times the number of the other
/// participants of zero: the debts and credits left over are the ones below
/// `eps` that were not collected or paid out.
pub proof fn law_settled_within_tolerance(b: Seq<int>, eps: int)
    requires
        eps > 0,
        sorted(b),
        sum(b) == 0,
    ensures
        forall|k: int|
            0 <= k < b.len() ==> -(b.len() - 1) * eps <= #[trigger] settlement(b, eps).0[k] <= (
            b.len() - 1) * eps,
{
    if b.len() > 0 {
        lemma_settle_bounded(b, b, 0, b.len() - 1, eps);
    }
}

proof fn lemma_apply_keeps_sum(b: Seq<int>, txs: Seq<(int, int, int)>)
    requires
        forall|i: int|
            #![trigger txs[i]]
            0 <= i < txs.len() ==> 0 <= txs[i].0 < b.len() && 0 <= txs[i].1 < b.len() && txs[i].0
                != txs[i].1,
    ensures
        sum(apply_transfers(b, txs)) == sum(b),
    decreases txs.len(),
{
    if txs.len() > 0 {
        let t = txs[0];
        let nb = move_amount(b, t.0, t.1, t.2);
        lemma_sum_update(b, t.0, b[t.0] + t.2);
        lemma_sum_update(b.update(t.0, b[t.0] + t.2), t.1, b[t.1] - t.2);
        assert forall|i: int|
            #![trigger txs.drop_first()[i]]
            0 <= i < txs.drop_first().len() implies 0 <= txs.drop_first()[i].0 < nb.len() && 0
                <= txs.drop_first()[i].1 < nb.len() && txs.drop_first()[i].0 != txs.drop_first()[i].1 by {
            assert(txs.drop_first()[i] == txs[i + 1]);
        }
        lemma_apply_keeps_sum(nb, txs.drop_first());
    }
}

/// Law: settlement creates and destroys no money: the final balances add up
/// to what the balances added up to before.
pub proof fn law_settlement_conserves_money(b: Seq<int>, eps: int)
    requires
        eps > 0,
    ensures
        sum(settlement(b, eps).0) == sum(b),
{
    law_settlement_applies_transfers(b, eps);
    law_transfers_go_from_debtor_to_creditor(b, eps);
    lemma_apply_keeps_sum(b, settlement(b, eps).1);
}

/// What position `k` pays in total by the transfers.
pub open spec fn paid_out(txs: Seq<(int, int, int)>, k: int) -> int
    decreases txs.len(),
{
    if txs.len() == 0 {
        0
    } else {
        (if txs[0].0 == k { txs[0].2 } else { 0 }) + paid_out(txs.drop_first(), k)
    }
}

/// What position `k` receives in total by the transfers.
pub open spec fn paid_in(txs: Seq<(int, int, int)>, k: int) -> int
    decreases txs.len(),
{
    if txs.len() == 0 {
        0
    } else {
        (if txs[0].1 == k { txs[0].2 } else { 0 }) + paid_in(txs.drop_first(), k)
    }
}

/// A position that no transfer starts from pays nothing, and one that no
/// transfer goes to receives nothing.
pub(crate) proof fn lemma_untouched_position(txs: Seq<(int, int, int)>, k: int)
    ensures
        (forall|i: int| 0 <= i < txs.len() ==> #[trigger] txs[i].0 != k) ==> paid_out(txs, k) == 0,
        (forall|i: int| 0 <= i < txs.len() ==> #[trigger] txs[i].1 != k) ==> paid_in(txs, k) == 0,
    decreases txs.len(),
{
    if txs.len() > 0 {
        lemma_untouched_position(txs.drop_first(), k);
        if forall|i: int| 0 <= i < txs.len() ==> #[trigger] txs[i].0 != k {
            assert forall|i: int| 0 <= i < txs.drop_first().len() implies #[trigger] txs.drop_first()[i].0 != k by {
                assert(txs.drop_first()[i] == txs[i + 1]);
            }
        }
        if forall|i: int| 0 <= i < txs.len() ==> #[trigger] txs[i].1 != k {
            assert forall|i: int| 0 <= i < txs.drop_first().len() implies #[trigger] txs.drop_first()[i].1 != k by {
                assert(txs.drop_first()[i] == txs[i + 1]);
            }
        }
    }
}

/// Law: where every transfer goes between two different positions of the
/// sheet, each balance after the transfers is the balance before, plus what
/// the position paid, minus what it received.
pub proof fn law_apply_transfers(b: Seq<int>, txs: Seq<(int, int, int)>)
    requires
        forall|i: int|
            #![trigger txs[i]]
            0 <= i < txs.len() ==> 0 <= txs[i].0 < b.len() && 0 <= txs[i].1 < b.len() && txs[i].0
                != txs[i].1,
    ensures
        apply_transfers(b, txs).len() == b.len(),
        forall|k: int|
            0 <= k < b.len() ==> #[trigger] apply_transfers(b, txs)[k] == b[k] + paid_out(txs, k)
                - paid_in(txs, k),
    decreases txs.len(),
{
    if txs.len() > 0 {
        let t = txs[0];
        let nb = move_amount(b, t.0, t.1, t.2);
        assert forall|i: int|
            #![trigger txs.drop_first()[i]]
            0 <= i < txs.drop_first().len() implies 0 <= txs.drop_first()[i].0 < nb.len() && 0
                <= txs.drop_first()[i].1 < nb.len() && txs.drop_first()[i].0 != txs.drop_first()[i].1 by {
            assert(txs.drop_first()[i] == txs[i + 1]);
        }
        law_apply_transfers(nb, txs.drop_first());
    }
}

} // verus!
