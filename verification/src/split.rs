//! Splitting the payments: everyone's share, and who pays whom.
//!
//! Everyone's share is the exact average of what was paid. To stay in whole
//! numbers, balances are kept `n` times over, where `n` is the number of
//! participants: `n * paid - total` is `n` times how much more than the
//! average a participant paid. The amounts of the transactions are exact
//! too: in `n`-ths of a cent.

use vstd::prelude::*;
use crate::ledger::{
    amounts, distinct_names, drop_idle_blank, entries, has_name, is_idle_blank, is_payer,
    law_ordered_is_unique, law_sort_by_key, law_tally_sums_per_participant,
    law_without_idle_blank, ordered, paid_by, sort_by_key, sort_ledger, tally, tally_payments,
    total, without_idle_blank,
};
use crate::payment::Payment;
use crate::settle::{
    between_zero_and, ints, law_apply_transfers, law_settled_within_tolerance,
    law_settlement_applies_transfers,
    law_settlement_transfer_count, law_transfers_go_from_debtor_to_creditor, lemma_untouched_position, paid_in, paid_out,
    settle, settlement, sorted, sum, triples, EPSILON,
};
use crate::transaction::Transaction;

verus! {

/// Why the payments could not be split.
#[derive(PartialEq, Eq, Structural, Debug, Clone, Copy)]
pub enum SplitError {
    /// The amount of at least one payment could not be read.
    InvalidPayment,
}

/// The amount of every payment could be read.
pub open spec fn all_valid(ps: Seq<Payment>) -> bool {
    forall|i: int| 0 <= i < ps.len() ==> #[trigger] ps[i].valid
}

/// The participants with what each paid in total, in ascending order of
/// that amount and among equal amounts by name: everyone who made a
/// payment, except an idle blank row.
pub open spec fn participants(ps: Seq<Payment>) -> Seq<(Seq<char>, int)> {
    sort_by_key(without_idle_blank(tally(ps)))
}

/// The number of participants.
pub open spec fn count(ps: Seq<Payment>) -> int {
    participants(ps).len() as int
}

/// For each participant, in the order of `participants`, `n` times how much
/// more than the exact average they paid: `n * paid - total`.
pub open spec fn balances(ps: Seq<Payment>) -> Seq<int> {
    let n = count(ps);
    let t = total(ps);
    amounts(participants(ps)).map_values(|a: int| n * a - t)
}

/// The tolerance on the balances: `EPSILON`, `n` times over.
pub open spec fn tolerance(ps: Seq<Payment>) -> int {
    count(ps) * EPSILON
}

/// Who pays whom how much: the settlement of the balances by name, with
/// amounts in `n`-ths of a cent.
pub open spec fn split_plan(ps: Seq<Payment>) -> Seq<(Seq<char>, Seq<char>, int)> {
    let names = participants(ps);
    settlement(balances(ps), tolerance(ps)).1.map_values(
        |t: (int, int, int)| (names[t.0].0, names[t.1].0, t.2),
    )
}

/// The transactions as triples of payer, payee and amount.
pub open spec fn transaction_triples(ts: Seq<Transaction>) -> Seq<(Seq<char>, Seq<char>, int)> {
    ts.map_values(|t: Transaction| t.spec_triple())
}

/// Splits the payments: everyone's share is the exact average of what was
/// paid, where a blank row whose amount is within `EPSILON` of zero takes no
/// part; the participants, ordered by what they paid and then by name,
/// settle their differences with `settle`, debts and credits below
/// `EPSILON` being left alone. Each transaction carries its exact amount in
/// `n`-ths of a cent, `n` being the number of participants. Fails if the
/// amount of some payment could not be read.
pub fn split_payments(payments: &Vec<Payment>) -> (result: Result<Vec<Transaction>, SplitError>)
    requires
        payments.len() <= u32::MAX,
    ensures
        result is Err <==> !all_valid(payments@),
        result matches Ok(txs) ==> transaction_triples(txs@) == split_plan(payments@),
        result matches Ok(txs) ==> forall|i: int|
            0 <= i < txs.len() ==> #[trigger] txs@[i].parts == count(payments@),
{
    let mut total_paid: i128 = 0;
    let mut k: usize = 0;
    while k < payments.len()
        invariant
            k <= payments.len(),
            payments.len() <= u32::MAX,
            total_paid == total(payments@.take(k as int)),
            -(k as int) * 0x8000_0000_0000_0000 <= total_paid <= (k as int) * 0x8000_0000_0000_0000,
            forall|j: int| 0 <= j < k ==> #[trigger] payments@[j].valid,
        decreases payments.len() - k,
    {
        if !payments[k].valid {
            return Err(SplitError::InvalidPayment);
        }
        assert(payments@.take(k + 1).drop_last() =~= payments@.take(k as int));
        total_paid = total_paid + payments[k].amount as i128;
        k = k + 1;
    }
    assert(payments@.take(k as int) =~= payments@);
    let ghost ps = payments@;
    let mut ledger = tally_payments(payments);
    proof {
        law_tally_sums_per_participant(ps);
    }
    let ghost tallied = ledger@;
    drop_idle_blank(&mut ledger);
    let ledger = sort_ledger(&ledger);
    assert(entries(ledger@) == participants(ps));
    let n = ledger.len();
    let mut txs: Vec<Transaction> = Vec::new();
    if n == 0 {
        assert(transaction_triples(txs@) =~= split_plan(ps));
        return Ok(txs);
    }
    let ghost p = payments.len() as int;
    let ghost bound = p * 0x8000_0000_0000_0000;
    proof {
        law_without_idle_blank(entries(tallied));
        law_sort_by_key(without_idle_blank(entries(tallied)));
        assert forall|i: int| 0 <= i < n implies -bound <= #[trigger] ledger@[i].1 <= bound by {
            let x = entries(ledger@)[i];
            assert(participants(ps).contains(x));
            assert(without_idle_blank(tally(ps)).contains(x));
            assert(entries(tallied).contains(x));
            let j = choose|j: int| 0 <= j < tallied.len() && entries(tallied)[j] == x;
            assert(tallied[j].1 == x.1);
        }
    }
    let count_n = n as i128;
    let mut bal: Vec<i128> = Vec::new();
    let mut i: usize = 0;
    while i < n
        invariant
            i <= n,
            1 <= n <= p,
            p <= u32::MAX,
            count_n == n,
            n == ledger.len(),
            n == count(ps),
            entries(ledger@) == participants(ps),
            total_paid == total(ps),
            -bound <= total_paid <= bound,
            bound == p * 0x8000_0000_0000_0000,
            forall|j: int| 0 <= j < n ==> -bound <= #[trigger] ledger@[j].1 <= bound,
            ints(bal@) == balances(ps).take(i as int),
            forall|j: int| 0 <= j < i ==> #[trigger] bal@[j] > i128::MIN,
        decreases n - i,
    {
        let v = ledger[i].1;
        assert(-bound <= v <= bound);
        assert(-(p * bound) <= count_n * v <= p * bound) by (nonlinear_arith)
            requires
                -bound <= v <= bound,
                1 <= count_n <= p,
                bound >= 0,
        ;
        assert(p * bound <= 0xffff_ffff * 0xffff_ffff * 0x8000_0000_0000_0000) by (nonlinear_arith)
            requires
                bound == p * 0x8000_0000_0000_0000,
                0 <= p <= 0xffff_ffff,
        ;
        let b = count_n * v - total_paid;
        let ghost prev = bal@;
        bal.push(b);
        proof {
            assert(balances(ps)[i as int] == count(ps) * amounts(participants(ps))[i as int] - total(ps));
            assert(amounts(participants(ps))[i as int] == entries(ledger@)[i as int].1);
            assert(entries(ledger@)[i as int].1 == ledger@[i as int].1);
            assert(ints(bal@) =~= ints(prev).push(b as int));
            assert(balances(ps).take(i as int + 1) =~= balances(ps).take(i as int).push(balances(ps)[i as int]));
        }
        i = i + 1;
    }
    assert(ints(bal@) =~= balances(ps));
    let eps = count_n * EPSILON;
    assert(eps == tolerance(ps));
    let (_, transfers) = settle(&bal, eps);
    proof {
        law_transfers_go_from_debtor_to_creditor(balances(ps), tolerance(ps));
    }
    let ghost plan = settlement(balances(ps), tolerance(ps)).1;
    let mut k: usize = 0;
    assert(transaction_triples(txs@) =~= split_plan(ps).take(0));
    while k < transfers.len()
        invariant
            k <= transfers.len(),
            triples(transfers@) == plan,
            plan == settlement(balances(ps), tolerance(ps)).1,
            balances(ps).len() == n,
            n == ledger.len(),
            count_n == n,
            n == count(ps),
            entries(ledger@) == participants(ps),
            transaction_triples(txs@) == split_plan(ps).take(k as int),
            forall|j: int| 0 <= j < txs.len() ==> #[trigger] txs@[j].parts == n,
            forall|j: int|
                #![trigger plan[j]]
                0 <= j < plan.len() ==> 0 <= plan[j].0 < plan[j].1 < n && 1 <= plan[j].2,
        decreases transfers.len() - k,
    {
        let t = &transfers[k];
        assert(plan[k as int] == t.spec_triple());
        let tx = Transaction::new(ledger[t.from].0.as_str(), ledger[t.to].0.as_str(), t.amount, count_n);
        let ghost prev = txs@;
        txs.push(tx);
        proof {
            let names = participants(ps);
            let x = plan[k as int];
            assert(split_plan(ps)[k as int] == (names[x.0].0, names[x.1].0, x.2));
            assert(names[t.from as int].0 == ledger@[t.from as int].0@);
            assert(names[t.to as int].0 == ledger@[t.to as int].0@);
            assert(transaction_triples(txs@) =~= transaction_triples(prev).push(tx.spec_triple()));
            assert(split_plan(ps).take(k as int + 1) =~= split_plan(ps).take(k as int).push(split_plan(ps)[k as int]));
        }
        k = k + 1;
    }
    assert(split_plan(ps).take(k as int) =~= split_plan(ps));
    Ok(txs)
}

/// What `name` pays in total by the transactions of the plan.
pub open spec fn sent(plan: Seq<(Seq<char>, Seq<char>, int)>, name: Seq<char>) -> int
    decreases plan.len(),
{
    if plan.len() == 0 {
        0
    } else {
        (if plan[0].0 == name { plan[0].2 } else { 0 }) + sent(plan.drop_first(), name)
    }
}

/// What `name` receives in total by the transactions of the plan.
pub open spec fn received(plan: Seq<(Seq<char>, Seq<char>, int)>, name: Seq<char>) -> int
    decreases plan.len(),
{
    if plan.len() == 0 {
        0
    } else {
        (if plan[0].1 == name { plan[0].2 } else { 0 }) + received(plan.drop_first(), name)
    }
}

/// `n` times what `name` has paid in the end: `n` times their payments,
/// plus what they pay by the plan, minus what they receive by it (both in
/// `n`-ths of a cent).
pub open spec fn contribution(ps: Seq<Payment>, name: Seq<char>) -> int {
    count(ps) * paid_by(ps, name) + sent(split_plan(ps), name) - received(split_plan(ps), name)
}

proof fn lemma_sum_scale_shift(s: Seq<int>, n: int, t: int)
    ensures
        sum(s.map_values(|a: int| n * a - t)) == n * sum(s) - s.len() * t,
    decreases s.len(),
{
    if s.len() > 0 {
        lemma_sum_scale_shift(s.drop_last(), n, t);
        assert(s.map_values(|a: int| n * a - t).drop_last() =~= s.drop_last().map_values(
            |a: int| n * a - t,
        ));
        let len = s.len() as int;
        let x = s.last();
        let r = sum(s.drop_last());
        assert(n * r - (len - 1) * t + (n * x - t) == n * (r + x) - len * t) by (nonlinear_arith);
    }
}

/// Law: the participants are those who made a payment, except a blank row
/// whose payments add up to less than `EPSILON` either way; each of them
/// is listed once, with what they paid in total, ordered by that amount
/// and then by name, and together they paid what was paid in total.
pub proof fn law_participants(ps: Seq<Payment>)
    ensures
        distinct_names(participants(ps)),
        forall|i: int|
            0 <= i < participants(ps).len() ==> #[trigger] participants(ps)[i].1 == paid_by(
                ps,
                participants(ps)[i].0,
            ),
        forall|name: Seq<char>| #[trigger]
            has_name(participants(ps), name) <==> (is_payer(ps, name) && !is_idle_blank(
                (name, paid_by(ps, name)),
            )),
        ordered(participants(ps)),
        sorted(amounts(participants(ps))),
        sum(amounts(participants(ps))) == total(ps),
{
    let t = tally(ps);
    let w = without_idle_blank(t);
    let p = participants(ps);
    law_tally_sums_per_participant(ps);
    law_without_idle_blank(t);
    law_sort_by_key(w);
    assert forall|i: int| 0 <= i < p.len() implies #[trigger] p[i].1 == paid_by(ps, p[i].0) by {
        assert(p.contains(p[i]));
        assert(w.contains(p[i]));
        assert(t.contains(p[i]));
        let j = choose|j: int| 0 <= j < t.len() && t[j] == p[i];
        assert(t[j].1 == paid_by(ps, t[j].0));
    }
    assert forall|name: Seq<char>| #[trigger] has_name(p, name) <==> (is_payer(ps, name)
        && !is_idle_blank((name, paid_by(ps, name)))) by {
        if has_name(p, name) {
            let i = choose|i: int| 0 <= i < p.len() && p[i].0 == name;
            assert(p.contains(p[i]));
            assert(w.contains(p[i]));
            assert(t.contains(p[i]));
            let j = choose|j: int| 0 <= j < t.len() && t[j] == p[i];
            assert(has_name(t, name));
            assert(p[i] == (name, paid_by(ps, name)));
        }
        if is_payer(ps, name) && !is_idle_blank((name, paid_by(ps, name))) {
            assert(has_name(t, name));
            let j = choose|j: int| 0 <= j < t.len() && t[j].0 == name;
            assert(t.contains(t[j]));
            assert(t[j] == (name, paid_by(ps, name)));
            assert(w.contains(t[j]));
            let i = choose|i: int| 0 <= i < w.len() && w[i] == t[j];
            assert(has_name(w, name));
        }
    }
}

/// Law: the balances are sorted and add up to zero, and each is `n` times
/// how much more than the exact average the participant paid.
pub proof fn law_balances(ps: Seq<Payment>)
    ensures
        balances(ps).len() == count(ps),
        sorted(balances(ps)),
        sum(balances(ps)) == 0,
        forall|k: int|
            0 <= k < balances(ps).len() ==> #[trigger] balances(ps)[k] == count(ps) * paid_by(
                ps,
                participants(ps)[k].0,
            ) - total(ps),
{
    law_participants(ps);
    let p = participants(ps);
    let n = count(ps);
    let t = total(ps);
    let a = amounts(p);
    lemma_sum_scale_shift(a, n, t);
    assert(balances(ps) == a.map_values(|x: int| n * x - t));
    assert(n * t - n * t == 0);
    assert forall|i: int, j: int| 0 <= i <= j < balances(ps).len() implies balances(ps)[i]
        <= balances(ps)[j] by {
        assert(a[i] <= a[j]);
        assert(n * a[i] <= n * a[j]) by (nonlinear_arith)
            requires
                a[i] <= a[j],
                n >= 0,
        ;
    }
    assert forall|k: int| 0 <= k < balances(ps).len() implies #[trigger] balances(ps)[k] == n
        * paid_by(ps, p[k].0) - t by {
        assert(p[k].1 == paid_by(ps, p[k].0));
    }
}

proof fn lemma_plan_by_name(
    txs: Seq<(int, int, int)>,
    names: Seq<(Seq<char>, int)>,
    k: int,
)
    requires
        distinct_names(names),
        0 <= k < names.len(),
        forall|i: int|
            #![trigger txs[i]]
            0 <= i < txs.len() ==> 0 <= txs[i].0 < names.len() && 0 <= txs[i].1 < names.len(),
    ensures
        sent(txs.map_values(|t: (int, int, int)| (names[t.0].0, names[t.1].0, t.2)), names[k].0)
            == paid_out(txs, k),
        received(txs.map_values(|t: (int, int, int)| (names[t.0].0, names[t.1].0, t.2)), names[k].0)
            == paid_in(txs, k),
    decreases txs.len(),
{
    if txs.len() > 0 {
        let plan = txs.map_values(|t: (int, int, int)| (names[t.0].0, names[t.1].0, t.2));
        let rest = txs.drop_first();
        assert forall|i: int| #![trigger rest[i]] 0 <= i < rest.len() implies 0 <= rest[i].0
            < names.len() && 0 <= rest[i].1 < names.len() by {
            assert(rest[i] == txs[i + 1]);
        }
        lemma_plan_by_name(rest, names, k);
        assert(plan.drop_first() =~= rest.map_values(
            |t: (int, int, int)| (names[t.0].0, names[t.1].0, t.2),
        ));
        let t0 = txs[0];
        assert(plan[0] == (names[t0.0].0, names[t0.1].0, t0.2));
        assert((names[t0.0].0 == names[k].0) == (t0.0 == k));
        assert((names[t0.1].0 == names[k].0) == (t0.1 == k));
    }
}

/// Law: every transaction of the plan goes from one participant to another,
/// from one who paid more than `EPSILON` less than the exact average to one
/// who paid at least `EPSILON` more, and moves, `n` times over, at least
/// `EPSILON` and no more than either is off the average.
pub proof fn law_split_plan_transactions(ps: Seq<Payment>)
    ensures
        forall|i: int|
            #![trigger split_plan(ps)[i]]
            0 <= i < split_plan(ps).len() ==> {
                let t = split_plan(ps)[i];
                let n = count(ps);
                &&& has_name(participants(ps), t.0)
                &&& has_name(participants(ps), t.1)
                &&& t.0 != t.1
                &&& n * paid_by(ps, t.0) - total(ps) < -n * EPSILON
                &&& n * paid_by(ps, t.1) - total(ps) >= n * EPSILON
                &&& n * EPSILON <= t.2 <= total(ps) - n * paid_by(ps, t.0)
                &&& t.2 <= n * paid_by(ps, t.1) - total(ps)
            },
{
    law_participants(ps);
    law_balances(ps);
    let b = balances(ps);
    let p = participants(ps);
    let n = count(ps);
    if n > 0 {
        law_transfers_go_from_debtor_to_creditor(b, tolerance(ps));
    }
    let txs = settlement(b, tolerance(ps)).1;
    assert forall|i: int| #![trigger split_plan(ps)[i]] 0 <= i < split_plan(ps).len() implies {
        let t = split_plan(ps)[i];
        &&& has_name(participants(ps), t.0)
        &&& has_name(participants(ps), t.1)
        &&& t.0 != t.1
        &&& n * paid_by(ps, t.0) - total(ps) < -n * EPSILON
        &&& n * paid_by(ps, t.1) - total(ps) >= n * EPSILON
        &&& n * EPSILON <= t.2 <= total(ps) - n * paid_by(ps, t.0)
        &&& t.2 <= n * paid_by(ps, t.1) - total(ps)
    } by {
        assert(n > 0);
        let x = txs[i];
        assert(split_plan(ps)[i] == (p[x.0].0, p[x.1].0, x.2));
        assert(b[x.0] == n * paid_by(ps, p[x.0].0) - total(ps));
        assert(b[x.1] == n * paid_by(ps, p[x.1].0) - total(ps));
        assert(has_name(p, p[x.0].0));
        assert(has_name(p, p[x.1].0));
        assert(-n * EPSILON == -(n * EPSILON));
    }
}

/// Law: a split of `n` participants makes at most `n - 1` transactions.
pub proof fn law_split_transaction_count(ps: Seq<Payment>)
    ensures
        split_plan(ps).len() <= if count(ps) > 0 { count(ps) - 1 } else { 0 },
{
    law_balances(ps);
    if count(ps) > 0 {
        law_settlement_transfer_count(balances(ps), tolerance(ps));
    }
}

/// Law: after the plan, everyone has paid the exact average up to one cent
/// (`EPSILON`) for each of the other participants (the debts and credits
/// below a cent that are left alone), all `n` times over; and nobody
/// ends on the other side of the average or farther from it than before:
/// who paid too little pays at most the difference, who paid too much gets
/// back at most the excess.
pub proof fn law_everyone_pays_their_share(ps: Seq<Payment>)
    ensures
        forall|name: Seq<char>|
            has_name(participants(ps), name) ==> -(count(ps) - 1) * (count(ps) * EPSILON)
                <= #[trigger] contribution(ps, name) - total(ps) <= (count(ps) - 1) * (count(ps)
                * EPSILON),
        forall|name: Seq<char>|
            has_name(participants(ps), name) ==> between_zero_and(
                #[trigger] contribution(ps, name) - total(ps),
                count(ps) * paid_by(ps, name) - total(ps),
            ),
{
    law_participants(ps);
    law_balances(ps);
    let b = balances(ps);
    let p = participants(ps);
    let e = tolerance(ps);
    let n = count(ps);
    assert(e == n * EPSILON);
    if n > 0 {
        let txs = settlement(b, e).1;
        law_transfers_go_from_debtor_to_creditor(b, e);
        law_settlement_applies_transfers(b, e);
        law_settled_within_tolerance(b, e);
        law_apply_transfers(b, txs);
        assert forall|name: Seq<char>| has_name(p, name) implies -(n - 1) * e <= #[trigger] contribution(
            ps,
            name,
        ) - total(ps) <= (n - 1) * e && between_zero_and(
            contribution(ps, name) - total(ps),
            n * paid_by(ps, name) - total(ps),
        ) by {
            let k = choose|k: int| 0 <= k < p.len() && p[k].0 == name;
            lemma_plan_by_name(txs, p, k);
            assert(settlement(b, e).0[k] == b[k] + paid_out(txs, k) - paid_in(txs, k));
            assert(b[k] == n * paid_by(ps, name) - total(ps));
            assert(split_plan(ps) == txs.map_values(
                |t: (int, int, int)| (p[t.0].0, p[t.1].0, t.2),
            ));
            assert(-(n - 1) * e <= settlement(b, e).0[k] <= (n - 1) * e);
            assert(between_zero_and(settlement(b, e).0[k], b[k]));
        }
    }
}

/// Law: no debt or credit of more than a cent per other participant is
/// left unsettled: if the payments leave someone farther than that from the
/// exact average, the plan has at least one transaction. With two
/// participants, for instance, whose payments differ by more than two
/// cents, someone pays.
pub proof fn law_large_differences_are_settled(ps: Seq<Payment>, name: Seq<char>)
    requires
        has_name(participants(ps), name),
        count(ps) * paid_by(ps, name) - total(ps) > (count(ps) - 1) * (count(ps) * EPSILON)
            || count(ps) * paid_by(ps, name) - total(ps) < -(count(ps) - 1) * (count(ps)
            * EPSILON),
    ensures
        split_plan(ps).len() > 0,
{
    law_everyone_pays_their_share(ps);
    assert(contribution(ps, name) == count(ps) * paid_by(ps, name) + sent(split_plan(ps), name)
        - received(split_plan(ps), name));
    if split_plan(ps).len() == 0 {
        assert(sent(split_plan(ps), name) == 0);
        assert(received(split_plan(ps), name) == 0);
    }
}

/// Law: nobody pays more than they owe or receives more than they are owed
/// (against the exact average, `n` times over), and nobody both pays and
/// receives.
pub proof fn law_nobody_pays_more_than_owed(ps: Seq<Payment>)
    ensures
        forall|name: Seq<char>|
            #![trigger sent(split_plan(ps), name)]
            #![trigger received(split_plan(ps), name)]
            has_name(participants(ps), name) ==> {
                let s = sent(split_plan(ps), name);
                let r = received(split_plan(ps), name);
                let d = count(ps) * paid_by(ps, name) - total(ps);
                &&& s == 0 || r == 0
                &&& 0 <= s <= if d < 0 { -d } else { 0 }
                &&& 0 <= r <= if d > 0 { d } else { 0 }
            },
{
    law_participants(ps);
    law_balances(ps);
    let b = balances(ps);
    let p = participants(ps);
    let e = tolerance(ps);
    let n = count(ps);
    if n > 0 {
        let txs = settlement(b, e).1;
        law_transfers_go_from_debtor_to_creditor(b, e);
        law_settlement_applies_transfers(b, e);
        law_apply_transfers(b, txs);
        assert forall|name: Seq<char>| has_name(p, name) implies {
            let s = sent(split_plan(ps), name);
            let r = received(split_plan(ps), name);
            let d = n * paid_by(ps, name) - total(ps);
            &&& s == 0 || r == 0
            &&& 0 <= s <= if d < 0 { -d } else { 0 }
            &&& 0 <= r <= if d > 0 { d } else { 0 }
        } by {
            let k = choose|k: int| 0 <= k < p.len() && p[k].0 == name;
            lemma_plan_by_name(txs, p, k);
            lemma_untouched_position(txs, k);
            assert(split_plan(ps) == txs.map_values(
                |t: (int, int, int)| (p[t.0].0, p[t.1].0, t.2),
            ));
            assert(b[k] == n * paid_by(ps, name) - total(ps));
            assert(settlement(b, e).0[k] == b[k] + paid_out(txs, k) - paid_in(txs, k));
            assert(between_zero_and(settlement(b, e).0[k], b[k]));
            assert(e > 0);
            if b[k] >= 0 {
                assert forall|i: int| 0 <= i < txs.len() implies #[trigger] txs[i].0 != k by {
                    assert(b[txs[i].0] < -e);
                }
            }
            if b[k] <= 0 {
                assert forall|i: int| 0 <= i < txs.len() implies #[trigger] txs[i].1 != k by {
                    assert(b[txs[i].1] >= e);
                }
            }
        }
    }
}

/// Law: the split depends only on what each participant paid in total, not
/// on how the payments were entered or in which order: payments with the
/// same payers and the same totals per payer have the same participants and
/// the same plan.
pub proof fn law_split_depends_only_on_totals(ps: Seq<Payment>, qs: Seq<Payment>)
    requires
        forall|name: Seq<char>| #[trigger] is_payer(ps, name) <==> is_payer(qs, name),
        forall|name: Seq<char>| is_payer(ps, name) ==> #[trigger] paid_by(ps, name) == paid_by(qs, name),
    ensures
        participants(ps) == participants(qs),
        total(ps) == total(qs),
        split_plan(ps) == split_plan(qs),
        split_plan(ps) == split_plan(qs),
{
    law_participants(ps);
    law_participants(qs);
    let p = participants(ps);
    let q = participants(qs);
    assert forall|x: (Seq<char>, int)| p.contains(x) <==> q.contains(x) by {
        if p.contains(x) {
            let i = choose|i: int| 0 <= i < p.len() && p[i] == x;
            assert(has_name(p, x.0));
            assert(has_name(q, x.0));
            let j = choose|j: int| 0 <= j < q.len() && q[j].0 == x.0;
            assert(q[j] == x);
        }
        if q.contains(x) {
            let j = choose|j: int| 0 <= j < q.len() && q[j] == x;
            assert(has_name(q, x.0));
            assert(is_payer(qs, x.0));
            assert(has_name(p, x.0));
            let i = choose|i: int| 0 <= i < p.len() && p[i].0 == x.0;
            assert(p[i] == x);
        }
    }
    law_ordered_is_unique(p, q);
    assert(balances(ps) =~= balances(qs));
}

} // verus!
