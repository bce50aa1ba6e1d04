use pay_split::ledger::{drop_idle_blank, sort_ledger, tally_payments};
use pay_split::payment::Payment;
use pay_split::settle::{settle, Transfer, EPSILON};
use pay_split::split::{split_payments, SplitError};
use pay_split::transaction::Transaction;
use pay_split::window::{Page, Window};

fn pay(from: &str, amount: i64) -> Payment {
    Payment { from: from.to_string(), amount, valid: true }
}

fn triple(t: &Transaction) -> (String, String, i128, i128) {
    (t.from.clone(), t.to.clone(), t.amount, t.parts)
}

fn tx(from: &str, to: &str, amount: i128, parts: i128) -> (String, String, i128, i128) {
    (from.to_string(), to.to_string(), amount, parts)
}

fn transfers(ts: &[Transfer]) -> Vec<(usize, usize, i128)> {
    ts.iter().map(|t| (t.from, t.to, t.amount)).collect()
}

#[test]
fn settle_moves_from_front_to_back() {
    let (after, ts) = settle(&vec![-5, 2, 3], 1);
    assert_eq!(transfers(&ts), vec![(0, 2, 3), (0, 1, 2)]);
    assert_eq!(after, vec![0, 0, 0]);
}

#[test]
fn settle_empty_and_single() {
    let (after, ts) = settle(&vec![], 1);
    assert!(after.is_empty() && ts.is_empty());
    let (after, ts) = settle(&vec![7], 1);
    assert_eq!(after, vec![7]);
    assert!(ts.is_empty());
}

#[test]
fn settle_ignores_debts_of_one_unit() {
    assert_eq!(EPSILON, 1);
    let (after, ts) = settle(&vec![-1, 1], 1);
    assert!(ts.is_empty());
    assert_eq!(after, vec![-1, 1]);
}

#[test]
fn settle_skips_credit_below_one_unit() {
    // the back is owed nothing, so it is passed over
    let (after, ts) = settle(&vec![-4, 4, 0], 1);
    assert_eq!(transfers(&ts), vec![(0, 1, 4)]);
    assert_eq!(after, vec![0, 0, 0]);
}

#[test]
fn settled_balances_stay_within_tolerance() {
    // law: sorted, adding up to zero: everyone ends within eps per other participant
    let (after, ts) = settle(&vec![-7, -3, -1, 2, 3, 6], 1);
    assert_eq!(transfers(&ts), vec![(0, 5, 6), (1, 4, 3)]);
    assert_eq!(after, vec![-1, 0, -1, 2, 0, 0]);
    assert!(after.iter().all(|b| b.abs() <= 5));
    // law: no money is created or destroyed
    assert_eq!(after.iter().sum::<i128>(), 0);
    // law: at most n - 1 transfers
    assert!(ts.len() <= 5);
}

#[test]
fn credits_below_tolerance_are_left_alone() {
    let (after, ts) = settle(&vec![-6, 1, 1, 1, 1, 1, 1], 2);
    assert!(ts.is_empty());
    assert_eq!(after[0], -6);
    assert!(after.iter().all(|b| b.abs() <= 6 * 2));
}

#[test]
fn plan_moves_money_from_debtor_to_creditor() {
    // law: each transaction goes between two different participants, from
    // one below the share to one above it, by a positive amount
    let ps = vec![pay("a", 10), pay("b", 400), pay("c", 250), pay("d", 140)];
    let txs = split_payments(&ps).unwrap();
    assert!(!txs.is_empty());
    let share = 200i128;
    for t in &txs {
        let paid = |n: &str| ps.iter().find(|p| p.from == n).unwrap().amount as i128;
        assert_ne!(t.from, t.to);
        assert_eq!(t.parts, 4);
        assert!(t.amount >= t.parts * EPSILON);
        assert!(paid(&t.from) < share - EPSILON && paid(&t.to) >= share + EPSILON);
    }
}

#[test]
fn tally_sums_in_order_of_first_payment() {
    let ledger = tally_payments(&vec![pay("bob", 5), pay("ann", 3), pay("bob", 7)]);
    assert_eq!(ledger, vec![("bob".to_string(), 12), ("ann".to_string(), 3)]);
}

#[test]
fn idle_blank_is_dropped_and_busy_blank_kept() {
    let mut ledger = vec![("ann".to_string(), 3), (String::new(), 0)];
    drop_idle_blank(&mut ledger);
    assert_eq!(ledger, vec![("ann".to_string(), 3)]);
    let mut ledger = vec![("ann".to_string(), 3), (String::new(), 5)];
    drop_idle_blank(&mut ledger);
    assert_eq!(ledger.len(), 2);
}

#[test]
fn sort_is_by_amount_then_name() {
    let sorted = sort_ledger(&vec![
        ("c".to_string(), 5),
        ("b".to_string(), 1),
        ("a".to_string(), 5),
        ("d".to_string(), -2),
        ("ab".to_string(), 5),
    ]);
    let names: Vec<&str> = sorted.iter().map(|e| e.0.as_str()).collect();
    assert_eq!(names, vec!["d", "b", "a", "ab", "c"]);
}

#[test]
fn one_payer_is_paid_back_by_the_others() {
    let txs = split_payments(&vec![pay("alice", 3000), pay("bob", 0), pay("carol", 0)]).unwrap();
    let got: Vec<_> = txs.iter().map(triple).collect();
    assert_eq!(
        got,
        vec![
            tx("bob", "alice", 3000, 3),
            tx("carol", "alice", 3000, 3),
        ]
    );
}

#[test]
fn blank_row_takes_no_part() {
    let txs = split_payments(&vec![pay("alice", 3000), pay("bob", 1000), Payment::default()]).unwrap();
    let got: Vec<_> = txs.iter().map(triple).collect();
    assert_eq!(got, vec![tx("bob", "alice", 2000, 2)]);
}

#[test]
fn amounts_are_exact_thirds_of_a_cent() {
    let txs = split_payments(&vec![pay("a", 100), pay("b", 0), pay("c", 0)]).unwrap();
    let got: Vec<_> = txs.iter().map(triple).collect();
    assert_eq!(
        got,
        vec![tx("b", "a", 100, 3), tx("c", "a", 100, 3)]
    );
}

#[test]
fn negative_total_and_half_cents() {
    let txs = split_payments(&vec![pay("a", -101), pay("b", 0)]).unwrap();
    // the average is -50.5: a owes exactly 50.5 cents
    let got: Vec<_> = txs.iter().map(triple).collect();
    assert_eq!(got, vec![tx("a", "b", 101, 2)]);
}

#[test]
fn small_credits_against_the_exact_average_are_not_paid() {
    // average 10.25: a owes 2.25, each of the others is owed 0.75, below a cent
    let txs = split_payments(&vec![pay("a", 8), pay("b", 11), pay("c", 11), pay("d", 11)]).unwrap();
    assert!(txs.is_empty());
}

#[test]
fn debts_against_the_exact_average_are_settled() {
    // average 32/3: a and b each owe exactly 5/3 of a cent, and pay just that
    let txs = split_payments(&vec![pay("a", 9), pay("b", 9), pay("c", 14)]).unwrap();
    let got: Vec<_> = txs.iter().map(triple).collect();
    assert_eq!(
        got,
        vec![tx("a", "c", 5, 3), tx("b", "c", 5, 3)]
    );
    // law: nobody pays more than they owe: n * paid + sent equals the total
    for t in &txs {
        assert_eq!(3 * 9 + t.amount, 32);
    }
}

#[test]
fn row_order_does_not_matter() {
    // law: the split depends only on the totals per payer
    let one = split_payments(&vec![pay("x", 0), pay("y", 0), pay("z", 3000)]).unwrap();
    let two = split_payments(&vec![pay("y", 0), pay("x", 0), pay("z", 3000)]).unwrap();
    let one: Vec<_> = one.iter().map(triple).collect();
    let two: Vec<_> = two.iter().map(triple).collect();
    assert_eq!(one, two);
    assert_eq!(one[0], tx("x", "z", 3000, 3));
    assert!(one.len() <= 2);
}

#[test]
fn payments_of_one_person_are_summed() {
    let txs = split_payments(&vec![pay("x", 500), pay("y", 100), pay("x", 500)]).unwrap();
    let got: Vec<_> = txs.iter().map(triple).collect();
    assert_eq!(got, vec![tx("y", "x", 900, 2)]);
}

#[test]
fn everyone_pays_their_share() {
    // law: after the plan everyone has paid the average, up to EPSILON per
    // other participant, all n times over; nobody pays more than they owe
    let ps = vec![pay("a", 1200), pay("b", 300), pay("c", 0), pay("d", 900), pay("e", 1)];
    let txs = split_payments(&ps).unwrap();
    let n = 5i128;
    let total = 2401i128;
    for name in ["a", "b", "c", "d", "e"] {
        let paid: i128 = ps.iter().filter(|p| p.from == name).map(|p| p.amount as i128).sum();
        let sent: i128 = txs.iter().filter(|t| t.from == name).map(|t| t.amount).sum();
        let got: i128 = txs.iter().filter(|t| t.to == name).map(|t| t.amount).sum();
        let owed = n * paid - total;
        assert!((owed + sent - got).abs() <= (n - 1) * n * EPSILON);
        assert!(sent == 0 || got == 0);
        assert!(sent <= (-owed).max(0) && got <= owed.max(0));
    }
    assert!(txs.iter().all(|t| t.parts == n));
    assert!(txs.len() <= 4);
}

#[test]
fn no_participants_no_transactions() {
    assert!(split_payments(&vec![]).unwrap().is_empty());
    assert!(split_payments(&vec![Payment::default()]).unwrap().is_empty());
}

#[test]
fn unreadable_amount_is_an_error() {
    let mut bad = pay("bob", 0);
    bad.valid = false;
    assert_eq!(split_payments(&vec![pay("alice", 10), bad]).err(), Some(SplitError::InvalidPayment));
}

#[test]
fn amount_entry() {
    let mut p = pay("ann", 77);
    assert!(p.enter_amount("12.50", Some(1250)));
    assert_eq!((p.amount(), p.valid()), (1250, true));
    assert!(p.enter_amount("", None));
    assert_eq!((p.amount(), p.valid()), (0, true));
    assert!(!p.enter_amount("twelve", None));
    assert_eq!((p.amount(), p.valid()), (0, false));
    assert_eq!(p.from(), "ann");
}

#[test]
fn payment_accessors() {
    let mut p = Payment::default();
    assert_eq!((p.from(), p.amount(), p.valid()), (String::new(), 0, true));
    p.set_from("zoe");
    p.set_amount(-3);
    p.set_valid(false);
    assert_eq!((p.from(), p.amount(), p.valid()), ("zoe".to_string(), -3, false));
}

#[test]
fn transaction_new() {
    let t = Transaction::new("a", "b", 42, 5);
    assert_eq!(triple(&t), tx("a", "b", 42, 5));
}

#[test]
fn window_starts_with_one_blank_row() {
    let w = Window::new();
    assert_eq!(w.input.len(), 1);
    assert_eq!(w.input[0].from, "");
    assert_eq!(w.input[0].amount, 0);
    assert!(w.output.is_empty());
    assert_eq!(w.page, Page::Payments);
    w.maybe_add_row();
}

#[test]
fn window_split_and_back() {
    let mut w = Window::new();
    w.input[0].set_from("alice");
    w.input[0].set_amount(2000);
    w.add_row();
    w.input[1].set_from("bob");
    assert_eq!(w.split(true), Ok(()));
    assert_eq!(w.page, Page::Transactions);
    let got: Vec<_> = w.output.iter().map(triple).collect();
    assert_eq!(got, vec![tx("bob", "alice", 2000, 2)]);
    w.back_to_payments();
    assert_eq!(w.page, Page::Payments);
}

#[test]
fn window_split_unfolded_stays_on_page() {
    let mut w = Window::new();
    w.input[0].set_from("alice");
    assert_eq!(w.split(false), Ok(()));
    assert_eq!(w.page, Page::Payments);
}

#[test]
fn window_split_with_bad_row_keeps_old_result() {
    let mut w = Window::new();
    w.input[0].set_from("alice");
    w.input[0].set_amount(500);
    w.add_row();
    w.input[1].set_from("bob");
    assert_eq!(w.split(true), Ok(()));
    w.add_row();
    w.input[2].enter_amount("x", None);
    w.back_to_payments();
    assert_eq!(w.split(true), Err(SplitError::InvalidPayment));
    assert_eq!(w.output.len(), 1);
    assert_eq!(w.page, Page::Payments);
}
