//! Who paid how much in total: the payments summed up per participant.
//!
//! The ledger is a `Vec` of `(name, amount)` with no name twice. vstd's
//! specification of `BTreeMap` only means something for keys that obey its
//! model of `Ord`, and `String` is not known to; so the map is a vector
//! searched by name, and its order is made explicit: `sort_ledger` orders
//! it by amount and then by name, with the order of `names`, which is the
//! byte order that `String` compares by. The sort is an insertion sort
//! because a std sort of `String`s by a closure would give Verus nothing to
//! go on about the result.

use vstd::prelude::*;
use crate::payment::Payment;
use crate::names::{law_name_order, name_before, name_lt};
use crate::settle::{EPSILON, sum, sorted, lemma_sum_update};

verus! {

/// The ledger as names and mathematical integers.
pub open spec fn entries(l: Seq<(String, i128)>) -> Seq<(Seq<char>, int)> {
    l.map_values(|e: (String, i128)| (e.0@, e.1 as int))
}

/// No name occurs twice in the ledger.
pub open spec fn distinct_names(l: Seq<(Seq<char>, int)>) -> bool {
    forall|i: int, j: int| 0 <= i < j < l.len() ==> l[i].0 != l[j].0
}

/// The ledger has an entry for `name`.
pub open spec fn has_name(l: Seq<(Seq<char>, int)>, name: Seq<char>) -> bool {
    exists|i: int| 0 <= i < l.len() && l[i].0 == name
}

/// The ledger with `amount` added to what `name` paid; a name not yet in the
/// ledger is added at its end.
pub open spec fn credit(l: Seq<(Seq<char>, int)>, name: Seq<char>, amount: int) -> Seq<
    (Seq<char>, int),
> {
    if has_name(l, name) {
        let i = choose|i: int| 0 <= i < l.len() && l[i].0 == name;
        l.update(i, (name, l[i].1 + amount))
    } else {
        l.push((name, amount))
    }
}

/// The payments summed up per participant, in the order in which the
/// participants first occur.
pub open spec fn tally(ps: Seq<Payment>) -> Seq<(Seq<char>, int)>
    decreases ps.len(),
{
    if ps.len() == 0 {
        Seq::empty()
    } else {
        credit(tally(ps.drop_last()), ps.last().from@, ps.last().amount as int)
    }
}

/// What `name` paid in total.
pub open spec fn paid_by(ps: Seq<Payment>, name: Seq<char>) -> int
    decreases ps.len(),
{
    if ps.len() == 0 {
        0
    } else {
        paid_by(ps.drop_last(), name) + if ps.last().from@ == name {
            ps.last().amount as int
        } else {
            0int
        }
    }
}

/// What was paid in total.
pub open spec fn total(ps: Seq<Payment>) -> int
    decreases ps.len(),
{
    if ps.len() == 0 {
        0
    } else {
        total(ps.drop_last()) + ps.last().amount as int
    }
}

/// `name` made at least one of the payments.
pub open spec fn is_payer(ps: Seq<Payment>, name: Seq<char>) -> bool {
    exists|j: int| 0 <= j < ps.len() && ps[j].from@ == name
}

/// The amounts of the ledger.
pub open spec fn amounts(l: Seq<(Seq<char>, int)>) -> Seq<int> {
    l.map_values(|e: (Seq<char>, int)| e.1)
}

/// Sums the payments up per participant, in the order in which the
/// participants first occur.
pub fn tally_payments(payments: &Vec<Payment>) -> (ledger: Vec<(String, i128)>)
    ensures
        entries(ledger@) == tally(payments@),
        ledger.len() <= payments.len(),
        forall|i: int|
            0 <= i < ledger.len() ==> -(payments.len() as int) * 0x8000_0000_0000_0000
                <= #[trigger] ledger[i].1 <= (payments.len() as int) * 0x8000_0000_0000_0000,
{
    let mut ledger: Vec<(String, i128)> = Vec::new();
    let mut k: usize = 0;
    assert(payments@.take(0) =~= Seq::<Payment>::empty());
    assert(entries(ledger@) =~= Seq::empty());
    while k < payments.len()
        invariant
            k <= payments.len(),
            entries(ledger@) == tally(payments@.take(k as int)),
            ledger.len() <= k,
            distinct_names(entries(ledger@)),
            forall|i: int|
                0 <= i < ledger.len() ==> -(k as int) * 0x8000_0000_0000_0000 <= #[trigger] ledger[i].1
                    <= (k as int) * 0x8000_0000_0000_0000,
        decreases payments.len() - k,
    {
        let p = &payments[k];
        let ghost before = entries(ledger@);
        assert(payments@.take(k + 1).drop_last() =~= payments@.take(k as int));
        assert(payments@.take(k + 1).last() == p);
        let mut i: usize = 0;
        while i < ledger.len() && !(ledger[i].0 == p.from)
            invariant
                i <= ledger.len(),
                forall|j: int| 0 <= j < i ==> ledger[j].0@ != p.from@,
            decreases ledger.len() - i,
        {
            i = i + 1;
        }
        if i < ledger.len() {
            let name = ledger[i].0.clone();
            let paid = ledger[i].1 + p.amount as i128;
            ledger.set(i, (name, paid));
            proof {
                assert(before[i as int].0 == p.from@);
                assert(has_name(before, p.from@));
                let j = choose|j: int| 0 <= j < before.len() && before[j].0 == p.from@;
                assert(j == i);
                assert(entries(ledger@) =~= before.update(i as int, (p.from@, before[i as int].1 + p.amount)));
            }
        } else {
            ledger.push((p.from.clone(), p.amount as i128));
            proof {
                assert(!has_name(before, p.from@));
                assert(entries(ledger@) =~= before.push((p.from@, p.amount as int)));
            }
        }
        k = k + 1;
    }
    assert(payments@.take(k as int) =~= payments@);
    ledger
}

proof fn lemma_not_payer_paid_nothing(ps: Seq<Payment>, name: Seq<char>)
    requires
        !is_payer(ps, name),
    ensures
        paid_by(ps, name) == 0,
    decreases ps.len(),
{
    if ps.len() > 0 {
        assert forall|j: int| 0 <= j < ps.drop_last().len() implies ps.drop_last()[j].from@ != name by {
            assert(ps[j] == ps.drop_last()[j]);
        }
        lemma_not_payer_paid_nothing(ps.drop_last(), name);
        assert(ps[ps.len() - 1] == ps.last());
    }
}

proof fn lemma_is_payer_step(ps: Seq<Payment>, name: Seq<char>)
    requires
        ps.len() > 0,
    ensures
        is_payer(ps, name) == (is_payer(ps.drop_last(), name) || ps.last().from@ == name),
{
    if is_payer(ps.drop_last(), name) {
        let j = choose|j: int| 0 <= j < ps.drop_last().len() && ps.drop_last()[j].from@ == name;
        assert(ps[j] == ps.drop_last()[j]);
    }
    if ps.last().from@ == name {
        assert(ps[ps.len() - 1] == ps.last());
    }
    if is_payer(ps, name) {
        let j = choose|j: int| 0 <= j < ps.len() && ps[j].from@ == name;
        if j < ps.len() - 1 {
            assert(ps[j] == ps.drop_last()[j]);
        }
    }
}

/// Law: the tally has one entry per participant who made a payment and no
/// other, each with what that participant paid in total, and the tally adds
/// up to what was paid in total.
pub proof fn law_tally_sums_per_participant(ps: Seq<Payment>)
    ensures
        distinct_names(tally(ps)),
        forall|i: int|
            0 <= i < tally(ps).len() ==> #[trigger] tally(ps)[i].1 == paid_by(ps, tally(ps)[i].0),
        forall|name: Seq<char>| has_name(tally(ps), name) <==> is_payer(ps, name),
        sum(amounts(tally(ps))) == total(ps),
    decreases ps.len(),
{
    if ps.len() == 0 {
        assert(amounts(tally(ps)) =~= Seq::empty());
    } else {
        let prev = tally(ps.drop_last());
        let x = ps.last();
        let name = x.from@;
        let amount = x.amount as int;
        law_tally_sums_per_participant(ps.drop_last());
        assert forall|n: Seq<char>| is_payer(ps, n) == (is_payer(ps.drop_last(), n) || n == name) by {
            lemma_is_payer_step(ps, n);
        }
        let cur = tally(ps);
        if has_name(prev, name) {
            let i = choose|i: int| 0 <= i < prev.len() && prev[i].0 == name;
            assert(cur == prev.update(i, (name, prev[i].1 + amount)));
            assert forall|j: int| 0 <= j < cur.len() implies #[trigger] cur[j].1 == paid_by(ps, cur[j].0) by {
                if j != i {
                    assert(cur[j] == prev[j]);
                    assert(prev[j].1 == paid_by(ps.drop_last(), prev[j].0));
                }
            }
            assert forall|n: Seq<char>| has_name(cur, n) <==> is_payer(ps, n) by {
                if has_name(cur, n) {
                    let j = choose|j: int| 0 <= j < cur.len() && cur[j].0 == n;
                    assert(prev[j].0 == n);
                }
                if has_name(prev, n) {
                    let j = choose|j: int| 0 <= j < prev.len() && prev[j].0 == n;
                    assert(cur[j].0 == n);
                }
            }
            assert(amounts(cur) =~= amounts(prev).update(i, prev[i].1 + amount));
            lemma_sum_update(amounts(prev), i, prev[i].1 + amount);
        } else {
            assert(cur == prev.push((name, amount)));
            lemma_not_payer_paid_nothing(ps.drop_last(), name);
            assert forall|j: int| 0 <= j < cur.len() implies #[trigger] cur[j].1 == paid_by(ps, cur[j].0) by {
                if j < prev.len() {
                    assert(cur[j] == prev[j]);
                    assert(prev[j].1 == paid_by(ps.drop_last(), prev[j].0));
                    assert(prev[j].0 != name);
                }
            }
            assert forall|n: Seq<char>| has_name(cur, n) <==> is_payer(ps, n) by {
                if has_name(cur, n) {
                    let j = choose|j: int| 0 <= j < cur.len() && cur[j].0 == n;
                    if j < prev.len() {
                        assert(prev[j].0 == n);
                    }
                }
                if has_name(prev, n) {
                    let j = choose|j: int| 0 <= j < prev.len() && prev[j].0 == n;
                    assert(cur[j].0 == n);
                }
                if n == name {
                    assert(cur[prev.len() as int].0 == n);
                }
            }
            assert(amounts(cur).drop_last() =~= amounts(prev));
        }
    }
}

/// A ledger entry with an empty name and an amount within `EPSILON` of
/// zero: what a blank row adds up to.
pub open spec fn is_idle_blank(e: (Seq<char>, int)) -> bool {
    e.0.len() == 0 && -EPSILON < e.1 < EPSILON
}

/// The ledger without the entry of an idle blank row, if it has one.
pub open spec fn without_idle_blank(l: Seq<(Seq<char>, int)>) -> Seq<(Seq<char>, int)> {
    if exists|i: int| 0 <= i < l.len() && is_idle_blank(l[i]) {
        l.remove(choose|i: int| 0 <= i < l.len() && is_idle_blank(l[i]))
    } else {
        l
    }
}

/// Removes the entry without a name from the ledger, if what it adds up to
/// is within `EPSILON` of zero.
pub fn drop_idle_blank(ledger: &mut Vec<(String, i128)>)
    requires
        distinct_names(entries(old(ledger)@)),
    ensures
        entries(final(ledger)@) == without_idle_blank(entries(old(ledger)@)),
{
    let ghost before = entries(ledger@);
    let mut i: usize = 0;
    while i < ledger.len() && !ledger[i].0.as_str().is_empty()
        invariant
            i <= ledger.len(),
            forall|j: int| 0 <= j < i ==> ledger[j].0@.len() != 0,
        decreases ledger.len() - i,
    {
        i = i + 1;
    }
    if i < ledger.len() && -EPSILON < ledger[i].1 && ledger[i].1 < EPSILON {
        proof {
            assert(is_idle_blank(before[i as int]));
            let j = choose|j: int| 0 <= j < before.len() && is_idle_blank(before[j]);
            assert(before[j].0 =~= before[i as int].0);
            assert(j == i);
        }
        ledger.remove(i);
        assert(entries(ledger@) =~= before.remove(i as int));
    } else {
        assert forall|j: int| 0 <= j < before.len() implies !is_idle_blank(before[j]) by {
            if i < before.len() && j != i && before[j].0.len() == 0 {
                assert(before[j].0 =~= before[i as int].0);
            }
        }
    }
}

/// Entry `e` comes before entry `f`: it has the smaller amount, or the same
/// amount and a name that comes first.
pub open spec fn key_lt(e: (Seq<char>, int), f: (Seq<char>, int)) -> bool {
    e.1 < f.1 || (e.1 == f.1 && name_lt(e.0, f.0))
}

/// Every entry of the ledger comes before every later one.
pub open spec fn ordered(s: Seq<(Seq<char>, int)>) -> bool {
    forall|i: int, j: int| 0 <= i < j < s.len() ==> key_lt(s[i], s[j])
}

/// The order of entries is a strict order, total on entries with different
/// names.
proof fn lemma_key_order(e: (Seq<char>, int), f: (Seq<char>, int), g: (Seq<char>, int))
    ensures
        !(key_lt(e, f) && key_lt(f, e)),
        key_lt(e, f) && key_lt(f, g) ==> key_lt(e, g),
        e.0 != f.0 ==> key_lt(e, f) || key_lt(f, e),
{
    law_name_order(e.0, f.0, g.0);
}

/// The ledger with entry `e` inserted after every entry that comes before
/// it and before the others that follow them.
pub open spec fn insert_by_key(s: Seq<(Seq<char>, int)>, e: (Seq<char>, int)) -> Seq<
    (Seq<char>, int),
>
    decreases s.len(),
{
    if s.len() == 0 {
        seq![e]
    } else if !key_lt(e, s.last()) {
        s.push(e)
    } else {
        insert_by_key(s.drop_last(), e).push(s.last())
    }
}

/// The ledger sorted by amount, ascending, and among equal amounts by
/// name.
pub open spec fn sort_by_key(s: Seq<(Seq<char>, int)>) -> Seq<(Seq<char>, int)>
    decreases s.len(),
{
    if s.len() == 0 {
        s
    } else {
        insert_by_key(sort_by_key(s.drop_last()), s.last())
    }
}

proof fn lemma_insert_at(s: Seq<(Seq<char>, int)>, e: (Seq<char>, int), pos: int)
    requires
        0 <= pos <= s.len(),
        forall|j: int| pos <= j < s.len() ==> key_lt(e, s[j]),
        pos == 0 || !key_lt(e, s[pos - 1]),
    ensures
        insert_by_key(s, e) == s.insert(pos, e),
    decreases s.len(),
{
    if s.len() == 0 {
        assert(s.insert(pos, e) =~= seq![e]);
    } else if pos == s.len() {
        assert(s.insert(pos, e) =~= s.push(e));
    } else {
        lemma_insert_at(s.drop_last(), e, pos);
        assert(s.insert(pos, e) =~= s.drop_last().insert(pos, e).push(s.last()));
    }
}

/// Sorts the ledger by amount, ascending, and among equal amounts by name.
pub fn sort_ledger(ledger: &Vec<(String, i128)>) -> (sorted: Vec<(String, i128)>)
    ensures
        entries(sorted@) == sort_by_key(entries(ledger@)),
{
    let mut res: Vec<(String, i128)> = Vec::new();
    let mut k: usize = 0;
    assert(entries(ledger@).take(0) =~= Seq::empty());
    assert(entries(res@) =~= Seq::empty());
    while k < ledger.len()
        invariant
            k <= ledger.len(),
            entries(res@) == sort_by_key(entries(ledger@).take(k as int)),
        decreases ledger.len() - k,
    {
        let name = ledger[k].0.clone();
        let amount = ledger[k].1;
        let ghost e = (name@, amount as int);
        let mut pos: usize = res.len();
        while pos > 0 && (res[pos - 1].1 > amount || (res[pos - 1].1 == amount && name_before(
            &name,
            &res[pos - 1].0,
        )))
            invariant
                pos <= res.len(),
                e == (name@, amount as int),
                forall|j: int| pos <= j < res.len() ==> key_lt(e, entries(res@)[j]),
            decreases pos,
        {
            pos = pos - 1;
        }
        let ghost before = entries(res@);
        proof {
            lemma_insert_at(before, e, pos as int);
            assert(entries(ledger@).take(k + 1).drop_last() =~= entries(ledger@).take(k as int));
            assert(entries(ledger@).take(k + 1).last() == e);
        }
        res.insert(pos, (name, amount));
        assert(entries(res@) =~= before.insert(pos as int, e));
        k = k + 1;
    }
    assert(entries(ledger@).take(k as int) =~= entries(ledger@));
    res
}

proof fn lemma_has_name_contains(l: Seq<(Seq<char>, int)>, n: Seq<char>)
    ensures
        has_name(l, n) <==> exists|x: (Seq<char>, int)| l.contains(x) && x.0 == n,
{
    if has_name(l, n) {
        let i = choose|i: int| 0 <= i < l.len() && l[i].0 == n;
        assert(l.contains(l[i]));
    }
    if exists|x: (Seq<char>, int)| l.contains(x) && x.0 == n {
        let x = choose|x: (Seq<char>, int)| l.contains(x) && x.0 == n;
        let i = choose|i: int| 0 <= i < l.len() && l[i] == x;
        assert(l[i].0 == n);
    }
}

proof fn lemma_insert_by_key(s: Seq<(Seq<char>, int)>, e: (Seq<char>, int))
    ensures
        insert_by_key(s, e).len() == s.len() + 1,
        forall|x: (Seq<char>, int)| #[trigger]
            insert_by_key(s, e).contains(x) <==> (s.contains(x) || x == e),
        forall|n: Seq<char>| #[trigger]
            has_name(insert_by_key(s, e), n) <==> (has_name(s, n) || n == e.0),
        sum(amounts(insert_by_key(s, e))) == sum(amounts(s)) + e.1,
        distinct_names(s) && !has_name(s, e.0) && ordered(s) ==> ordered(insert_by_key(s, e)),
        distinct_names(s) && !has_name(s, e.0) ==> distinct_names(insert_by_key(s, e)),
    decreases s.len(),
{
    let ins = insert_by_key(s, e);
    if s.len() == 0 {
        assert(ins =~= seq![e]);
        assert(ins[0] == e);
        assert(amounts(ins).drop_last() =~= Seq::<int>::empty());
        assert(amounts(ins).last() == e.1);
        assert(amounts(s).len() == 0);
        assert(sum(amounts(s)) == 0);
        assert(sum(amounts(ins).drop_last()) == 0);
        assert(sum(amounts(ins)) == sum(amounts(s)) + e.1);
        assert forall|x: (Seq<char>, int)| #[trigger] ins.contains(x) <==> (s.contains(x) || x == e) by {
            if ins.contains(x) {
                let i = choose|i: int| 0 <= i < ins.len() && ins[i] == x;
            }
        }
    } else if !key_lt(e, s.last()) {
        assert(ins == s.push(e));
        assert(amounts(ins).drop_last() =~= amounts(s));
        assert(amounts(ins).last() == e.1);
        assert(sum(amounts(ins)) == sum(amounts(s)) + e.1);
        assert forall|x: (Seq<char>, int)| #[trigger] ins.contains(x) <==> (s.contains(x) || x == e) by {
            if ins.contains(x) {
                let i = choose|i: int| 0 <= i < ins.len() && ins[i] == x;
                if i < s.len() {
                    assert(s[i] == x);
                }
            }
            if s.contains(x) {
                let i = choose|i: int| 0 <= i < s.len() && s[i] == x;
                assert(ins[i] == x);
            }
            if x == e {
                assert(ins[s.len() as int] == x);
            }
        }
        if distinct_names(s) && !has_name(s, e.0) && ordered(s) {
            assert(s[s.len() - 1].0 != e.0);
            lemma_key_order(e, s.last(), e);
            assert forall|i: int, j: int| 0 <= i < j < ins.len() implies key_lt(ins[i], ins[j]) by {
                if j == s.len() {
                    if i < s.len() - 1 {
                        lemma_key_order(s[i], s.last(), e);
                    }
                } else {
                    assert(ins[i] == s[i] && ins[j] == s[j]);
                }
            }
        }
        if distinct_names(s) && !has_name(s, e.0) {
            assert forall|i: int, j: int| 0 <= i < j < ins.len() implies ins[i].0 != ins[j].0 by {
                if j == s.len() {
                    assert(s[i].0 == ins[i].0);
                }
            }
        }
    } else {
        let dl = s.drop_last();
        let last = s.last();
        let inner = insert_by_key(dl, e);
        lemma_insert_by_key(dl, e);
        assert(ins == inner.push(last));
        assert(amounts(ins).drop_last() =~= amounts(inner));
        assert(amounts(ins).last() == last.1);
        assert(s =~= dl.push(last));
        assert(amounts(s).drop_last() =~= amounts(dl));
        assert(amounts(s).last() == last.1);
        assert(sum(amounts(ins)) == sum(amounts(inner)) + last.1);
        assert(sum(amounts(s)) == sum(amounts(dl)) + last.1);
        assert(sum(amounts(ins)) == sum(amounts(s)) + e.1);
        assert forall|x: (Seq<char>, int)| #[trigger] ins.contains(x) <==> (s.contains(x) || x == e) by {
            if ins.contains(x) {
                let i = choose|i: int| 0 <= i < ins.len() && ins[i] == x;
                if i < inner.len() {
                    assert(inner[i] == x);
                    assert(inner.contains(x));
                    if dl.contains(x) {
                        let k = choose|k: int| 0 <= k < dl.len() && dl[k] == x;
                        assert(s[k] == x);
                    }
                } else {
                    assert(s[s.len() - 1] == x);
                }
            }
            if s.contains(x) {
                let i = choose|i: int| 0 <= i < s.len() && s[i] == x;
                if i < dl.len() {
                    assert(dl[i] == x);
                    assert(dl.contains(x));
                    assert(inner.contains(x));
                    let k = choose|k: int| 0 <= k < inner.len() && inner[k] == x;
                    assert(ins[k] == x);
                } else {
                    assert(ins[inner.len() as int] == x);
                }
            }
            if x == e {
                assert(inner.contains(x));
                let k = choose|k: int| 0 <= k < inner.len() && inner[k] == x;
                assert(ins[k] == x);
            }
        }
        if distinct_names(s) && !has_name(s, e.0) && ordered(s) {
            assert(!has_name(dl, e.0)) by {
                if has_name(dl, e.0) {
                    let k = choose|k: int| 0 <= k < dl.len() && dl[k].0 == e.0;
                    assert(s[k].0 == e.0);
                }
            }
            assert(ordered(dl)) by {
                assert forall|i: int, j: int| 0 <= i < j < dl.len() implies key_lt(dl[i], dl[j]) by {
                    assert(dl[i] == s[i] && dl[j] == s[j]);
                }
            }
            assert(distinct_names(dl));
            assert forall|i: int, j: int| 0 <= i < j < ins.len() implies key_lt(ins[i], ins[j]) by {
                if j == inner.len() {
                    assert(inner.contains(inner[i]));
                    if dl.contains(inner[i]) {
                        let k = choose|k: int| 0 <= k < dl.len() && dl[k] == inner[i];
                        assert(s[k] == dl[k]);
                    }
                } else {
                    assert(ins[i] == inner[i] && ins[j] == inner[j]);
                }
            }
        }
        if distinct_names(s) && !has_name(s, e.0) {
            assert(distinct_names(dl));
            assert(!has_name(dl, e.0)) by {
                if has_name(dl, e.0) {
                    let k = choose|k: int| 0 <= k < dl.len() && dl[k].0 == e.0;
                    assert(s[k].0 == e.0);
                }
            }
            assert forall|i: int, j: int| 0 <= i < j < ins.len() implies ins[i].0 != ins[j].0 by {
                if j == inner.len() {
                    assert(inner.contains(inner[i]));
                    if dl.contains(inner[i]) {
                        let k = choose|k: int| 0 <= k < dl.len() && dl[k] == inner[i];
                        assert(s[k] == dl[k]);
                    } else {
                        assert(s[s.len() - 1].0 != e.0);
                    }
                } else {
                    assert(inner[i].0 != inner[j].0);
                }
            }
        }
    }
    assert forall|n: Seq<char>| #[trigger] has_name(ins, n) <==> (has_name(s, n) || n == e.0) by {
        lemma_has_name_contains(ins, n);
        lemma_has_name_contains(s, n);
        if n == e.0 {
            assert(ins.contains(e));
        }
        if has_name(ins, n) {
            let x = choose|x: (Seq<char>, int)| ins.contains(x) && x.0 == n;
            if s.contains(x) {
            }
        }
        if has_name(s, n) {
            let x = choose|x: (Seq<char>, int)| s.contains(x) && x.0 == n;
            assert(ins.contains(x));
        }
    }
}

/// Law: sorting keeps the entries of the ledger, and what they add up to;
/// a ledger without repeated names stays so and comes out ordered: by
/// amount, ascending, and among equal amounts by name.
pub proof fn law_sort_by_key(s: Seq<(Seq<char>, int)>)
    ensures
        sort_by_key(s).len() == s.len(),
        forall|x: (Seq<char>, int)| #[trigger] sort_by_key(s).contains(x) <==> s.contains(x),
        forall|n: Seq<char>| #[trigger] has_name(sort_by_key(s), n) <==> has_name(s, n),
        sum(amounts(sort_by_key(s))) == sum(amounts(s)),
        distinct_names(s) ==> distinct_names(sort_by_key(s)),
        distinct_names(s) ==> ordered(sort_by_key(s)),
        distinct_names(s) ==> sorted(amounts(sort_by_key(s))),
    decreases s.len(),
{
    if s.len() == 0 {
        assert(amounts(s) =~= Seq::<int>::empty());
    } else {
        let dl = s.drop_last();
        let last = s.last();
        law_sort_by_key(dl);
        lemma_insert_by_key(sort_by_key(dl), last);
        assert(s =~= dl.push(last));
        assert(amounts(s).drop_last() =~= amounts(dl));
        assert forall|x: (Seq<char>, int)| #[trigger] sort_by_key(s).contains(x) <==> s.contains(x) by {
            if s.contains(x) {
                let i = choose|i: int| 0 <= i < s.len() && s[i] == x;
                if i < dl.len() {
                    assert(dl[i] == x);
                    assert(dl.contains(x));
                }
            }
            if dl.contains(x) {
                let i = choose|i: int| 0 <= i < dl.len() && dl[i] == x;
                assert(s[i] == x);
            }
            if x == last {
                assert(s[s.len() - 1] == x);
            }
        }
        assert forall|n: Seq<char>| #[trigger] has_name(sort_by_key(s), n) <==> has_name(s, n) by {
            if has_name(s, n) {
                let i = choose|i: int| 0 <= i < s.len() && s[i].0 == n;
                if i < dl.len() {
                    assert(dl[i].0 == n);
                }
            }
            if has_name(dl, n) {
                let i = choose|i: int| 0 <= i < dl.len() && dl[i].0 == n;
                assert(s[i].0 == n);
            }
            if n == last.0 {
                assert(s[s.len() - 1].0 == n);
            }
        }
        if distinct_names(s) {
            assert(distinct_names(dl));
            assert(!has_name(dl, last.0)) by {
                if has_name(dl, last.0) {
                    let k = choose|k: int| 0 <= k < dl.len() && dl[k].0 == last.0;
                    assert(s[k].0 == s[s.len() - 1].0);
                }
            }
            let r = sort_by_key(s);
            assert forall|i: int, j: int| 0 <= i <= j < amounts(r).len() implies amounts(r)[i]
                <= amounts(r)[j] by {
                if i < j {
                    assert(key_lt(r[i], r[j]));
                }
            }
        }
    }
}

proof fn lemma_sum_remove(s: Seq<int>, i: int)
    requires
        0 <= i < s.len(),
    ensures
        sum(s.remove(i)) == sum(s) - s[i],
    decreases s.len(),
{
    if i == s.len() - 1 {
        assert(s.remove(i) =~= s.drop_last());
    } else {
        lemma_sum_remove(s.drop_last(), i);
        assert(s.remove(i).drop_last() =~= s.drop_last().remove(i));
        assert(s.remove(i).last() == s.last());
    }
}

/// Law: dropping the idle blank row keeps every other entry and what the
/// ledger adds up to, and adds no repeated name.
pub proof fn law_without_idle_blank(l: Seq<(Seq<char>, int)>)
    ensures
        forall|x: (Seq<char>, int)| #[trigger] without_idle_blank(l).contains(x) ==> l.contains(x),
        forall|x: (Seq<char>, int)|
            l.contains(x) && !is_idle_blank(x) ==> #[trigger] without_idle_blank(l).contains(x),
        distinct_names(l) ==> forall|x: (Seq<char>, int)| #[trigger]
            without_idle_blank(l).contains(x) ==> !is_idle_blank(x),
        distinct_names(l) ==> distinct_names(without_idle_blank(l)),
        sum(amounts(without_idle_blank(l))) == sum(amounts(l)),
        without_idle_blank(l).len() <= l.len(),
{
    let w = without_idle_blank(l);
    if exists|i: int| 0 <= i < l.len() && is_idle_blank(l[i]) {
        let i = choose|i: int| 0 <= i < l.len() && is_idle_blank(l[i]);
        assert(w == l.remove(i));
        assert forall|x: (Seq<char>, int)| #[trigger] w.contains(x) implies l.contains(x) by {
            let j = choose|j: int| 0 <= j < w.len() && w[j] == x;
            if j < i {
                assert(l[j] == x);
            } else {
                assert(l[j + 1] == x);
            }
        }
        assert forall|x: (Seq<char>, int)| l.contains(x) && !is_idle_blank(x) implies #[trigger] w.contains(x) by {
            let j = choose|j: int| 0 <= j < l.len() && l[j] == x;
            if j < i {
                assert(w[j] == x);
            } else {
                assert(j != i);
                assert(w[j - 1] == x);
            }
        }
        assert(amounts(w) =~= amounts(l).remove(i));
        lemma_sum_remove(amounts(l), i);
        assert(amounts(l)[i] == 0);
        if distinct_names(l) {
            assert forall|a: int, b: int| 0 <= a < b < w.len() implies w[a].0 != w[b].0 by {
                let a2 = if a < i { a } else { a + 1 };
                let b2 = if b < i { b } else { b + 1 };
                assert(w[a] == l[a2]);
                assert(w[b] == l[b2]);
            }
        }
        if distinct_names(l) {
            assert forall|x: (Seq<char>, int)| #[trigger] w.contains(x) implies !is_idle_blank(x) by {
                let j = choose|j: int| 0 <= j < w.len() && w[j] == x;
                if is_idle_blank(x) {
                    let j2 = if j < i { j } else { j + 1 };
                    assert(l[j2] == x);
                    assert(l[j2].0 =~= l[i].0);
                }
            }
        }
    } else {
        assert forall|x: (Seq<char>, int)| #[trigger] w.contains(x) implies !is_idle_blank(x) by {
            let j = choose|j: int| 0 <= j < w.len() && w[j] == x;
        }
    }
}

/// Law: an ordered ledger is determined by its entries: two ordered ledgers
/// with the same entries are the same.
pub proof fn law_ordered_is_unique(s: Seq<(Seq<char>, int)>, t: Seq<(Seq<char>, int)>)
    requires
        ordered(s),
        ordered(t),
        forall|x: (Seq<char>, int)| s.contains(x) <==> t.contains(x),
    ensures
        s == t,
    decreases s.len(),
{
    if s.len() == 0 || t.len() == 0 {
        if s.len() > 0 {
            assert(s.contains(s[0]));
        }
        if t.len() > 0 {
            assert(t.contains(t[0]));
        }
        assert(s =~= t);
    } else {
        assert(s.contains(s[0]));
        assert(t.contains(t[0]));
        let k = choose|k: int| 0 <= k < t.len() && t[k] == s[0];
        let m = choose|m: int| 0 <= m < s.len() && s[m] == t[0];
        lemma_key_order(s[0], t[0], s[0]);
        if k > 0 && m > 0 {
            assert(key_lt(t[0], t[k]));
            assert(key_lt(s[0], s[m]));
        }
        assert(s[0] == t[0]);
        let sd = s.drop_first();
        let td = t.drop_first();
        assert forall|x: (Seq<char>, int)| sd.contains(x) <==> td.contains(x) by {
            if sd.contains(x) {
                let i = choose|i: int| 0 <= i < sd.len() && sd[i] == x;
                assert(s[i + 1] == x);
                assert(key_lt(s[0], s[i + 1]));
                lemma_key_order(x, x, x);
                assert(t.contains(x));
                let j = choose|j: int| 0 <= j < t.len() && t[j] == x;
                assert(j != 0);
                assert(td[j - 1] == x);
            }
            if td.contains(x) {
                let i = choose|i: int| 0 <= i < td.len() && td[i] == x;
                assert(t[i + 1] == x);
                assert(key_lt(t[0], t[i + 1]));
                lemma_key_order(x, x, x);
                assert(s.contains(x));
                let j = choose|j: int| 0 <= j < s.len() && s[j] == x;
                assert(j != 0);
                assert(sd[j - 1] == x);
            }
        }
        assert(ordered(sd)) by {
            assert forall|i: int, j: int| 0 <= i < j < sd.len() implies key_lt(sd[i], sd[j]) by {
                assert(sd[i] == s[i + 1] && sd[j] == s[j + 1]);
            }
        }
        assert(ordered(td)) by {
            assert forall|i: int, j: int| 0 <= i < j < td.len() implies key_lt(td[i], td[j]) by {
                assert(td[i] == t[i + 1] && td[j] == t[j + 1]);
            }
        }
        law_ordered_is_unique(sd, td);
        assert(s =~= seq![s[0]] + sd);
        assert(t =~= seq![t[0]] + td);
    }
}

} // verus!
