//! Laws of the ledger, proved over the model.
//!
//! Each public proof function states one guarantee of the whole system:
//! how task shares relate to task costs, what direct transfers do to
//! balances, and what renaming and removal leave untouched.

use vstd::prelude::*;
use crate::model::{
    LedgerState, pnames, tnames, part_names, task_names, index_of_name, lemma_index_of_name,
    lemma_index_of_name_unique, wf, participant_wf, task_wf, distinct_names, replace_name,
    replace_names, remove_name, remove_tasks_named, apply_rename, apply_transfer,
    apply_remove_participant, lemma_remove_names_empty, lemma_remove_tasks_named_empty,
    lemma_remove_tasks_named_props,
};
use crate::balance::{
    shares_nd, share_step, sum_costs, sum_ints, balance_minor, balance_result,
};

verus! {

/// The fraction obtained by summing `m` equal shares `c / k`.
pub open spec fn repeat_share(c: int, k: int, m: nat) -> (int, int)
    decreases m,
{
    if m == 0 {
        (0int, 1int)
    } else {
        share_step(repeat_share(c, k, (m - 1) as nat), c, k)
    }
}

proof fn lemma_repeat_share_value(c: int, k: int, m: nat)
    requires
        k >= 1,
    ensures
        repeat_share(c, k, m).1 >= 1,
        repeat_share(c, k, m).0 * k == m * c * repeat_share(c, k, m).1,
    decreases m,
{
    if m == 0 {
        assert(repeat_share(c, k, m) == (0int, 1int));
        assert(repeat_share(c, k, m).0 * k == 0) by (nonlinear_arith)
            requires
                repeat_share(c, k, m).0 == 0,
        ;
        assert(m * c * repeat_share(c, k, m).1 == 0) by (nonlinear_arith)
            requires
                m == 0,
                repeat_share(c, k, m).1 == 1,
        ;
    } else {
        lemma_repeat_share_value(c, k, (m - 1) as nat);
        let r = repeat_share(c, k, (m - 1) as nat);
        assert(repeat_share(c, k, m) == share_step(r, c, k));
        let a = r.0;
        let b = r.1;
        assert((a * k + c * b) * k == m * c * (b * k)) by (nonlinear_arith)
            requires
                a * k == (m - 1) * c * b,
                b >= 1,
                k >= 1,
                m >= 1,
        ;
        assert(b * k >= 1) by (nonlinear_arith)
            requires
                b >= 1,
                k >= 1,
        ;
    }
}

/// A task's cost is fully covered by its members' shares: summing the
/// share `cost/members` once per member yields, as an exact rational,
/// the cost itself.
pub proof fn lemma_task_shares_cover_cost(s: LedgerState, j: int)
    requires
        wf(s),
        0 <= j < s.tasks.len(),
    ensures
        ({
            let c = s.tasks[j].cost;
            let m = s.tasks[j].members.len();
            let r = repeat_share(c, m as int, m);
            m >= 1 && r.0 == c * r.1
        }),
{
    let c = s.tasks[j].cost;
    let m = s.tasks[j].members.len();
    assert(task_wf(s, j));
    assert(s.tasks[j].members.contains(s.tasks[j].owner));
    assert(m >= 1);
    lemma_repeat_share_value(c, m as int, m);
    let r = repeat_share(c, m as int, m);
    assert(r.0 == c * r.1) by (nonlinear_arith)
        requires
            r.0 * (m as int) == (m as int) * c * r.1,
            m >= 1,
    ;
}

/// Two states with the same tasks assign every task list the same share
/// fraction and the same cost sum.
proof fn lemma_same_tasks_same_sums(s1: LedgerState, s2: LedgerState, names: Seq<Seq<char>>)
    requires
        s1.tasks == s2.tasks,
    ensures
        shares_nd(s1, names) == shares_nd(s2, names),
        sum_costs(s1, names) == sum_costs(s2, names),
    decreases names.len(),
{
    if names.len() > 0 {
        lemma_same_tasks_same_sums(s1, s2, names.drop_last());
    }
}

/// A direct transfer decreases the payer's balance by exactly the amount,
/// increases the payee's by the same amount, and changes no other
/// balance. A transfer to oneself changes nothing.
pub proof fn lemma_transfer_conserves_balances(s: LedgerState, ip: int, iq: int, a: int)
    requires
        0 <= ip < s.participants.len(),
        0 <= iq < s.participants.len(),
        index_of_name(pnames(s), s.participants[ip].name) == Some(ip),
        index_of_name(pnames(s), s.participants[iq].name) == Some(iq),
    ensures
        ({
            let s2 = apply_transfer(s, s.participants[ip].name, s.participants[iq].name, a);
            &&& s2.participants.len() == s.participants.len()
            &&& ip != iq ==> balance_minor(s2, ip) == balance_minor(s, ip) - a
            &&& ip != iq ==> balance_minor(s2, iq) == balance_minor(s, iq) + a
            &&& ip == iq ==> balance_minor(s2, ip) == balance_minor(s, ip)
            &&& forall|k: int|
                0 <= k < s.participants.len() && k != ip && k != iq ==> balance_minor(s2, k)
                    == balance_minor(s, k)
        }),
{
    let s2 = apply_transfer(s, s.participants[ip].name, s.participants[iq].name, a);
    let s1 = LedgerState {
        participants: s.participants.update(
            ip,
            crate::model::PartState {
                payments: s.participants[ip].payments.push(a),
                ..s.participants[ip]
            },
        ),
        tasks: s.tasks,
    };
    assert(pnames(s1) =~= pnames(s));
    assert(s2.tasks == s.tasks);
    assert forall|k: int| 0 <= k < s.participants.len() implies ({
        &&& s2.participants[k].tasks == s.participants[k].tasks
        &&& s2.participants[k].paid == s.participants[k].paid
    }) by {}
    assert forall|k: int|
        0 <= k < s.participants.len() && k != ip && k != iq implies balance_minor(s2, k)
        == balance_minor(s, k) by {
        lemma_same_tasks_same_sums(s, s2, s.participants[k].tasks);
        lemma_same_tasks_same_sums(s, s2, s.participants[k].paid);
        assert(s2.participants[k] == s.participants[k]);
    }
    if ip != iq {
        lemma_same_tasks_same_sums(s, s2, s.participants[ip].tasks);
        lemma_same_tasks_same_sums(s, s2, s.participants[ip].paid);
        lemma_same_tasks_same_sums(s, s2, s.participants[iq].tasks);
        lemma_same_tasks_same_sums(s, s2, s.participants[iq].paid);
        let pp = s.participants[ip].payments;
        assert(s2.participants[ip].payments == pp.push(a));
        assert(pp.push(a).drop_last() =~= pp);
        assert(sum_ints(pp.push(a)) == sum_ints(pp) + a);
        let qq = s.participants[iq].payments;
        assert(s2.participants[iq].payments == qq.push(-a));
        assert(qq.push(-a).drop_last() =~= qq);
        assert(sum_ints(qq.push(-a)) == sum_ints(qq) - a);
    } else {
        lemma_same_tasks_same_sums(s, s2, s.participants[ip].tasks);
        lemma_same_tasks_same_sums(s, s2, s.participants[ip].paid);
        let pp = s.participants[ip].payments;
        assert(s2.participants[ip].payments == pp.push(a).push(-a));
        assert(pp.push(a).push(-a).drop_last() =~= pp.push(a));
        assert(pp.push(a).drop_last() =~= pp);
        assert(sum_ints(pp.push(a)) == sum_ints(pp) + a);
        assert(sum_ints(pp.push(a).push(-a)) == sum_ints(pp.push(a)) + (-a));
        assert(sum_ints(pp.push(a).push(-a)) == sum_ints(pp));
    }
}

/// Querying a balance is idempotent: two results of the balance query on
/// one unchanged store are the same value.
pub proof fn lemma_balance_query_idempotent(
    s: LedgerState,
    i: int,
    r1: Option<int>,
    r2: Option<int>,
)
    requires
        r1 == balance_result(s, i),
        r2 == balance_result(s, i),
    ensures
        r1 == r2,
{
}

/// Renaming maps a task lookup through the replacement: the renamed name
/// is found at the same position, with everything but names unchanged.
proof fn lemma_rename_lookup(s: LedgerState, o: Seq<char>, n: Seq<char>, m: Seq<char>)
    requires
        distinct_names(tnames(s)),
        !tnames(s).contains(n),
        n != o,
        m != n,
    ensures
        index_of_name(tnames(apply_rename(s, o, n)), replace_name(m, o, n)) == index_of_name(
            tnames(s),
            m,
        ),
{
    let s2 = apply_rename(s, o, n);
    assert(tnames(s2) =~= replace_names(tnames(s), o, n));
    assert(forall|k: int| 0 <= k < tnames(s).len() ==> tnames(s)[k] != n);
    lemma_index_of_name(tnames(s), m);
    match index_of_name(tnames(s), m) {
        Some(j) => {
            assert(tnames(s2)[j] == replace_name(m, o, n));
            assert forall|k: int| 0 <= k < j implies tnames(s2)[k] != replace_name(m, o, n) by {
                assert(tnames(s2)[k] == replace_name(tnames(s)[k], o, n));
                if m == o {
                    assert(tnames(s)[k] != o);
                } else {
                }
            }
            lemma_index_of_name_unique(tnames(s2), replace_name(m, o, n), j);
        },
        None => {
            lemma_index_of_name(tnames(s2), replace_name(m, o, n));
            match index_of_name(tnames(s2), replace_name(m, o, n)) {
                Some(jj) => {
                    assert(tnames(s2)[jj] == replace_name(tnames(s)[jj], o, n));
                    assert(false);
                },
                None => {},
            }
        },
    }
}

/// Renaming preserves every task list's share fraction and cost sum.
proof fn lemma_rename_same_sums(s: LedgerState, o: Seq<char>, n: Seq<char>, names: Seq<Seq<char>>)
    requires
        distinct_names(tnames(s)),
        !tnames(s).contains(n),
        n != o,
        forall|k: int| 0 <= k < names.len() ==> names[k] != n,
    ensures
        shares_nd(apply_rename(s, o, n), replace_names(names, o, n)) == shares_nd(s, names),
        sum_costs(apply_rename(s, o, n), replace_names(names, o, n)) == sum_costs(s, names),
    decreases names.len(),
{
    let s2 = apply_rename(s, o, n);
    let rn = replace_names(names, o, n);
    if names.len() == 0 {
        assert(rn =~= Seq::<Seq<char>>::empty());
    } else {
        lemma_rename_same_sums(s, o, n, names.drop_last());
        assert(rn.drop_last() =~= replace_names(names.drop_last(), o, n));
        assert(rn.last() == replace_name(names.last(), o, n));
        lemma_rename_lookup(s, o, n, names.last());
        match index_of_name(tnames(s), names.last()) {
            Some(j) => {
                lemma_index_of_name(tnames(s), names.last());
                assert(s2.tasks[j].cost == s.tasks[j].cost);
                assert(s2.tasks[j].members =~= replace_names(s.tasks[j].members, o, n));
                assert(s2.tasks[j].members.len() == s.tasks[j].members.len());
            },
            None => {},
        }
    }
}

/// Renaming a participant or task changes no participant's balance.
pub proof fn lemma_rename_preserves_balances(s: LedgerState, o: Seq<char>, n: Seq<char>)
    requires
        wf(s),
        !pnames(s).contains(n),
        !tnames(s).contains(n),
        n != o,
    ensures
        apply_rename(s, o, n).participants.len() == s.participants.len(),
        forall|i: int|
            0 <= i < s.participants.len() ==> balance_minor(apply_rename(s, o, n), i)
                == balance_minor(s, i),
{
    let s2 = apply_rename(s, o, n);
    assert forall|i: int|
        0 <= i < s.participants.len() implies balance_minor(s2, i) == balance_minor(s, i) by {
        let p = s.participants[i];
        assert(participant_wf(s, i));
        assert(s2.participants[i].tasks == replace_names(p.tasks, o, n));
        assert(s2.participants[i].paid == replace_names(p.paid, o, n));
        assert(s2.participants[i].payments == p.payments);
        assert forall|k: int| 0 <= k < p.tasks.len() implies p.tasks[k] != n by {
            lemma_index_of_name(tnames(s), p.tasks[k]);
            assert(index_of_name(tnames(s), p.tasks[k]) is Some);
            let j = index_of_name(tnames(s), p.tasks[k]).unwrap();
            assert(tnames(s)[j] == p.tasks[k]);
            assert(tnames(s).contains(p.tasks[k]));
        }
        assert forall|k: int| 0 <= k < p.paid.len() implies p.paid[k] != n by {
            lemma_index_of_name(tnames(s), p.paid[k]);
            assert(index_of_name(tnames(s), p.paid[k]) is Some);
            let j = index_of_name(tnames(s), p.paid[k]).unwrap();
            assert(tnames(s)[j] == p.paid[k]);
            assert(tnames(s).contains(p.paid[k]));
        }
        lemma_rename_same_sums(s, o, n, p.tasks);
        lemma_rename_same_sums(s, o, n, p.paid);
    }
}

/// Removing a participant who owns no tasks detaches them from every task
/// without touching any other participant or any task's name, owner or
/// cost.
pub proof fn lemma_remove_nonowner_detaches(s: LedgerState, i: int)
    requires
        wf(s),
        0 <= i < s.participants.len(),
        s.participants[i].paid.len() == 0,
    ensures
        ({
            let s2 = apply_remove_participant(s, s.participants[i].name);
            &&& s2.participants.len() == s.participants.len() - 1
            &&& forall|k: int|
                0 <= k < s2.participants.len() ==> s2.participants[k] == s.participants.remove(
                    i,
                )[k]
            &&& s2.tasks.len() == s.tasks.len()
            &&& forall|j: int|
                0 <= j < s.tasks.len() ==> s2.tasks[j].name == s.tasks[j].name
                    && s2.tasks[j].owner == s.tasks[j].owner && s2.tasks[j].cost == s.tasks[j].cost
                    && s2.tasks[j].members == remove_name(
                    s.tasks[j].members,
                    s.participants[i].name,
                )
        }),
{
    let nm = s.participants[i].name;
    assert(pnames(s)[i] == nm);
    assert(forall|k: int| 0 <= k < i ==> pnames(s)[k] != nm);
    lemma_index_of_name_unique(pnames(s), nm, i);
    let s2 = apply_remove_participant(s, nm);
    let owned = s.participants[i].paid;
    assert(owned =~= Seq::<Seq<char>>::empty());
    lemma_remove_tasks_named_empty(s.tasks);
    assert forall|k: int|
        0 <= k < s2.participants.len() implies s2.participants[k] == s.participants.remove(
        i,
    )[k] by {
        let q = s.participants.remove(i)[k];
        lemma_remove_names_empty(q.tasks);
        lemma_remove_names_empty(q.paid);
        assert(s2.participants[k] =~= q);
    }
}

/// Removing a participant removes every task they paid for and no other:
/// afterwards a task name survives exactly when it named a task they did
/// not own, and the participant's own name is gone.
pub proof fn lemma_remove_owner_cascades(s: LedgerState, i: int)
    requires
        wf(s),
        0 <= i < s.participants.len(),
    ensures
        ({
            let s2 = apply_remove_participant(s, s.participants[i].name);
            &&& forall|m: Seq<char>| #[trigger]
                tnames(s2).contains(m) <==> (tnames(s).contains(m)
                    && !s.participants[i].paid.contains(m))
            &&& part_names(s2.participants) == part_names(s.participants.remove(i))
        }),
{
    let nm = s.participants[i].name;
    assert(pnames(s)[i] == nm);
    assert(forall|k: int| 0 <= k < i ==> pnames(s)[k] != nm);
    lemma_index_of_name_unique(pnames(s), nm, i);
    let s2 = apply_remove_participant(s, nm);
    let owned = s.participants[i].paid;
    lemma_remove_tasks_named_props(s.tasks, owned);
    assert(tnames(s2) =~= task_names(remove_tasks_named(s.tasks, owned)));
    assert(part_names(s2.participants) =~= part_names(s.participants.remove(i)));
}

} // verus!
