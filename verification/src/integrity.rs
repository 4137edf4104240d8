//! Preservation of the store invariant.
//!
//! One lemma per mutation: starting from a well-formed state, the state
//! the model transition yields is well-formed again. The executable
//! store's methods quote these lemmas in their contracts.

use vstd::prelude::*;
use crate::model::{
    LedgerState, PartState, TaskState, pnames, tnames, task_names, index_of_name,
    lemma_index_of_name, lemma_index_of_push, lemma_index_of_remove, lemma_index_of_replace,
    lemma_distinct_remove, wf, participant_wf, task_wf, distinct_names, reserved_name,
    insert_name, remove_name, remove_names, replace_name, replace_names, remove_tasks_named,
    fresh_participant, ensure_participant, apply_add_participant, apply_associate,
    apply_transfer, apply_rename, apply_remove_task, apply_remove_participant, apply_detach,
    apply_pay, apply_add_list, apply_associate_list, apply_part_fanout,
    lemma_insert_name_props, lemma_remove_name_props, lemma_remove_names_props,
    lemma_replace_names_props, lemma_remove_tasks_named_props,
    lemma_remove_tasks_named_distinct, lemma_remove_tasks_named_subset,
    lemma_remove_tasks_named_lookup,
};

verus! {

/// Creating a participant preserves the invariant.
pub proof fn lemma_wf_add(s: LedgerState, n: Seq<char>)
    requires
        wf(s),
        apply_add_participant(s, n) is Ok,
    ensures
        apply_add_participant(s, n) matches Ok(s2) ==> wf(s2),
{
    let s2 = LedgerState {
        participants: s.participants.push(fresh_participant(n)),
        tasks: s.tasks,
    };
    assert(apply_add_participant(s, n) == Ok::<LedgerState, crate::model::ErrV>(s2));
    assert(!pnames(s).contains(n) && !tnames(s).contains(n) && !reserved_name(n));
    assert(forall|k: int| 0 <= k < pnames(s).len() ==> pnames(s)[k] != n);
    assert(pnames(s2) =~= pnames(s).push(n));
    assert(tnames(s2) == tnames(s));
    assert(forall|i: int| 0 <= i < s.participants.len() ==> s2.participants[i]
        == s.participants[i]);
    assert(s2.tasks == s.tasks);
    assert(distinct_names(pnames(s2)));
    assert forall|i: int| 0 <= i < s2.participants.len() implies participant_wf(s2, i) by {
        if i < s.participants.len() {
            assert(participant_wf(s, i));
        } else {
            assert(s2.participants[i] == fresh_participant(n));
            assert(fresh_participant(n).tasks.len() == 0);
            assert(fresh_participant(n).paid.len() == 0);
        }
    }
    assert forall|j: int| 0 <= j < s2.tasks.len() implies task_wf(s2, j) by {
        assert(task_wf(s, j));
        let t = s.tasks[j];
        assert forall|k: int| 0 <= k < t.members.len() implies match index_of_name(
            pnames(s2),
            #[trigger] t.members[k],
        ) {
            Some(i) => s2.participants[i].tasks.contains(t.name),
            None => false,
        } by {
            lemma_index_of_push(pnames(s), n, t.members[k]);
            lemma_index_of_name(pnames(s), t.members[k]);
            match index_of_name(pnames(s), t.members[k]) {
                Some(i) => {
                    assert(s2.participants[i] == s.participants[i]);
                },
                None => {},
            }
        }
        lemma_index_of_push(pnames(s), n, t.owner);
        lemma_index_of_name(pnames(s), t.owner);
        match index_of_name(pnames(s), t.owner) {
            Some(i) => {
                assert(s2.participants[i] == s.participants[i]);
            },
            None => {},
        }
    }
}

/// A direct transfer preserves the invariant: it only appends payments.
pub proof fn lemma_wf_transfer(s: LedgerState, payer: Seq<char>, payee: Seq<char>, a: int)
    requires
        wf(s),
    ensures
        wf(apply_transfer(s, payer, payee, a)),
{
    let s2 = apply_transfer(s, payer, payee, a);
    let s1 = match index_of_name(pnames(s), payer) {
        Some(i) => LedgerState {
            participants: s.participants.update(
                i,
                PartState {
                    payments: s.participants[i].payments.push(a),
                    ..s.participants[i]
                },
            ),
            tasks: s.tasks,
        },
        None => s,
    };
    lemma_index_of_name(pnames(s), payer);
    assert(pnames(s1) =~= pnames(s));
    lemma_index_of_name(pnames(s1), payee);
    assert(pnames(s2) =~= pnames(s));
    assert(tnames(s2) == tnames(s));
    assert(s2.tasks == s.tasks);
    assert(s2.participants.len() == s.participants.len());
    assert(forall|k: int|
        0 <= k < s.participants.len() ==> (#[trigger] s2.participants[k]).tasks
            == s.participants[k].tasks && s2.participants[k].paid == s.participants[k].paid
            && s2.participants[k].name == s.participants[k].name);
    assert forall|i: int| 0 <= i < s2.participants.len() implies participant_wf(s2, i) by {
        assert(participant_wf(s, i));
    }
    assert forall|j: int| 0 <= j < s2.tasks.len() implies task_wf(s2, j) by {
        assert(task_wf(s, j));
        let t = s.tasks[j];
        assert forall|k: int| 0 <= k < t.members.len() implies match index_of_name(
            pnames(s2),
            #[trigger] t.members[k],
        ) {
            Some(i) => s2.participants[i].tasks.contains(t.name),
            None => false,
        } by {
            assert(pnames(s2) == pnames(s));
            lemma_index_of_name(pnames(s), t.members[k]);
            match index_of_name(pnames(s), t.members[k]) {
                Some(i) => {
                    assert(s2.participants[i].tasks == s.participants[i].tasks);
                },
                None => {},
            }
        }
        assert(pnames(s2) == pnames(s));
        lemma_index_of_name(pnames(s), t.owner);
        match index_of_name(pnames(s), t.owner) {
            Some(i) => {
                assert(s2.participants[i].paid == s.participants[i].paid);
            },
            None => {},
        }
    }
}

/// Associating a participant with a task preserves the invariant.
pub proof fn lemma_wf_associate(s: LedgerState, task: Seq<char>, member: Seq<char>)
    requires
        wf(s),
    ensures
        wf(apply_associate(s, task, member)),
{
    let s2 = apply_associate(s, task, member);
    match (index_of_name(tnames(s), task), index_of_name(pnames(s), member)) {
        (Some(j), Some(i)) => {
            lemma_index_of_name(tnames(s), task);
            lemma_index_of_name(pnames(s), member);
            let p = s.participants[i];
            let t = s.tasks[j];
            assert(pnames(s)[i] == member && tnames(s)[j] == task);
            assert(pnames(s2) =~= pnames(s));
            assert(tnames(s2) =~= tnames(s));
            assert(s2.participants[i].tasks == insert_name(p.tasks, task));
            assert(s2.tasks[j].members == insert_name(t.members, member));
            lemma_insert_name_props(p.tasks, task);
            lemma_insert_name_props(t.members, member);
            assert forall|ii: int|
                0 <= ii < s2.participants.len() implies participant_wf(s2, ii) by {
                assert(participant_wf(s, ii));
                let q = s.participants[ii];
                let q2 = s2.participants[ii];
                assert(q2.name == q.name && q2.paid == q.paid);
                assert forall|k: int| 0 <= k < q2.tasks.len() implies match index_of_name(
                    tnames(s2),
                    #[trigger] q2.tasks[k],
                ) {
                    Some(jj) => s2.tasks[jj].members.contains(q2.name),
                    None => false,
                } by {
                    let m = q2.tasks[k];
                    lemma_index_of_name(tnames(s), m);
                    if ii == i && !p.tasks.contains(task) && k == q2.tasks.len() - 1 {
                        // the newly inserted reference
                        assert(m == task);
                        assert(index_of_name(tnames(s2), m) == Some(j as int));
                        assert(s2.tasks[j].members.contains(member));
                    } else {
                        assert(q.tasks.contains(m) ==> match index_of_name(tnames(s), m) {
                            Some(jj) => s.tasks[jj].members.contains(q.name),
                            None => false,
                        });
                        if ii == i {
                            assert(q2.tasks[k] == insert_name(p.tasks, task)[k]);
                            if p.tasks.contains(task) {
                                assert(q2.tasks == p.tasks);
                                assert(q.tasks.contains(m));
                            } else {
                                assert(k < p.tasks.len());
                                assert(m == p.tasks[k]);
                                assert(q.tasks.contains(m));
                            }
                        } else {
                            assert(q.tasks.contains(m));
                        }
                        assert(index_of_name(tnames(s2), m) == index_of_name(tnames(s), m));
                        match index_of_name(tnames(s), m) {
                            Some(jj) => {
                                assert(s.tasks[jj].members.contains(q.name));
                                if jj == j {
                                    assert(s2.tasks[jj].members.contains(q.name));
                                } else {
                                    assert(s2.tasks[jj] == s.tasks[jj]);
                                }
                            },
                            None => {},
                        }
                    }
                }
                assert forall|k: int| 0 <= k < q2.paid.len() implies q2.tasks.contains(
                    #[trigger] q2.paid[k],
                ) && match index_of_name(tnames(s2), q2.paid[k]) {
                    Some(jj) => s2.tasks[jj].owner == q2.name,
                    None => false,
                } by {
                    lemma_index_of_name(tnames(s), q.paid[k]);
                    assert(q.tasks.contains(q.paid[k]));
                    if ii == i {
                        assert(q2.tasks.contains(q2.paid[k]));
                    }
                    assert(index_of_name(tnames(s2), q2.paid[k]) == index_of_name(
                        tnames(s),
                        q.paid[k],
                    ));
                    match index_of_name(tnames(s), q.paid[k]) {
                        Some(jj) => {
                            assert(s2.tasks[jj].owner == s.tasks[jj].owner);
                        },
                        None => {},
                    }
                }
            }
            assert forall|jj: int| 0 <= jj < s2.tasks.len() implies task_wf(s2, jj) by {
                assert(task_wf(s, jj));
                let t0 = s.tasks[jj];
                let t2 = s2.tasks[jj];
                assert(t2.name == t0.name && t2.owner == t0.owner && t2.cost == t0.cost);
                assert forall|k: int| 0 <= k < t2.members.len() implies match index_of_name(
                    pnames(s2),
                    #[trigger] t2.members[k],
                ) {
                    Some(ii) => s2.participants[ii].tasks.contains(t2.name),
                    None => false,
                } by {
                    let m = t2.members[k];
                    lemma_index_of_name(pnames(s), m);
                    if jj == j && !t.members.contains(member) && k == t2.members.len() - 1 {
                        assert(m == member);
                        assert(index_of_name(pnames(s2), m) == Some(i as int));
                        assert(s2.participants[i].tasks.contains(task));
                        assert(t2.name == task);
                    } else {
                        if jj == j {
                            if t.members.contains(member) {
                                assert(t2.members == t.members);
                                assert(t0.members.contains(m));
                            } else {
                                assert(k < t.members.len());
                                assert(m == t.members[k]);
                                assert(t0.members.contains(m));
                            }
                        } else {
                            assert(t0.members.contains(m));
                        }
                        assert(index_of_name(pnames(s2), m) == index_of_name(pnames(s), m));
                        match index_of_name(pnames(s), m) {
                            Some(ii) => {
                                assert(s.participants[ii].tasks.contains(t0.name));
                                if ii == i {
                                    assert(s2.participants[ii].tasks.contains(t0.name));
                                } else {
                                    assert(s2.participants[ii] == s.participants[ii]);
                                }
                            },
                            None => {},
                        }
                    }
                }
                lemma_index_of_name(pnames(s), t0.owner);
                assert(index_of_name(pnames(s2), t2.owner) == index_of_name(pnames(s), t0.owner));
                match index_of_name(pnames(s), t0.owner) {
                    Some(ii) => {
                        assert(s.participants[ii].paid.contains(t0.name));
                        assert(s2.participants[ii].paid == s.participants[ii].paid);
                    },
                    None => {},
                }
            }
        },
        _ => {},
    }
}


/// Detaching a participant from a task preserves the invariant.
pub proof fn lemma_wf_detach(s: LedgerState, part: Seq<char>, task: Seq<char>)
    requires
        wf(s),
    ensures
        wf(apply_detach(s, part, task)),
{
    let s2 = apply_detach(s, part, task);
    match index_of_name(pnames(s), part) {
        Some(i) => {
            lemma_index_of_name(pnames(s), part);
            let p = s.participants[i];
            if !p.paid.contains(task) && p.tasks.contains(task) {
                let k0 = choose|k: int| 0 <= k < p.tasks.len() && p.tasks[k] == task;
                assert(participant_wf(s, i));
                assert(index_of_name(tnames(s), p.tasks[k0]) is Some);
                match index_of_name(tnames(s), task) {
                    Some(j) => {
                        lemma_index_of_name(tnames(s), task);
                        let t = s.tasks[j];
                        assert(pnames(s)[i] == part && tnames(s)[j] == task);
                        assert(pnames(s2) =~= pnames(s));
                        assert(tnames(s2) =~= tnames(s));
                        assert(s2.participants[i].tasks == remove_name(p.tasks, task));
                        assert(s2.tasks[j].members == remove_name(t.members, part));
                        lemma_remove_name_props(p.tasks, task);
                        lemma_remove_name_props(t.members, part);
                        assert forall|ii: int|
                            0 <= ii < s2.participants.len() implies participant_wf(s2, ii) by {
                            assert(participant_wf(s, ii));
                            let q = s.participants[ii];
                            let q2 = s2.participants[ii];
                            assert(q2.name == q.name && q2.paid == q.paid);
                            assert forall|k: int|
                                0 <= k < q2.tasks.len() implies match index_of_name(
                                tnames(s2),
                                #[trigger] q2.tasks[k],
                            ) {
                                Some(jj) => s2.tasks[jj].members.contains(q2.name),
                                None => false,
                            } by {
                                let m = q2.tasks[k];
                                lemma_index_of_name(tnames(s), m);
                                assert(q2.tasks.contains(m));
                                if ii == i {
                                    assert(p.tasks.contains(m) && m != task);
                                } else {
                                    assert(q.tasks.contains(m));
                                }
                                assert(index_of_name(tnames(s2), m) == index_of_name(
                                    tnames(s),
                                    m,
                                ));
                                match index_of_name(tnames(s), m) {
                                    Some(jj) => {
                                        assert(s.tasks[jj].members.contains(q.name));
                                        if jj == j {
                                            assert(ii != i);
                                            assert(pnames(s)[ii] != pnames(s)[i]);
                                            assert(q.name != part);
                                            assert(s2.tasks[j].members.contains(q.name));
                                        } else {
                                            assert(s2.tasks[jj] == s.tasks[jj]);
                                        }
                                    },
                                    None => {},
                                }
                            }
                            assert forall|k: int|
                                0 <= k < q2.paid.len() implies q2.tasks.contains(
                                #[trigger] q2.paid[k],
                            ) && match index_of_name(tnames(s2), q2.paid[k]) {
                                Some(jj) => s2.tasks[jj].owner == q2.name,
                                None => false,
                            } by {
                                let m = q2.paid[k];
                                lemma_index_of_name(tnames(s), m);
                                assert(q.tasks.contains(m));
                                if ii == i {
                                    assert(m != task);
                                    assert(q2.tasks.contains(m));
                                }
                                assert(index_of_name(tnames(s2), m) == index_of_name(
                                    tnames(s),
                                    m,
                                ));
                                match index_of_name(tnames(s), m) {
                                    Some(jj) => {
                                        assert(s2.tasks[jj].owner == s.tasks[jj].owner);
                                    },
                                    None => {},
                                }
                            }
                        }
                        assert forall|jj: int| 0 <= jj < s2.tasks.len() implies task_wf(
                            s2,
                            jj,
                        ) by {
                            assert(task_wf(s, jj));
                            let t0 = s.tasks[jj];
                            let t2 = s2.tasks[jj];
                            assert(t2.name == t0.name && t2.owner == t0.owner && t2.cost
                                == t0.cost);
                            assert forall|k: int|
                                0 <= k < t2.members.len() implies match index_of_name(
                                pnames(s2),
                                #[trigger] t2.members[k],
                            ) {
                                Some(ii) => s2.participants[ii].tasks.contains(t2.name),
                                None => false,
                            } by {
                                let m = t2.members[k];
                                lemma_index_of_name(pnames(s), m);
                                assert(t2.members.contains(m));
                                if jj == j {
                                    assert(t.members.contains(m) && m != part);
                                } else {
                                    assert(t0.members.contains(m));
                                }
                                match index_of_name(pnames(s), m) {
                                    Some(ii) => {
                                        assert(s.participants[ii].tasks.contains(t0.name));
                                        if ii == i {
                                            assert(m == part);
                                            assert(jj != j);
                                            assert(tnames(s)[jj] != tnames(s)[j]);
                                            assert(t0.name != task);
                                            assert(s2.participants[i].tasks.contains(t0.name));
                                        } else {
                                            assert(s2.participants[ii] == s.participants[ii]);
                                        }
                                    },
                                    None => {},
                                }
                            }
                            lemma_index_of_name(pnames(s), t0.owner);
                            if jj == j {
                                match index_of_name(pnames(s), t.owner) {
                                    Some(io) => {
                                        assert(s.participants[io].paid.contains(t.name));
                                        assert(t.name == task);
                                        if t.owner == part {
                                            assert(pnames(s)[io] == part);
                                            assert(io == i);
                                            assert(false);
                                        }
                                        assert(s2.tasks[j].members.contains(t.owner));
                                        if io == i {
                                            assert(s2.participants[io].paid == p.paid);
                                        } else {
                                            assert(s2.participants[io] == s.participants[io]);
                                        }
                                    },
                                    None => {
                                        assert(false);
                                    },
                                }
                            } else {
                                match index_of_name(pnames(s), t0.owner) {
                                    Some(io) => {
                                        assert(s.participants[io].paid.contains(t0.name));
                                        assert(s2.participants[io].paid == s.participants[
                                            io
                                        ].paid);
                                    },
                                    None => {},
                                }
                            }
                        }
                    },
                    None => {
                        assert(false);
                    },
                }
            }
        },
        None => {},
    }
}

/// Removing a task preserves the invariant.
pub proof fn lemma_wf_remove_task(s: LedgerState, task: Seq<char>)
    requires
        wf(s),
    ensures
        wf(apply_remove_task(s, task)),
{
    let s2 = apply_remove_task(s, task);
    match index_of_name(tnames(s), task) {
        Some(j) => {
            lemma_index_of_name(tnames(s), task);
            assert(tnames(s)[j] == task);
            assert(pnames(s2) =~= pnames(s));
            assert(tnames(s2) =~= tnames(s).remove(j));
            lemma_distinct_remove(tnames(s), j);
            assert(distinct_names(tnames(s2)));
            assert forall|a: int, b: int|
                0 <= a < s2.participants.len() && 0 <= b < s2.tasks.len() implies pnames(s2)[a]
                != tnames(s2)[b] by {
                let b0 = if b < j {
                    b
                } else {
                    b + 1
                };
                assert(tnames(s2)[b] == tnames(s)[b0]);
            }
            assert forall|b: int| 0 <= b < s2.tasks.len() implies !reserved_name(
                #[trigger] tnames(s2)[b],
            ) by {
                let b0 = if b < j {
                    b
                } else {
                    b + 1
                };
                assert(tnames(s2)[b] == tnames(s)[b0]);
            }
            assert forall|ii: int|
                0 <= ii < s2.participants.len() implies participant_wf(s2, ii) by {
                assert(participant_wf(s, ii));
                let q = s.participants[ii];
                let q2 = s2.participants[ii];
                assert(q2.name == q.name);
                assert(q2.tasks == remove_name(q.tasks, task));
                assert(q2.paid == remove_name(q.paid, task));
                lemma_remove_name_props(q.tasks, task);
                lemma_remove_name_props(q.paid, task);
                assert forall|k: int| 0 <= k < q2.tasks.len() implies match index_of_name(
                    tnames(s2),
                    #[trigger] q2.tasks[k],
                ) {
                    Some(jj) => s2.tasks[jj].members.contains(q2.name),
                    None => false,
                } by {
                    let m = q2.tasks[k];
                    assert(q2.tasks.contains(m));
                    assert(q.tasks.contains(m) && m != task);
                    lemma_index_of_name(tnames(s), m);
                    lemma_index_of_remove(tnames(s), j, m);
                    match index_of_name(tnames(s), m) {
                        Some(jold) => {
                            assert(s.tasks[jold].members.contains(q.name));
                            assert(jold != j);
                            if jold < j {
                                assert(s2.tasks[jold] == s.tasks[jold]);
                            } else {
                                assert(s2.tasks[jold - 1] == s.tasks[jold]);
                            }
                        },
                        None => {},
                    }
                }
                assert forall|k: int| 0 <= k < q2.paid.len() implies q2.tasks.contains(
                    #[trigger] q2.paid[k],
                ) && match index_of_name(tnames(s2), q2.paid[k]) {
                    Some(jj) => s2.tasks[jj].owner == q2.name,
                    None => false,
                } by {
                    let m = q2.paid[k];
                    assert(q2.paid.contains(m));
                    assert(q.paid.contains(m) && m != task);
                    assert(q.tasks.contains(m));
                    assert(q2.tasks.contains(m));
                    lemma_index_of_name(tnames(s), m);
                    lemma_index_of_remove(tnames(s), j, m);
                    match index_of_name(tnames(s), m) {
                        Some(jold) => {
                            assert(s.tasks[jold].owner == q.name);
                            assert(jold != j);
                            if jold < j {
                                assert(s2.tasks[jold] == s.tasks[jold]);
                            } else {
                                assert(s2.tasks[jold - 1] == s.tasks[jold]);
                            }
                        },
                        None => {},
                    }
                }
            }
            assert forall|jj: int| 0 <= jj < s2.tasks.len() implies task_wf(s2, jj) by {
                let jj0 = if jj < j {
                    jj
                } else {
                    jj + 1
                };
                assert(s2.tasks[jj] == s.tasks[jj0]);
                assert(task_wf(s, jj0));
                let t0 = s.tasks[jj0];
                assert(tnames(s)[jj0] == t0.name);
                assert(t0.name != task);
                assert forall|k: int| 0 <= k < t0.members.len() implies match index_of_name(
                    pnames(s2),
                    #[trigger] t0.members[k],
                ) {
                    Some(ii) => s2.participants[ii].tasks.contains(t0.name),
                    None => false,
                } by {
                    lemma_index_of_name(pnames(s), t0.members[k]);
                    assert(index_of_name(pnames(s2), t0.members[k]) == index_of_name(
                        pnames(s),
                        t0.members[k],
                    ));
                    match index_of_name(pnames(s), t0.members[k]) {
                        Some(ii) => {
                            assert(s.participants[ii].tasks.contains(t0.name));
                            lemma_remove_name_props(s.participants[ii].tasks, task);
                            assert(s2.participants[ii].tasks == remove_name(
                                s.participants[ii].tasks,
                                task,
                            ));
                        },
                        None => {},
                    }
                }
                lemma_index_of_name(pnames(s), t0.owner);
                assert(index_of_name(pnames(s2), t0.owner) == index_of_name(
                    pnames(s),
                    t0.owner,
                ));
                match index_of_name(pnames(s), t0.owner) {
                    Some(ii) => {
                        assert(s.participants[ii].paid.contains(t0.name));
                        lemma_remove_name_props(s.participants[ii].paid, task);
                        assert(s2.participants[ii].paid == remove_name(
                            s.participants[ii].paid,
                            task,
                        ));
                    },
                    None => {},
                }
            }
        },
        None => {},
    }
}


/// Removing a participant, with its cascade, preserves the invariant.
pub proof fn lemma_wf_remove_participant(s: LedgerState, name: Seq<char>)
    requires
        wf(s),
    ensures
        wf(apply_remove_participant(s, name)),
{
    let s2 = apply_remove_participant(s, name);
    match index_of_name(pnames(s), name) {
        Some(i) => {
            lemma_index_of_name(pnames(s), name);
            assert(pnames(s)[i] == name);
            let owned = s.participants[i].paid;
            let f = remove_tasks_named(s.tasks, owned);
            assert(pnames(s2) =~= pnames(s).remove(i));
            assert(tnames(s2) =~= task_names(f));
            lemma_distinct_remove(pnames(s), i);
            assert(distinct_names(pnames(s2)));
            lemma_remove_tasks_named_distinct(s.tasks, owned);
            assert(distinct_names(tnames(s2)));
            lemma_remove_tasks_named_subset(s.tasks, owned);
            lemma_remove_tasks_named_props(s.tasks, owned);
            assert forall|b: int| 0 <= b < s2.tasks.len() implies ({
                &&& !reserved_name(#[trigger] tnames(s2)[b])
                &&& forall|a: int| 0 <= a < s2.participants.len() ==> pnames(s2)[a] != tnames(
                    s2,
                )[b]
            }) by {
                assert(s.tasks.contains(f[b]));
                let b0 = choose|x: int| 0 <= x < s.tasks.len() && s.tasks[x] == f[b];
                assert(tnames(s2)[b] == tnames(s)[b0]);
                assert forall|a: int| 0 <= a < s2.participants.len() implies pnames(s2)[a]
                    != tnames(s2)[b] by {
                    let a0 = if a < i {
                        a
                    } else {
                        a + 1
                    };
                    assert(pnames(s2)[a] == pnames(s)[a0]);
                }
            }
            assert forall|ii: int|
                0 <= ii < s2.participants.len() implies participant_wf(s2, ii) by {
                let ii0 = if ii < i {
                    ii
                } else {
                    ii + 1
                };
                let q = s.participants[ii0];
                assert(q == s.participants.remove(i)[ii]);
                assert(participant_wf(s, ii0));
                let q2 = s2.participants[ii];
                assert(q2.name == q.name && q2.payments == q.payments);
                assert(q2.tasks == remove_names(q.tasks, owned));
                assert(q2.paid == remove_names(q.paid, owned));
                lemma_remove_names_props(q.tasks, owned);
                lemma_remove_names_props(q.paid, owned);
                assert(pnames(s)[ii0] == q.name);
                assert(q.name != name);
                assert forall|k: int| 0 <= k < q2.tasks.len() implies match index_of_name(
                    tnames(s2),
                    #[trigger] q2.tasks[k],
                ) {
                    Some(jj) => s2.tasks[jj].members.contains(q2.name),
                    None => false,
                } by {
                    let m = q2.tasks[k];
                    assert(q2.tasks.contains(m));
                    assert(q.tasks.contains(m) && !owned.contains(m));
                    lemma_index_of_name(tnames(s), m);
                    lemma_remove_tasks_named_lookup(s.tasks, owned, m);
                    match index_of_name(tnames(s), m) {
                        Some(jold) => {
                            assert(s.tasks[jold].members.contains(q.name));
                            match index_of_name(task_names(f), m) {
                                Some(j2) => {
                                    assert(f[j2] == s.tasks[jold]);
                                    assert(s2.tasks[j2].members == remove_name(
                                        f[j2].members,
                                        name,
                                    ));
                                    lemma_remove_name_props(f[j2].members, name);
                                },
                                None => {
                                    assert(false);
                                },
                            }
                        },
                        None => {},
                    }
                }
                assert forall|k: int| 0 <= k < q2.paid.len() implies q2.tasks.contains(
                    #[trigger] q2.paid[k],
                ) && match index_of_name(tnames(s2), q2.paid[k]) {
                    Some(jj) => s2.tasks[jj].owner == q2.name,
                    None => false,
                } by {
                    let m = q2.paid[k];
                    assert(q2.paid.contains(m));
                    assert(q.paid.contains(m) && !owned.contains(m));
                    assert(q.tasks.contains(m));
                    assert(q2.tasks.contains(m));
                    lemma_index_of_name(tnames(s), m);
                    lemma_remove_tasks_named_lookup(s.tasks, owned, m);
                    match index_of_name(tnames(s), m) {
                        Some(jold) => {
                            assert(s.tasks[jold].owner == q.name);
                            match index_of_name(task_names(f), m) {
                                Some(j2) => {
                                    assert(f[j2] == s.tasks[jold]);
                                    assert(s2.tasks[j2].owner == q.name);
                                },
                                None => {
                                    assert(false);
                                },
                            }
                        },
                        None => {},
                    }
                }
            }
            assert forall|jj: int| 0 <= jj < s2.tasks.len() implies task_wf(s2, jj) by {
                assert(s.tasks.contains(f[jj]));
                let j0 = choose|x: int| 0 <= x < s.tasks.len() && s.tasks[x] == f[jj];
                assert(task_wf(s, j0));
                let t0 = s.tasks[j0];
                let t2 = s2.tasks[jj];
                assert(t2.name == t0.name && t2.owner == t0.owner && t2.cost == t0.cost);
                assert(t2.members == remove_name(t0.members, name));
                lemma_remove_name_props(t0.members, name);
                assert(tnames(s)[j0] == t0.name);
                assert(task_names(f)[jj] == t0.name);
                assert(task_names(f).contains(t0.name));
                assert(!owned.contains(t0.name));
                // the owner of a surviving task is not the removed participant
                lemma_index_of_name(pnames(s), t0.owner);
                match index_of_name(pnames(s), t0.owner) {
                    Some(io) => {
                        assert(s.participants[io].paid.contains(t0.name));
                        if t0.owner == name {
                            assert(pnames(s)[io] == name);
                            assert(io == i);
                            assert(owned.contains(t0.name));
                            assert(false);
                        }
                        assert(t2.members.contains(t2.owner));
                        lemma_index_of_remove(pnames(s), i, t0.owner);
                        let io2 = if io < i {
                            io
                        } else {
                            io - 1
                        };
                        assert(index_of_name(pnames(s2), t0.owner) == Some(io2));
                        assert(s.participants.remove(i)[io2] == s.participants[io]);
                        assert(s2.participants[io2].paid == remove_names(
                            s.participants[io].paid,
                            owned,
                        ));
                        lemma_remove_names_props(s.participants[io].paid, owned);
                        assert(s2.participants[io2].paid.contains(t2.name));
                    },
                    None => {
                        assert(false);
                    },
                }
                assert forall|k: int| 0 <= k < t2.members.len() implies match index_of_name(
                    pnames(s2),
                    #[trigger] t2.members[k],
                ) {
                    Some(ii) => s2.participants[ii].tasks.contains(t2.name),
                    None => false,
                } by {
                    let m = t2.members[k];
                    assert(t2.members.contains(m));
                    assert(t0.members.contains(m) && m != name);
                    lemma_index_of_name(pnames(s), m);
                    match index_of_name(pnames(s), m) {
                        Some(iold) => {
                            assert(s.participants[iold].tasks.contains(t0.name));
                            assert(iold != i);
                            lemma_index_of_remove(pnames(s), i, m);
                            let ii2 = if iold < i {
                                iold
                            } else {
                                iold - 1
                            };
                            assert(index_of_name(pnames(s2), m) == Some(ii2));
                            assert(s.participants.remove(i)[ii2] == s.participants[iold]);
                            assert(s2.participants[ii2].tasks == remove_names(
                                s.participants[iold].tasks,
                                owned,
                            ));
                            lemma_remove_names_props(s.participants[iold].tasks, owned);
                            assert(s2.participants[ii2].tasks.contains(t2.name));
                        },
                        None => {},
                    }
                }
            }
        },
        None => {},
    }
}

/// Renaming preserves the invariant when the new name is fresh and not
/// reserved.
pub proof fn lemma_wf_rename(s: LedgerState, o: Seq<char>, n: Seq<char>)
    requires
        wf(s),
        !pnames(s).contains(n),
        !tnames(s).contains(n),
        !reserved_name(n),
        n != o,
    ensures
        wf(apply_rename(s, o, n)),
{
    let s2 = apply_rename(s, o, n);
    assert(pnames(s2) =~= replace_names(pnames(s), o, n));
    assert(tnames(s2) =~= replace_names(tnames(s), o, n));
    lemma_replace_names_props(pnames(s), o, n);
    lemma_replace_names_props(tnames(s), o, n);
    assert(distinct_names(pnames(s2)));
    assert(distinct_names(tnames(s2)));
    assert(forall|k: int| 0 <= k < pnames(s).len() ==> pnames(s)[k] != n);
    assert(forall|k: int| 0 <= k < tnames(s).len() ==> tnames(s)[k] != n);
    assert forall|a: int, b: int|
        0 <= a < s2.participants.len() && 0 <= b < s2.tasks.len() implies pnames(s2)[a]
        != tnames(s2)[b] by {
        assert(pnames(s2)[a] == replace_name(pnames(s)[a], o, n));
        assert(tnames(s2)[b] == replace_name(tnames(s)[b], o, n));
    }
    assert forall|a: int| 0 <= a < s2.participants.len() implies !reserved_name(
        #[trigger] pnames(s2)[a],
    ) by {
        assert(pnames(s2)[a] == replace_name(pnames(s)[a], o, n));
    }
    assert forall|b: int| 0 <= b < s2.tasks.len() implies !reserved_name(
        #[trigger] tnames(s2)[b],
    ) by {
        assert(tnames(s2)[b] == replace_name(tnames(s)[b], o, n));
    }
    assert forall|ii: int| 0 <= ii < s2.participants.len() implies participant_wf(s2, ii) by {
        assert(participant_wf(s, ii));
        let p = s.participants[ii];
        let p2 = s2.participants[ii];
        assert(p2.name == replace_name(p.name, o, n));
        assert(p2.tasks == replace_names(p.tasks, o, n));
        assert(p2.paid == replace_names(p.paid, o, n));
        assert forall|k: int| 0 <= k < p.tasks.len() implies p.tasks[k] != n by {
            lemma_index_of_name(tnames(s), p.tasks[k]);
            assert(index_of_name(tnames(s), p.tasks[k]) is Some);
        }
        assert(!p.tasks.contains(n));
        assert forall|k: int| 0 <= k < p.paid.len() implies p.paid[k] != n by {
            lemma_index_of_name(tnames(s), p.paid[k]);
            assert(index_of_name(tnames(s), p.paid[k]) is Some);
        }
        assert(!p.paid.contains(n));
        lemma_replace_names_props(p.tasks, o, n);
        lemma_replace_names_props(p.paid, o, n);
        assert forall|k: int| 0 <= k < p2.tasks.len() implies match index_of_name(
            tnames(s2),
            #[trigger] p2.tasks[k],
        ) {
            Some(j) => s2.tasks[j].members.contains(p2.name),
            None => false,
        } by {
            let m = p.tasks[k];
            assert(p2.tasks[k] == replace_name(m, o, n));
            lemma_index_of_replace(tnames(s), o, n, m);
            lemma_index_of_name(tnames(s), m);
            match index_of_name(tnames(s), m) {
                Some(j) => {
                    let t = s.tasks[j];
                    assert(t.members.contains(p.name));
                    assert(s2.tasks[j].members == replace_names(t.members, o, n));
                    assert forall|x: int| 0 <= x < t.members.len() implies t.members[x] != n by {
                        assert(task_wf(s, j));
                        lemma_index_of_name(pnames(s), t.members[x]);
                        assert(index_of_name(pnames(s), t.members[x]) is Some);
                    }
                    assert(!t.members.contains(n));
                    lemma_replace_names_props(t.members, o, n);
                    assert(p.name != n);
                    assert(s2.tasks[j].members.contains(replace_name(p.name, o, n)));
                },
                None => {},
            }
        }
        assert forall|k: int| 0 <= k < p2.paid.len() implies p2.tasks.contains(
            #[trigger] p2.paid[k],
        ) && match index_of_name(tnames(s2), p2.paid[k]) {
            Some(j) => s2.tasks[j].owner == p2.name,
            None => false,
        } by {
            let m = p.paid[k];
            assert(p2.paid[k] == replace_name(m, o, n));
            assert(p.tasks.contains(m));
            assert(p2.tasks.contains(replace_name(m, o, n)));
            lemma_index_of_replace(tnames(s), o, n, m);
            lemma_index_of_name(tnames(s), m);
            match index_of_name(tnames(s), m) {
                Some(j) => {
                    assert(s.tasks[j].owner == p.name);
                    assert(s2.tasks[j].owner == replace_name(p.name, o, n));
                },
                None => {},
            }
        }
    }
    assert forall|jj: int| 0 <= jj < s2.tasks.len() implies task_wf(s2, jj) by {
        assert(task_wf(s, jj));
        let t = s.tasks[jj];
        let t2 = s2.tasks[jj];
        assert(t2.name == replace_name(t.name, o, n));
        assert(t2.owner == replace_name(t.owner, o, n));
        assert(t2.members == replace_names(t.members, o, n));
        assert(t2.cost == t.cost);
        assert forall|x: int| 0 <= x < t.members.len() implies t.members[x] != n by {
            lemma_index_of_name(pnames(s), t.members[x]);
            assert(index_of_name(pnames(s), t.members[x]) is Some);
        }
        assert(!t.members.contains(n));
        lemma_replace_names_props(t.members, o, n);
        assert(t.members.contains(t.owner));
        assert forall|x: int| 0 <= x < pnames(s).len() implies pnames(s)[x] != n by {}
        assert(t2.members.contains(t2.owner)) by {
            lemma_index_of_name(pnames(s), t.owner);
            match index_of_name(pnames(s), t.owner) {
                Some(io) => {
                    assert(t.owner != n);
                },
                None => {
                    assert(false);
                },
            }
        }
        assert forall|k: int| 0 <= k < t2.members.len() implies match index_of_name(
            pnames(s2),
            #[trigger] t2.members[k],
        ) {
            Some(ii) => s2.participants[ii].tasks.contains(t2.name),
            None => false,
        } by {
            let m = t.members[k];
            assert(t2.members[k] == replace_name(m, o, n));
            lemma_index_of_replace(pnames(s), o, n, m);
            lemma_index_of_name(pnames(s), m);
            match index_of_name(pnames(s), m) {
                Some(ii) => {
                    let p = s.participants[ii];
                    assert(p.tasks.contains(t.name));
                    assert(s2.participants[ii].tasks == replace_names(p.tasks, o, n));
                    assert(participant_wf(s, ii));
                    assert forall|x: int| 0 <= x < p.tasks.len() implies p.tasks[x] != n by {
                        lemma_index_of_name(tnames(s), p.tasks[x]);
                        assert(index_of_name(tnames(s), p.tasks[x]) is Some);
                    }
                    assert(!p.tasks.contains(n));
                    lemma_replace_names_props(p.tasks, o, n);
                    assert(t.name != n);
                    assert(s2.participants[ii].tasks.contains(replace_name(t.name, o, n)));
                },
                None => {},
            }
        }
        lemma_index_of_replace(pnames(s), o, n, t.owner);
        lemma_index_of_name(pnames(s), t.owner);
        match index_of_name(pnames(s), t.owner) {
            Some(io) => {
                let p = s.participants[io];
                assert(p.paid.contains(t.name));
                assert(s2.participants[io].paid == replace_names(p.paid, o, n));
                assert(participant_wf(s, io));
                assert forall|x: int| 0 <= x < p.paid.len() implies p.paid[x] != n by {
                    lemma_index_of_name(tnames(s), p.paid[x]);
                    assert(index_of_name(tnames(s), p.paid[x]) is Some);
                }
                assert(!p.paid.contains(n));
                lemma_replace_names_props(p.paid, o, n);
                assert(t.name != n);
                assert(s2.participants[io].paid.contains(replace_name(t.name, o, n)));
                assert(index_of_name(pnames(s2), t2.owner) == Some(io));
            },
            None => {
                assert(false);
            },
        }
    }
}


/// Recording a payment for a task preserves the invariant, provided the
/// verb-level checks hold: names not reserved, the task name free among
/// participants, the payer name free among tasks, and the two distinct.
pub proof fn lemma_wf_pay(s: LedgerState, payer: Seq<char>, task: Seq<char>, cost: int)
    requires
        wf(s),
        cost >= 0,
        !reserved_name(payer),
        !reserved_name(task),
        !pnames(s).contains(task),
        !tnames(s).contains(payer),
        payer != task,
    ensures
        wf(apply_pay(s, payer, task, cost)),
{
    let s1 = ensure_participant(s, payer);
    if pnames(s).contains(payer) {
        assert(s1 == s);
        assert(pnames(s1).contains(payer));
    } else {
        assert(apply_add_participant(s, payer) == Ok::<LedgerState, crate::model::ErrV>(s1));
        lemma_wf_add(s, payer);
        assert(pnames(s1) =~= pnames(s).push(payer));
        assert(pnames(s1)[pnames(s1).len() - 1] == payer);
        assert(pnames(s1).contains(payer));
    }
    assert(wf(s1));
    assert(tnames(s1) == tnames(s));
    assert(!pnames(s1).contains(task));
    assert(forall|k: int| 0 <= k < pnames(s1).len() ==> pnames(s1)[k] != task);
    assert(forall|k: int| 0 <= k < tnames(s1).len() ==> tnames(s1)[k] != payer);
    lemma_index_of_name(pnames(s1), payer);
    let oi = index_of_name(pnames(s1), payer);
    match oi {
        None => {
            assert(!pnames(s1).contains(payer));
            assert(false);
        },
        Some(_) => {},
    }
    let i = oi.unwrap();
    assert(pnames(s1)[i] == payer);
    let p = s1.participants[i];
    assert(p.name == payer);
    assert(participant_wf(s1, i));
    assert forall|k: int| 0 <= k < p.tasks.len() implies p.tasks[k] != task || tnames(
        s1,
    ).contains(task) by {
        lemma_index_of_name(tnames(s1), p.tasks[k]);
        assert(index_of_name(tnames(s1), p.tasks[k]) is Some);
    }
    let s3 = apply_pay(s, payer, task, cost);
    match index_of_name(tnames(s1), task) {
        None => {
            assert(!tnames(s1).contains(task)) by {
                lemma_index_of_name(tnames(s1), task);
            }
            assert(forall|k: int| 0 <= k < tnames(s1).len() ==> tnames(s1)[k] != task);
            assert(forall|k: int| 0 <= k < p.tasks.len() ==> p.tasks[k] != task);
            assert(!p.tasks.contains(task));
            assert(!p.paid.contains(task));
            let tnew = TaskState { name: task, owner: payer, members: Seq::empty(), cost };
            let s2 = LedgerState { participants: s1.participants, tasks: s1.tasks.push(tnew) };
            assert(pnames(s2) == pnames(s1));
            assert(tnames(s2) =~= tnames(s1).push(task));
            lemma_index_of_push(tnames(s1), task, task);
            let j = s1.tasks.len() as int;
            assert(index_of_name(tnames(s2), task) == Some(j));
            let p3 = PartState {
                tasks: insert_name(p.tasks, task),
                paid: insert_name(p.paid, task),
                ..p
            };
            let t3 = TaskState { members: insert_name(Seq::empty(), payer), ..tnew };
            assert(s3.participants =~= s2.participants.update(i, p3));
            assert(s3.tasks =~= s2.tasks.update(j, t3));
            lemma_insert_name_props(p.tasks, task);
            lemma_insert_name_props(p.paid, task);
            lemma_insert_name_props(Seq::empty(), payer);
            assert(t3.members =~= Seq::<Seq<char>>::empty().push(payer));
            assert(pnames(s3) =~= pnames(s1));
            assert(tnames(s3) =~= tnames(s1).push(task));
            assert(distinct_names(tnames(s3)));
            assert forall|a: int, b: int|
                0 <= a < s3.participants.len() && 0 <= b < s3.tasks.len() implies pnames(s3)[a]
                != tnames(s3)[b] by {
                if b < j {
                    assert(tnames(s3)[b] == tnames(s1)[b]);
                } else {
                    assert(tnames(s3)[b] == task);
                }
            }
            assert forall|b: int| 0 <= b < s3.tasks.len() implies !reserved_name(
                #[trigger] tnames(s3)[b],
            ) by {
                if b < j {
                    assert(tnames(s3)[b] == tnames(s1)[b]);
                } else {
                    assert(tnames(s3)[b] == task);
                }
            }
            assert forall|ii: int|
                0 <= ii < s3.participants.len() implies participant_wf(s3, ii) by {
                assert(participant_wf(s1, ii));
                let q = s1.participants[ii];
                let q3 = s3.participants[ii];
                assert forall|k: int| 0 <= k < q3.tasks.len() implies match index_of_name(
                    tnames(s3),
                    #[trigger] q3.tasks[k],
                ) {
                    Some(jj) => s3.tasks[jj].members.contains(q3.name),
                    None => false,
                } by {
                    let m = q3.tasks[k];
                    assert(q3.tasks.contains(m));
                    lemma_index_of_push(tnames(s1), task, m);
                    lemma_index_of_name(tnames(s1), m);
                    if ii == i && m == task {
                        assert(index_of_name(tnames(s3), m) == Some(j));
                        assert(s3.tasks[j].members.contains(payer));
                    } else {
                        if ii == i {
                            assert(q3.tasks == insert_name(p.tasks, task));
                            assert(p.tasks.contains(m));
                        } else {
                            assert(q3.tasks == q.tasks);
                            assert(q.tasks.contains(m));
                            assert(m != task) by {
                                lemma_index_of_name(tnames(s1), m);
                            }
                        }
                        match index_of_name(tnames(s1), m) {
                            Some(jm) => {
                                assert(s1.tasks[jm].members.contains(q.name));
                                assert(index_of_name(tnames(s3), m) == Some(jm));
                                assert(s3.tasks[jm] == s1.tasks[jm]);
                            },
                            None => {
                                assert(false);
                            },
                        }
                    }
                }
                assert forall|k: int| 0 <= k < q3.paid.len() implies q3.tasks.contains(
                    #[trigger] q3.paid[k],
                ) && match index_of_name(tnames(s3), q3.paid[k]) {
                    Some(jj) => s3.tasks[jj].owner == q3.name,
                    None => false,
                } by {
                    let m = q3.paid[k];
                    assert(q3.paid.contains(m));
                    lemma_index_of_push(tnames(s1), task, m);
                    lemma_index_of_name(tnames(s1), m);
                    if ii == i && m == task {
                        assert(q3.tasks.contains(task));
                        assert(index_of_name(tnames(s3), m) == Some(j));
                        assert(s3.tasks[j].owner == payer);
                    } else {
                        if ii == i {
                            assert(p.paid.contains(m));
                            let kx = choose|x: int| 0 <= x < p.paid.len() && p.paid[x] == m;
                            assert(p.tasks.contains(p.paid[kx]));
                            assert(p.tasks.contains(m));
                            assert(q3.tasks.contains(m));
                        } else {
                            assert(q.paid.contains(m));
                            let kx = choose|x: int| 0 <= x < q.paid.len() && q.paid[x] == m;
                            assert(q.tasks.contains(q.paid[kx]));
                            assert(q.tasks.contains(m));
                        }
                        match index_of_name(tnames(s1), m) {
                            Some(jm) => {
                                assert(s1.tasks[jm].owner == q.name);
                                assert(index_of_name(tnames(s3), m) == Some(jm));
                                assert(s3.tasks[jm] == s1.tasks[jm]);
                            },
                            None => {
                                assert(false);
                            },
                        }
                    }
                }
            }
            assert forall|jj: int| 0 <= jj < s3.tasks.len() implies task_wf(s3, jj) by {
                if jj < j {
                    assert(task_wf(s1, jj));
                    let t = s1.tasks[jj];
                    assert(s3.tasks[jj] == t);
                    assert forall|k: int| 0 <= k < t.members.len() implies match index_of_name(
                        pnames(s3),
                        #[trigger] t.members[k],
                    ) {
                        Some(im) => s3.participants[im].tasks.contains(t.name),
                        None => false,
                    } by {
                        lemma_index_of_name(pnames(s1), t.members[k]);
                        assert(index_of_name(pnames(s3), t.members[k]) == index_of_name(
                            pnames(s1),
                            t.members[k],
                        ));
                        match index_of_name(pnames(s1), t.members[k]) {
                            Some(im) => {
                                assert(s1.participants[im].tasks.contains(t.name));
                                if im == i {
                                    assert(s3.participants[i].tasks == insert_name(
                                        p.tasks,
                                        task,
                                    ));
                                } else {
                                    assert(s3.participants[im] == s1.participants[im]);
                                }
                            },
                            None => {},
                        }
                    }
                    lemma_index_of_name(pnames(s1), t.owner);
                    assert(index_of_name(pnames(s3), t.owner) == index_of_name(
                        pnames(s1),
                        t.owner,
                    ));
                    match index_of_name(pnames(s1), t.owner) {
                        Some(io) => {
                            assert(s1.participants[io].paid.contains(t.name));
                            if io == i {
                                assert(s3.participants[i].paid == insert_name(p.paid, task));
                            } else {
                                assert(s3.participants[io] == s1.participants[io]);
                            }
                        },
                        None => {},
                    }
                } else {
                    assert(s3.tasks[jj] == t3);
                    assert(t3.members =~= Seq::<Seq<char>>::empty().push(payer));
                    assert(t3.members.len() == 1);
                    assert(t3.members[0] == payer);
                    assert(distinct_names(t3.members));
                    assert(t3.members.contains(payer));
                    assert forall|k: int| 0 <= k < t3.members.len() implies match index_of_name(
                        pnames(s3),
                        #[trigger] t3.members[k],
                    ) {
                        Some(im) => s3.participants[im].tasks.contains(t3.name),
                        None => false,
                    } by {
                        assert(t3.members[k] == payer);
                        assert(index_of_name(pnames(s3), payer) == Some(i));
                        assert(s3.participants[i].tasks.contains(task));
                    }
                    assert(index_of_name(pnames(s3), payer) == Some(i));
                    assert(s3.participants[i].paid.contains(task));
                }
            }
        },
        Some(j) => {
            lemma_index_of_name(tnames(s1), task);
            assert(tnames(s1)[j] == task);
            let t = s1.tasks[j];
            assert(t.name == task);
            assert(task_wf(s1, j));
            if t.owner == payer {
                // re-costing a task the payer already owns: the inserts are
                // no-ops and only the cost changes
                let t2 = TaskState { cost, ..t };
                let s2 = LedgerState {
                    participants: s1.participants,
                    tasks: s1.tasks.update(j, t2),
                };
                assert(pnames(s2) == pnames(s1));
                assert(tnames(s2) =~= tnames(s1));
                assert(index_of_name(tnames(s2), task) == Some(j));
                match index_of_name(pnames(s1), t.owner) {
                    Some(io) => {
                        assert(io == i);
                        assert(p.paid.contains(task));
                    },
                    None => {
                        assert(false);
                    },
                }
                assert(p.tasks.contains(task));
                assert(t.members.contains(payer));
                assert(insert_name(p.tasks, task) == p.tasks);
                assert(insert_name(p.paid, task) == p.paid);
                assert(insert_name(t2.members, payer) == t2.members);
                let p3 = PartState { tasks: p.tasks, paid: p.paid, ..p };
                assert(p3 =~= p);
                assert(s3.participants =~= s1.participants.update(i, p));
                assert(s3.participants =~= s1.participants);
                assert(s3.tasks =~= s1.tasks.update(j, t2));
                assert(pnames(s3) =~= pnames(s1));
                assert(tnames(s3) =~= tnames(s1));
                assert forall|ii: int|
                    0 <= ii < s3.participants.len() implies participant_wf(s3, ii) by {
                    assert(participant_wf(s1, ii));
                    let q = s1.participants[ii];
                    assert(s3.participants[ii] == q);
                    assert forall|k: int| 0 <= k < q.tasks.len() implies match index_of_name(
                        tnames(s3),
                        #[trigger] q.tasks[k],
                    ) {
                        Some(jj) => s3.tasks[jj].members.contains(q.name),
                        None => false,
                    } by {
                        lemma_index_of_name(tnames(s1), q.tasks[k]);
                        assert(index_of_name(tnames(s3), q.tasks[k]) == index_of_name(
                            tnames(s1),
                            q.tasks[k],
                        ));
                        match index_of_name(tnames(s1), q.tasks[k]) {
                            Some(jm) => {
                                assert(s3.tasks[jm].members == s1.tasks[jm].members);
                            },
                            None => {},
                        }
                    }
                    assert forall|k: int| 0 <= k < q.paid.len() implies q.tasks.contains(
                        #[trigger] q.paid[k],
                    ) && match index_of_name(tnames(s3), q.paid[k]) {
                        Some(jj) => s3.tasks[jj].owner == q.name,
                        None => false,
                    } by {
                        lemma_index_of_name(tnames(s1), q.paid[k]);
                        assert(index_of_name(tnames(s3), q.paid[k]) == index_of_name(
                            tnames(s1),
                            q.paid[k],
                        ));
                        match index_of_name(tnames(s1), q.paid[k]) {
                            Some(jm) => {
                                assert(s3.tasks[jm].owner == s1.tasks[jm].owner);
                            },
                            None => {},
                        }
                    }
                }
                assert forall|jj: int| 0 <= jj < s3.tasks.len() implies task_wf(s3, jj) by {
                    assert(task_wf(s1, jj));
                    let t0 = s1.tasks[jj];
                    assert(s3.tasks[jj].name == t0.name && s3.tasks[jj].owner == t0.owner
                        && s3.tasks[jj].members == t0.members);
                    assert(s3.tasks[jj].cost >= 0);
                    assert forall|k: int| 0 <= k < t0.members.len() implies match index_of_name(
                        pnames(s3),
                        #[trigger] t0.members[k],
                    ) {
                        Some(im) => s3.participants[im].tasks.contains(t0.name),
                        None => false,
                    } by {
                        lemma_index_of_name(pnames(s1), t0.members[k]);
                        assert(index_of_name(pnames(s3), t0.members[k]) == index_of_name(
                            pnames(s1),
                            t0.members[k],
                        ));
                        match index_of_name(pnames(s1), t0.members[k]) {
                            Some(im) => {
                                assert(s3.participants[im] == s1.participants[im]);
                            },
                            None => {},
                        }
                    }
                    lemma_index_of_name(pnames(s1), t0.owner);
                    assert(index_of_name(pnames(s3), t0.owner) == index_of_name(
                        pnames(s1),
                        t0.owner,
                    ));
                    match index_of_name(pnames(s1), t0.owner) {
                        Some(io) => {
                            assert(s3.participants[io] == s1.participants[io]);
                        },
                        None => {},
                    }
                }
            } else {
                // ownership migrates: the old owner is fully detached and the
                // payer takes the task over
                let own0 = t.owner;
                match index_of_name(pnames(s1), own0) {
                    Some(_) => {},
                    None => {
                        assert(false);
                    },
                }
                let i0 = index_of_name(pnames(s1), own0).unwrap();
                lemma_index_of_name(pnames(s1), own0);
                assert(pnames(s1)[i0] == own0);
                assert(i0 != i);
                let q0 = s1.participants[i0];
                assert(q0.name == own0);
                assert(q0.paid.contains(task));
                assert(q0.tasks.contains(task));
                assert(participant_wf(s1, i0));
                assert(!p.paid.contains(task)) by {
                    if p.paid.contains(task) {
                        let kx = choose|k: int| 0 <= k < p.paid.len() && p.paid[k] == task;
                        assert(index_of_name(tnames(s1), p.paid[kx]) == Some(j));
                        assert(t.owner == p.name);
                        assert(false);
                    }
                }
                let t1 = TaskState {
                    owner: payer,
                    members: remove_name(t.members, own0),
                    cost,
                    ..t
                };
                let q0b = PartState {
                    tasks: remove_name(q0.tasks, task),
                    paid: remove_name(q0.paid, task),
                    ..q0
                };
                let parts2 = s1.participants.update(i0, q0b);
                let s2 = LedgerState { participants: parts2, tasks: s1.tasks.update(j, t1) };
                assert(pnames(s2) =~= pnames(s1));
                assert(tnames(s2) =~= tnames(s1));
                assert(index_of_name(pnames(s2), payer) == Some(i));
                assert(index_of_name(tnames(s2), task) == Some(j));
                assert(s2.participants[i] == p);
                let p3 = PartState {
                    tasks: insert_name(p.tasks, task),
                    paid: insert_name(p.paid, task),
                    ..p
                };
                let t3 = TaskState { members: insert_name(t1.members, payer), ..t1 };
                assert(s3.participants =~= parts2.update(i, p3));
                assert(s3.tasks =~= s1.tasks.update(j, t3));
                assert(pnames(s3) =~= pnames(s1));
                assert(tnames(s3) =~= tnames(s1));
                lemma_remove_name_props(t.members, own0);
                lemma_remove_name_props(q0.tasks, task);
                lemma_remove_name_props(q0.paid, task);
                lemma_insert_name_props(p.tasks, task);
                lemma_insert_name_props(p.paid, task);
                lemma_insert_name_props(t1.members, payer);
                assert forall|ii: int|
                    0 <= ii < s3.participants.len() implies participant_wf(s3, ii) by {
                    assert(participant_wf(s1, ii));
                    let q = s1.participants[ii];
                    let q3 = s3.participants[ii];
                    assert(q3.name == q.name);
                    assert forall|k: int| 0 <= k < q3.tasks.len() implies match index_of_name(
                        tnames(s3),
                        #[trigger] q3.tasks[k],
                    ) {
                        Some(jj) => s3.tasks[jj].members.contains(q3.name),
                        None => false,
                    } by {
                        let m = q3.tasks[k];
                        assert(q3.tasks.contains(m));
                        lemma_index_of_name(tnames(s1), m);
                        if ii == i && m == task {
                            assert(index_of_name(tnames(s3), m) == Some(j));
                            assert(s3.tasks[j].members.contains(payer));
                        } else if ii != i && ii != i0 && m == task {
                            assert(q.tasks.contains(m));
                            assert(index_of_name(tnames(s3), m) == Some(j));
                            assert(s1.tasks[j].members.contains(q.name));
                            assert(q.name == pnames(s1)[ii]);
                            assert(pnames(s1)[ii] != pnames(s1)[i0]);
                            assert(q.name != own0);
                            assert(t1.members.contains(q.name));
                            assert(s3.tasks[j].members.contains(q.name));
                        } else {
                            if ii == i {
                                assert(p.tasks.contains(m));
                            } else if ii == i0 {
                                assert(q0.tasks.contains(m) && m != task);
                            } else {
                                assert(q.tasks.contains(m));
                            }
                            assert(m != task || ii == i0);
                            if m != task {
                                match index_of_name(tnames(s1), m) {
                                    Some(jm) => {
                                        assert(jm != j);
                                        assert(s1.tasks[jm].members.contains(q.name));
                                        assert(index_of_name(tnames(s3), m) == Some(jm));
                                        assert(s3.tasks[jm] == s1.tasks[jm]);
                                    },
                                    None => {
                                        assert(false);
                                    },
                                }
                            }
                        }
                    }
                    assert forall|k: int| 0 <= k < q3.paid.len() implies q3.tasks.contains(
                        #[trigger] q3.paid[k],
                    ) && match index_of_name(tnames(s3), q3.paid[k]) {
                        Some(jj) => s3.tasks[jj].owner == q3.name,
                        None => false,
                    } by {
                        let m = q3.paid[k];
                        assert(q3.paid.contains(m));
                        lemma_index_of_name(tnames(s1), m);
                        if ii == i && m == task {
                            assert(q3.tasks.contains(task));
                            assert(index_of_name(tnames(s3), m) == Some(j));
                            assert(s3.tasks[j].owner == payer);
                        } else {
                            if ii == i {
                                assert(p.paid.contains(m));
                                assert(p.tasks.contains(m));
                                assert(q3.tasks.contains(m));
                            } else if ii == i0 {
                                assert(q0.paid.contains(m) && m != task);
                                assert(q0.tasks.contains(m));
                                assert(q3.tasks.contains(m));
                            } else {
                                assert(q.paid.contains(m));
                                assert(q.tasks.contains(m));
                            }
                            match index_of_name(tnames(s1), m) {
                                Some(jm) => {
                                    assert(s1.tasks[jm].owner == q.name);
                                    if jm == j {
                                        assert(own0 == q.name);
                                        assert(ii == i0);
                                        assert(m == task);
                                        assert(false);
                                    }
                                    assert(index_of_name(tnames(s3), m) == Some(jm));
                                    assert(s3.tasks[jm] == s1.tasks[jm]);
                                },
                                None => {
                                    assert(false);
                                },
                            }
                        }
                    }
                }
                assert forall|jj: int| 0 <= jj < s3.tasks.len() implies task_wf(s3, jj) by {
                    assert(task_wf(s1, jj));
                    if jj == j {
                        assert(s3.tasks[j] == t3);
                        assert(t3.cost >= 0);
                        assert(distinct_names(t3.members));
                        assert(t3.members.contains(payer));
                        assert forall|k: int|
                            0 <= k < t3.members.len() implies match index_of_name(
                            pnames(s3),
                            #[trigger] t3.members[k],
                        ) {
                            Some(im) => s3.participants[im].tasks.contains(t3.name),
                            None => false,
                        } by {
                            let m = t3.members[k];
                            assert(t3.members.contains(m));
                            lemma_index_of_name(pnames(s1), m);
                            if m == payer {
                                assert(index_of_name(pnames(s3), m) == Some(i));
                                assert(s3.participants[i].tasks.contains(task));
                            } else {
                                assert(t1.members.contains(m));
                                assert(t.members.contains(m) && m != own0);
                                match index_of_name(pnames(s1), m) {
                                    Some(im) => {
                                        assert(im != i0);
                                        assert(s1.participants[im].tasks.contains(t.name));
                                        assert(index_of_name(pnames(s3), m) == Some(im));
                                        if im == i {
                                            assert(s3.participants[i].tasks.contains(task));
                                        } else {
                                            assert(s3.participants[im] == s1.participants[im]);
                                        }
                                    },
                                    None => {
                                        assert(false);
                                    },
                                }
                            }
                        }
                        assert(index_of_name(pnames(s3), payer) == Some(i));
                        assert(s3.participants[i].paid.contains(task));
                    } else {
                        let t0 = s1.tasks[jj];
                        assert(s3.tasks[jj] == t0);
                        assert(tnames(s1)[jj] != tnames(s1)[j]);
                        assert(t0.name != task);
                        assert forall|k: int|
                            0 <= k < t0.members.len() implies match index_of_name(
                            pnames(s3),
                            #[trigger] t0.members[k],
                        ) {
                            Some(im) => s3.participants[im].tasks.contains(t0.name),
                            None => false,
                        } by {
                            lemma_index_of_name(pnames(s1), t0.members[k]);
                            assert(index_of_name(pnames(s3), t0.members[k]) == index_of_name(
                                pnames(s1),
                                t0.members[k],
                            ));
                            match index_of_name(pnames(s1), t0.members[k]) {
                                Some(im) => {
                                    assert(s1.participants[im].tasks.contains(t0.name));
                                    if im == i {
                                        assert(s3.participants[i].tasks == insert_name(
                                            p.tasks,
                                            task,
                                        ));
                                    } else if im == i0 {
                                        assert(s3.participants[i0].tasks == remove_name(
                                            q0.tasks,
                                            task,
                                        ));
                                    } else {
                                        assert(s3.participants[im] == s1.participants[im]);
                                    }
                                },
                                None => {},
                            }
                        }
                        lemma_index_of_name(pnames(s1), t0.owner);
                        assert(index_of_name(pnames(s3), t0.owner) == index_of_name(
                            pnames(s1),
                            t0.owner,
                        ));
                        match index_of_name(pnames(s1), t0.owner) {
                            Some(io) => {
                                assert(s1.participants[io].paid.contains(t0.name));
                                if io == i {
                                    assert(s3.participants[i].paid == insert_name(
                                        p.paid,
                                        task,
                                    ));
                                } else if io == i0 {
                                    assert(s3.participants[i0].paid == remove_name(
                                        q0.paid,
                                        task,
                                    ));
                                } else {
                                    assert(s3.participants[io] == s1.participants[io]);
                                }
                            },
                            None => {},
                        }
                    }
                }
            }
        },
    }
}


/// The tolerant `add` over a whole list preserves the invariant.
pub proof fn lemma_wf_add_list(s: LedgerState, names: Seq<Seq<char>>)
    requires
        wf(s),
    ensures
        wf(apply_add_list(s, names).0),
    decreases names.len(),
{
    if names.len() > 0 {
        if names[0] == "all"@ {
            lemma_wf_add_list(s, names.drop_first());
        } else {
            match apply_add_participant(s, names[0]) {
                Ok(s1) => {
                    lemma_wf_add(s, names[0]);
                    lemma_wf_add_list(s1, names.drop_first());
                },
                Err(_) => {
                    lemma_wf_add_list(s, names.drop_first());
                },
            }
        }
    }
}

/// Associating a list of names with one task preserves the invariant.
pub proof fn lemma_wf_associate_list(s: LedgerState, task: Seq<char>, members: Seq<Seq<char>>)
    requires
        wf(s),
    ensures
        wf(apply_associate_list(s, task, members)),
    decreases members.len(),
{
    if members.len() > 0 {
        lemma_wf_associate(s, task, members[0]);
        lemma_wf_associate_list(apply_associate(s, task, members[0]), task, members.drop_first());
    }
}

/// The `part all` fan-outs preserve the invariant.
pub proof fn lemma_wf_part_fanout(
    s: LedgerState,
    tasklist: Seq<Seq<char>>,
    members: Seq<Seq<char>>,
)
    requires
        wf(s),
    ensures
        wf(apply_part_fanout(s, tasklist, members)),
    decreases tasklist.len(),
{
    if tasklist.len() > 0 {
        lemma_wf_associate_list(s, tasklist[0], members);
        lemma_wf_part_fanout(
            apply_associate_list(s, tasklist[0], members),
            tasklist.drop_first(),
            members,
        );
    }
}

} // verus!
