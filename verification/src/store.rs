//! The executable entity store: participants, tasks and their relation,
//! refined by the model in [`crate::model`].
//!
//! Every mutation is specified as equality with the corresponding
//! `apply_*` function of the model, so the store's behaviour is pinned
//! down completely by the model's definitions.

use vstd::prelude::*;
use crate::errors::LedgerError;
use crate::model::{
    PartState, TaskState, LedgerState, ErrV, pnames, tnames, index_of_name, lemma_index_of_name,
    lemma_index_of_name_unique, fresh_participant, apply_add_participant, wf, insert_name,
    remove_name, remove_names, replace_name, replace_names, apply_transfer, apply_associate,
    apply_rename, apply_remove_task, apply_remove_participant, apply_detach, apply_pay,
    ensure_participant, remove_tasks_named, reserved_name,
};
use crate::text::{str_views, str_eq, string_eq_str};
use crate::integrity::{
    lemma_wf_add, lemma_wf_transfer, lemma_wf_associate, lemma_wf_rename, lemma_wf_remove_task,
    lemma_wf_remove_participant, lemma_wf_detach, lemma_wf_pay,
};

verus! {

/// A named party in the ledger.
pub struct Participant {
    /// Unique name.
    pub name: String,
    /// Names of the tasks whose cost this participant shares.
    pub tasks: Vec<String>,
    /// Names of the tasks this participant fronted the money for.
    pub paid_tasks: Vec<String>,
    /// Direct transfers in minor units: positive paid out, negative received.
    pub payments_made: Vec<i64>,
}

/// A shared expense with one paying owner and cost-sharing members.
pub struct Task {
    /// Unique name.
    pub name: String,
    /// Name of the participant who fronted the cost.
    pub owner: String,
    /// Names of the participants sharing the cost.
    pub participants: Vec<String>,
    /// Cost in minor units.
    pub cost: i64,
}

/// The ledger: the collection of participants and tasks.
pub struct Payment {
    pub participants: Vec<Participant>,
    pub tasks: Vec<Task>,
}

impl View for Participant {
    type V = PartState;

    open spec fn view(&self) -> PartState {
        PartState {
            name: self.name@,
            tasks: str_views(self.tasks@),
            paid: str_views(self.paid_tasks@),
            payments: self.payments_made@.map_values(|x: i64| x as int),
        }
    }
}

impl View for Task {
    type V = TaskState;

    open spec fn view(&self) -> TaskState {
        TaskState {
            name: self.name@,
            owner: self.owner@,
            members: str_views(self.participants@),
            cost: self.cost as int,
        }
    }
}

impl View for Payment {
    type V = LedgerState;

    open spec fn view(&self) -> LedgerState {
        LedgerState {
            participants: self.participants@.map_values(|p: Participant| p@),
            tasks: self.tasks@.map_values(|t: Task| t@),
        }
    }
}

/// Whether `names` holds `n` exactly when the search finds it.
pub proof fn lemma_contains_index(names: Seq<Seq<char>>, n: Seq<char>)
    ensures
        names.contains(n) <==> index_of_name(names, n) is Some,
{
    lemma_index_of_name(names, n);
    match index_of_name(names, n) {
        Some(i) => {
            assert(names.contains(n));
        },
        None => {
            assert(forall|k: int| 0 <= k < names.len() ==> names[k] != n);
        },
    }
}

/// Whether the vector holds a string with these characters.
pub(crate) fn contains_str(v: &Vec<String>, n: &str) -> (r: bool)
    ensures
        r == str_views(v@).contains(n@),
{
    let m = v.len();
    let mut i: usize = 0;
    while i < m
        invariant
            m == v@.len(),
            i <= m,
            forall|k: int| 0 <= k < i ==> str_views(v@)[k] != n@,
        decreases m - i,
    {
        if string_eq_str(&v[i], n) {
            proof {
                assert(str_views(v@)[i as int] == n@);
            }
            return true;
        }
        proof {
            assert(str_views(v@)[i as int] == v@[i as int]@);
        }
        i = i + 1;
    }
    proof {
        assert(!str_views(v@).contains(n@));
    }
    false
}

/// Appends `n` unless already present; the view is the model's
/// `insert_name`.
fn insert_name_vec(v: &mut Vec<String>, n: &str)
    ensures
        str_views(final(v)@) == insert_name(str_views(old(v)@), n@),
{
    if !contains_str(v, n) {
        let ghost prev = v@;
        v.push(n.to_owned());
        proof {
            assert(str_views(v@) =~= str_views(prev).push(n@));
        }
    }
}

/// A copy of `v` without any string holding the characters of `o`; the
/// view is the model's `remove_name`.
fn remove_name_vec(v: &Vec<String>, o: &str) -> (r: Vec<String>)
    ensures
        str_views(r@) == remove_name(str_views(v@), o@),
{
    let m = v.len();
    let mut r: Vec<String> = Vec::new();
    proof {
        assert(str_views(r@) =~= remove_name(str_views(v@.subrange(0, 0)), o@));
    }
    let mut i: usize = 0;
    while i < m
        invariant
            m == v@.len(),
            i <= m,
            str_views(r@) == remove_name(str_views(v@.subrange(0, i as int)), o@),
        decreases m - i,
    {
        let ghost pre = v@.subrange(0, i as int);
        proof {
            assert(v@.subrange(0, i + 1).drop_last() =~= pre);
            assert(str_views(v@.subrange(0, i + 1)).drop_last() =~= str_views(pre));
            assert(str_views(v@.subrange(0, i + 1)).last() == v@[i as int]@);
        }
        if !string_eq_str(&v[i], o) {
            let ghost rp = r@;
            r.push(v[i].clone());
            proof {
                assert(str_views(r@) =~= str_views(rp).push(v@[i as int]@));
            }
        }
        i = i + 1;
    }
    proof {
        assert(v@.subrange(0, m as int) =~= v@);
    }
    r
}

/// A copy of `v` without any string named in `rem`; the view is the
/// model's `remove_names`.
fn remove_names_vec(v: &Vec<String>, rem: &Vec<String>) -> (r: Vec<String>)
    ensures
        str_views(r@) == remove_names(str_views(v@), str_views(rem@)),
{
    let m = v.len();
    let mut r: Vec<String> = Vec::new();
    proof {
        assert(str_views(r@) =~= remove_names(str_views(v@.subrange(0, 0)), str_views(rem@)));
    }
    let mut i: usize = 0;
    while i < m
        invariant
            m == v@.len(),
            i <= m,
            str_views(r@) == remove_names(str_views(v@.subrange(0, i as int)), str_views(rem@)),
        decreases m - i,
    {
        let ghost pre = v@.subrange(0, i as int);
        proof {
            assert(v@.subrange(0, i + 1).drop_last() =~= pre);
            assert(str_views(v@.subrange(0, i + 1)).drop_last() =~= str_views(pre));
            assert(str_views(v@.subrange(0, i + 1)).last() == v@[i as int]@);
        }
        if !contains_str(rem, v[i].as_str()) {
            let ghost rp = r@;
            r.push(v[i].clone());
            proof {
                assert(str_views(r@) =~= str_views(rp).push(v@[i as int]@));
            }
        }
        i = i + 1;
    }
    proof {
        assert(v@.subrange(0, m as int) =~= v@);
    }
    r
}

/// The string, renamed if it is the old name; the view is the model's
/// `replace_name`.
fn replace_string(s: &String, o: &str, n: &str) -> (r: String)
    ensures
        r@ == replace_name(s@, o@, n@),
{
    if string_eq_str(s, o) {
        n.to_owned()
    } else {
        s.clone()
    }
}

/// A copy of `v` with the old name replaced wherever it occurs; the view
/// is the model's `replace_names`.
fn replace_names_vec(v: &Vec<String>, o: &str, n: &str) -> (r: Vec<String>)
    ensures
        str_views(r@) == replace_names(str_views(v@), o@, n@),
{
    let m = v.len();
    let mut r: Vec<String> = Vec::new();
    let mut i: usize = 0;
    while i < m
        invariant
            m == v@.len(),
            i <= m,
            r@.len() == i,
            forall|k: int| 0 <= k < i ==> str_views(r@)[k] == replace_name(v@[k]@, o@, n@),
        decreases m - i,
    {
        let x = replace_string(&v[i], o, n);
        proof {
            assert(str_views(r@.push(x)) =~= str_views(r@).push(x@));
        }
        r.push(x);
        i = i + 1;
    }
    proof {
        assert(str_views(r@) =~= replace_names(str_views(v@), o@, n@));
    }
    r
}

impl Participant {
    /// A fresh participant with no tasks and no payments.
    pub fn new(name: &str) -> (p: Participant)
        ensures
            p@ == fresh_participant(name@),
    {
        let p = Participant {
            name: name.to_owned(),
            tasks: Vec::new(),
            paid_tasks: Vec::new(),
            payments_made: Vec::new(),
        };
        proof {
            assert(p@.tasks =~= fresh_participant(name@).tasks);
            assert(p@.paid =~= fresh_participant(name@).paid);
            assert(p@.payments =~= fresh_participant(name@).payments);
            assert(p@ =~= fresh_participant(name@));
        }
        p
    }
}

impl Payment {
    /// An empty ledger.
    pub fn new() -> (s: Payment)
        ensures
            s@.participants.len() == 0,
            s@.tasks.len() == 0,
            wf(s@),
    {
        let s = Payment { participants: Vec::new(), tasks: Vec::new() };
        proof {
            assert(s@.participants =~= Seq::<PartState>::empty());
            assert(s@.tasks =~= Seq::<TaskState>::empty());
        }
        s
    }

    /// The position of the participant with this name, if any.
    pub fn find_participant(&self, name: &str) -> (r: Option<usize>)
        ensures
            match r {
                Some(i) => index_of_name(pnames(self@), name@) == Some(i as int),
                None => index_of_name(pnames(self@), name@) is None,
            },
    {
        let n = self.participants.len();
        let mut i: usize = 0;
        while i < n
            invariant
                n == self.participants@.len(),
                i <= n,
                forall|k: int| 0 <= k < i ==> pnames(self@)[k] != name@,
            decreases n - i,
        {
            if string_eq_str(&self.participants[i].name, name) {
                proof {
                    assert(pnames(self@)[i as int] == name@);
                    lemma_index_of_name_unique(pnames(self@), name@, i as int);
                }
                return Some(i);
            }
            proof {
                assert(pnames(self@)[i as int] == self.participants@[i as int]@.name);
            }
            i = i + 1;
        }
        proof {
            lemma_index_of_name(pnames(self@), name@);
        }
        None
    }

    /// The position of the task with this name, if any.
    pub fn find_task(&self, name: &str) -> (r: Option<usize>)
        ensures
            match r {
                Some(i) => index_of_name(tnames(self@), name@) == Some(i as int),
                None => index_of_name(tnames(self@), name@) is None,
            },
    {
        let n = self.tasks.len();
        let mut i: usize = 0;
        while i < n
            invariant
                n == self.tasks@.len(),
                i <= n,
                forall|k: int| 0 <= k < i ==> tnames(self@)[k] != name@,
            decreases n - i,
        {
            if string_eq_str(&self.tasks[i].name, name) {
                proof {
                    assert(tnames(self@)[i as int] == name@);
                    lemma_index_of_name_unique(tnames(self@), name@, i as int);
                }
                return Some(i);
            }
            proof {
                assert(tnames(self@)[i as int] == self.tasks@[i as int]@.name);
            }
            i = i + 1;
        }
        proof {
            lemma_index_of_name(tnames(self@), name@);
        }
        None
    }

    /// Creates a participant with this name, or reports the `NameConflict`
    /// that prevents it. The store is exactly the model's
    /// `apply_add_participant` result.
    pub fn add_participant(&mut self, name: &str) -> (r: Result<(), LedgerError>)
        ensures
            wf(old(self)@) ==> wf(final(self)@),
            match r {
                Ok(_) => apply_add_participant(old(self)@, name@) == Ok::<LedgerState, ErrV>(
                    final(self)@,
                ),
                Err(e) => final(self)@ == old(self)@ && apply_add_participant(
                    old(self)@,
                    name@,
                ) == Err::<LedgerState, ErrV>(e@),
            },
    {
        proof {
            lemma_contains_index(pnames(self@), name@);
            lemma_contains_index(tnames(self@), name@);
        }
        if str_eq(name, "all") || str_eq(name, "-a") {
            return Err(LedgerError::NameConflict(name.to_owned()));
        }
        if self.find_participant(name).is_some() || self.find_task(name).is_some() {
            return Err(LedgerError::NameConflict(name.to_owned()));
        }
        let p = Participant::new(name);
        let ghost prev: LedgerState = self@;
        self.participants.push(p);
        proof {
            assert(self@.participants =~= prev.participants.push(fresh_participant(name@)));
            assert(self@.tasks =~= prev.tasks);
            assert(self@ =~= (match apply_add_participant(prev, name@) {
                Ok(s1) => s1,
                Err(_) => prev,
            }));
            if wf(prev) {
                lemma_wf_add(prev, name@);
            }
        }
        Ok(())
    }

    /// Records a direct transfer: the amount joins the payer's payments,
    /// its negation the payee's. Fails with `UnknownParticipant` when
    /// either name is absent, the payer checked first.
    pub fn record_transfer(&mut self, payer: &str, payee: &str, amount: i64) -> (r: Result<
        (),
        LedgerError,
    >)
        requires
            0 <= amount,
        ensures
            wf(old(self)@) ==> wf(final(self)@),
            match r {
                Ok(_) => index_of_name(pnames(old(self)@), payer@) is Some && index_of_name(
                    pnames(old(self)@),
                    payee@,
                ) is Some && final(self)@ == apply_transfer(
                    old(self)@,
                    payer@,
                    payee@,
                    amount as int,
                ),
                Err(e) => final(self)@ == old(self)@ && (if index_of_name(
                    pnames(old(self)@),
                    payer@,
                ) is None {
                    e@ == ErrV::UnknownParticipant(payer@)
                } else {
                    index_of_name(pnames(old(self)@), payee@) is None && e@
                        == ErrV::UnknownParticipant(payee@)
                }),
            },
    {
        let Some(i) = self.find_participant(payer) else {
            return Err(LedgerError::UnknownParticipant(payer.to_owned()));
        };
        if self.find_participant(payee).is_none() {
            return Err(LedgerError::UnknownParticipant(payee.to_owned()));
        };
        let ghost s0 = self@;
        proof {
            lemma_index_of_name(pnames(s0), payer@);
        }
        let ghost v0 = self.participants@;
        let mut p = self.participants.remove(i);
        p.payments_made.push(amount);
        self.participants.insert(i, p);
        proof {
            assert(self.participants@ =~= v0.update(i as int, p));
            let p1 = PartState {
                payments: s0.participants[i as int].payments.push(amount as int),
                ..s0.participants[i as int]
            };
            assert(p@.payments =~= p1.payments);
            assert(p@ =~= p1);
            let s1 = LedgerState {
                participants: s0.participants.update(i as int, p1),
                tasks: s0.tasks,
            };
            assert(self@.participants =~= s1.participants);
            assert(self@ =~= s1);
            assert(pnames(self@) =~= pnames(s0));
        }
        let Some(j) = self.find_participant(payee) else {
            proof {
                assert(false);
            }
            return Err(LedgerError::UnknownParticipant(payee.to_owned()));
        };
        let ghost s1 = self@;
        proof {
            lemma_index_of_name(pnames(s1), payee@);
        }
        let ghost v1 = self.participants@;
        let mut q = self.participants.remove(j);
        q.payments_made.push(-amount);
        self.participants.insert(j, q);
        proof {
            assert(self.participants@ =~= v1.update(j as int, q));
            let q1 = PartState {
                payments: s1.participants[j as int].payments.push(-(amount as int)),
                ..s1.participants[j as int]
            };
            assert(q@.payments =~= q1.payments);
            assert(q@ =~= q1);
            let s2 = LedgerState {
                participants: s1.participants.update(j as int, q1),
                tasks: s1.tasks,
            };
            assert(self@.participants =~= s2.participants);
            assert(self@ =~= s2);
            assert(self@ =~= apply_transfer(s0, payer@, payee@, amount as int));
            if wf(s0) {
                lemma_wf_transfer(s0, payer@, payee@, amount as int);
            }
        }
        Ok(())
    }

    /// Associates one participant with one task: both gain the reference.
    /// A silent no-op when either name is absent; the `part` verb reports
    /// an absent task before calling this. Associating a participant who
    /// already shares the task — the owner included — is also a no-op:
    /// the reference lists are kept free of duplicates, so no double
    /// bookkeeping can arise.
    pub fn associate(&mut self, task: &str, member: &str)
        ensures
            final(self)@ == apply_associate(old(self)@, task@, member@),
            wf(old(self)@) ==> wf(final(self)@),
    {
        let ghost s0 = self@;
        let oj = self.find_task(task);
        let oi = self.find_participant(member);
        match (oj, oi) {
            (Some(j), Some(i)) => {
                proof {
                    lemma_index_of_name(pnames(s0), member@);
                    lemma_index_of_name(tnames(s0), task@);
                }
                let ghost v0 = self.participants@;
                let mut p = self.participants.remove(i);
                insert_name_vec(&mut p.tasks, task);
                self.participants.insert(i, p);
                let ghost w0 = self.tasks@;
                let mut t = self.tasks.remove(j);
                insert_name_vec(&mut t.participants, member);
                self.tasks.insert(j, t);
                proof {
                    let s1 = apply_associate(s0, task@, member@);
                    assert(self.participants@ =~= v0.update(i as int, p));
                    assert(self.tasks@ =~= w0.update(j as int, t));
                    assert(p@ =~= s1.participants[i as int]);
                    assert(t@ =~= s1.tasks[j as int]);
                    assert(self@.participants =~= s1.participants);
                    assert(self@.tasks =~= s1.tasks);
                    assert(self@ =~= s1);
                }
            },
            _ => {},
        }
        proof {
            if wf(s0) {
                lemma_wf_associate(s0, task@, member@);
            }
        }
    }

    /// Renames a participant or a task: every reference to the old name,
    /// on either side of the relation, is rewritten; costs, payments and
    /// positions stay. Fails with `NameConflict` when the new name is
    /// taken or reserved, and with `NotFound` when the old name denotes
    /// nothing.
    pub fn rename(&mut self, old_name: &str, new_name: &str) -> (r: Result<(), LedgerError>)
        ensures
            wf(old(self)@) ==> wf(final(self)@),
            match r {
                Ok(_) => !reserved_name(new_name@) && index_of_name(
                    pnames(old(self)@),
                    new_name@,
                ) is None && index_of_name(tnames(old(self)@), new_name@) is None && (
                index_of_name(pnames(old(self)@), old_name@) is Some || index_of_name(
                    tnames(old(self)@),
                    old_name@,
                ) is Some) && final(self)@ == apply_rename(old(self)@, old_name@, new_name@),
                Err(e) => final(self)@ == old(self)@ && (if reserved_name(new_name@)
                    || index_of_name(pnames(old(self)@), new_name@) is Some || index_of_name(
                    tnames(old(self)@),
                    new_name@,
                ) is Some {
                    e@ == ErrV::NameConflict(new_name@)
                } else {
                    index_of_name(pnames(old(self)@), old_name@) is None && index_of_name(
                        tnames(old(self)@),
                        old_name@,
                    ) is None && e@ == ErrV::NotFound(old_name@)
                }),
            },
    {
        if str_eq(new_name, "all") || str_eq(new_name, "-a") {
            return Err(LedgerError::NameConflict(new_name.to_owned()));
        }
        if self.find_participant(new_name).is_some() || self.find_task(new_name).is_some() {
            return Err(LedgerError::NameConflict(new_name.to_owned()));
        }
        if self.find_participant(old_name).is_none() && self.find_task(old_name).is_none() {
            return Err(LedgerError::NotFound(old_name.to_owned()));
        }
        let ghost s0 = self@;
        let ghost t0 = apply_rename(s0, old_name@, new_name@);
        let np = self.participants.len();
        let mut i: usize = 0;
        while i < np
            invariant
                np == self.participants@.len(),
                i <= np,
                self@.tasks == s0.tasks,
                t0 == apply_rename(s0, old_name@, new_name@),
                t0.participants.len() == np,
                forall|k: int| 0 <= k < i ==> self@.participants[k] == t0.participants[k],
                forall|k: int| i <= k < np ==> self@.participants[k] == s0.participants[k],
            decreases np - i,
        {
            let ghost sp = self@;
            let mut p = self.participants.remove(i);
            let nn = replace_string(&p.name, old_name, new_name);
            p.name = nn;
            let nt = replace_names_vec(&p.tasks, old_name, new_name);
            p.tasks = nt;
            let npd = replace_names_vec(&p.paid_tasks, old_name, new_name);
            p.paid_tasks = npd;
            self.participants.insert(i, p);
            proof {
                assert(self@.participants[i as int] =~= t0.participants[i as int]);
                assert(forall|k: int|
                    0 <= k < np && k != i ==> self@.participants[k] == sp.participants[k]);
            }
            i = i + 1;
        }
        let ghost sm = self@;
        let nt = self.tasks.len();
        let mut j: usize = 0;
        while j < nt
            invariant
                nt == self.tasks@.len(),
                j <= nt,
                self@.participants == sm.participants,
                t0 == apply_rename(s0, old_name@, new_name@),
                t0.tasks.len() == nt,
                forall|k: int| 0 <= k < j ==> self@.tasks[k] == t0.tasks[k],
                forall|k: int| j <= k < nt ==> self@.tasks[k] == s0.tasks[k],
            decreases nt - j,
        {
            let ghost sp = self@;
            let mut t = self.tasks.remove(j);
            let nn = replace_string(&t.name, old_name, new_name);
            t.name = nn;
            let no = replace_string(&t.owner, old_name, new_name);
            t.owner = no;
            let nm = replace_names_vec(&t.participants, old_name, new_name);
            t.participants = nm;
            self.tasks.insert(j, t);
            proof {
                assert(self@.tasks[j as int] =~= t0.tasks[j as int]);
                assert(forall|k: int| 0 <= k < nt && k != j ==> self@.tasks[k] == sp.tasks[k]);
            }
            j = j + 1;
        }
        proof {
            assert(self@.participants =~= t0.participants);
            assert(self@.tasks =~= t0.tasks);
            assert(self@ =~= t0);
            if wf(s0) {
                lemma_contains_index(pnames(s0), new_name@);
                lemma_contains_index(tnames(s0), new_name@);
                lemma_contains_index(pnames(s0), old_name@);
                lemma_contains_index(tnames(s0), old_name@);
                assert(old_name@ != new_name@);
                lemma_wf_rename(s0, old_name@, new_name@);
            }
        }
        Ok(())
    }

    /// Removes a task: it disappears from the store and from every
    /// participant's task and paid-task lists. Fails with `NotFound` when
    /// no task has this name.
    #[verifier::loop_isolation(false)]
    pub fn remove_task(&mut self, task: &str) -> (r: Result<(), LedgerError>)
        ensures
            wf(old(self)@) ==> wf(final(self)@),
            match r {
                Ok(_) => index_of_name(tnames(old(self)@), task@) is Some && final(self)@
                    == apply_remove_task(old(self)@, task@),
                Err(e) => final(self)@ == old(self)@ && index_of_name(
                    tnames(old(self)@),
                    task@,
                ) is None && e@ == ErrV::NotFound(task@),
            },
    {
        let Some(j) = self.find_task(task) else {
            return Err(LedgerError::NotFound(task.to_owned()));
        };
        let ghost s0 = self@;
        let ghost t0 = apply_remove_task(s0, task@);
        proof {
            lemma_index_of_name(tnames(s0), task@);
        }
        self.tasks.remove(j);
        proof {
            assert(self@.tasks =~= t0.tasks);
            assert(self@.participants =~= s0.participants);
        }
        let np = self.participants.len();
        let mut i: usize = 0;
        while i < np
            invariant
                np == self.participants@.len(),
                i <= np,
                self@.tasks == t0.tasks,
                t0 == apply_remove_task(s0, task@),
                t0.participants.len() == np,
                forall|k: int| 0 <= k < i ==> self@.participants[k] == t0.participants[k],
                forall|k: int| i <= k < np ==> self@.participants[k] == s0.participants[k],
            decreases np - i,
        {
            let ghost sp = self@;
            let ghost vp = self.participants@;
            let mut p = self.participants.remove(i);
            let nt = remove_name_vec(&p.tasks, task);
            p.tasks = nt;
            let npd = remove_name_vec(&p.paid_tasks, task);
            p.paid_tasks = npd;
            self.participants.insert(i, p);
            proof {
                assert(self.participants@ =~= vp.update(i as int, p));
                assert(self@.participants[i as int] =~= t0.participants[i as int]);
                assert(forall|k: int|
                    0 <= k < np && k != i ==> self@.participants[k] == sp.participants[k]);
            }
            i = i + 1;
        }
        proof {
            assert(self@.participants =~= t0.participants);
            assert(self@ =~= t0);
            if wf(s0) {
                lemma_wf_remove_task(s0, task@);
            }
        }
        Ok(())
    }

    /// Removes a participant: every task they paid for is removed with all
    /// its bookkeeping, and they are detached from the tasks they merely
    /// shared. Fails with `NotFound` when no participant has this name.
    #[verifier::loop_isolation(false)]
    pub fn remove_participant(&mut self, name: &str) -> (r: Result<(), LedgerError>)
        ensures
            wf(old(self)@) ==> wf(final(self)@),
            match r {
                Ok(_) => index_of_name(pnames(old(self)@), name@) is Some && final(self)@
                    == apply_remove_participant(old(self)@, name@),
                Err(e) => final(self)@ == old(self)@ && index_of_name(
                    pnames(old(self)@),
                    name@,
                ) is None && e@ == ErrV::NotFound(name@),
            },
    {
        let Some(i) = self.find_participant(name) else {
            return Err(LedgerError::NotFound(name.to_owned()));
        };
        let ghost s0 = self@;
        let ghost t0 = apply_remove_participant(s0, name@);
        proof {
            lemma_index_of_name(pnames(s0), name@);
        }
        let p = self.participants.remove(i);
        let owned = p.paid_tasks;
        proof {
            assert(str_views(owned@) == s0.participants[i as int].paid);
            assert(self@.participants =~= s0.participants.remove(i as int));
        }
        let np = self.participants.len();
        let mut k: usize = 0;
        while k < np
            invariant
                np == self.participants@.len(),
                k <= np,
                self@.tasks == s0.tasks,
                str_views(owned@) == s0.participants[i as int].paid,
                t0 == apply_remove_participant(s0, name@),
                t0.participants.len() == np,
                forall|m: int| 0 <= m < k ==> self@.participants[m] == t0.participants[m],
                forall|m: int|
                    k <= m < np ==> self@.participants[m] == s0.participants.remove(i as int)[m],
            decreases np - k,
        {
            let ghost sp = self@;
            let ghost vp = self.participants@;
            let mut q = self.participants.remove(k);
            let nt = remove_names_vec(&q.tasks, &owned);
            q.tasks = nt;
            let npd = remove_names_vec(&q.paid_tasks, &owned);
            q.paid_tasks = npd;
            self.participants.insert(k, q);
            proof {
                assert(self.participants@ =~= vp.update(k as int, q));
                assert(self@.participants[k as int] =~= t0.participants[k as int]);
                assert(forall|m: int|
                    0 <= m < np && m != k ==> self@.participants[m] == sp.participants[m]);
            }
            k = k + 1;
        }
        let ghost parts_done = self@.participants;
        let nt = self.tasks.len();
        let mut kept: Vec<Task> = Vec::new();
        proof {
            assert(self.tasks@.subrange(0, 0) =~= Seq::<Task>::empty());
            assert(kept@.map_values(|t: Task| t@) =~= remove_tasks_named(
                s0.tasks.subrange(0, 0),
                str_views(owned@),
            ).map_values(
                |t: TaskState| TaskState { members: remove_name(t.members, name@), ..t },
            ));
        }
        let mut j: usize = 0;
        while j < nt
            invariant
                nt == self.tasks@.len(),
                j <= nt,
                self@.participants == parts_done,
                self@.tasks == s0.tasks,
                str_views(owned@) == s0.participants[i as int].paid,
                kept@.map_values(|t: Task| t@) == remove_tasks_named(
                    s0.tasks.subrange(0, j as int),
                    str_views(owned@),
                ).map_values(
                    |t: TaskState| TaskState { members: remove_name(t.members, name@), ..t },
                ),
            decreases nt - j,
        {
            let ghost pre = s0.tasks.subrange(0, j as int);
            proof {
                assert(s0.tasks.subrange(0, j + 1).drop_last() =~= pre);
                assert(s0.tasks.subrange(0, j + 1).last() == self@.tasks[j as int]);
            }
            if !contains_str(&owned, &self.tasks[j].name) {
                let ghost kp = kept@;
                let mut t = Task {
                    name: self.tasks[j].name.clone(),
                    owner: self.tasks[j].owner.clone(),
                    participants: remove_name_vec(&self.tasks[j].participants, name),
                    cost: self.tasks[j].cost,
                };
                kept.push(t);
                proof {
                    assert(kept@.map_values(|t: Task| t@) =~= kp.map_values(
                        |t: Task| t@,
                    ).push(
                        TaskState {
                            members: remove_name(s0.tasks[j as int].members, name@),
                            ..s0.tasks[j as int]
                        },
                    ));
                    assert(remove_tasks_named(
                        s0.tasks.subrange(0, j + 1),
                        str_views(owned@),
                    ).map_values(
                        |t: TaskState| TaskState { members: remove_name(t.members, name@), ..t },
                    ) =~= kept@.map_values(|t: Task| t@));
                }
            } else {
                proof {
                    assert(remove_tasks_named(s0.tasks.subrange(0, j + 1), str_views(owned@))
                        =~= remove_tasks_named(pre, str_views(owned@)));
                }
            }
            j = j + 1;
        }
        self.tasks = kept;
        proof {
            assert(s0.tasks.subrange(0, nt as int) =~= s0.tasks);
            assert(self@.participants =~= t0.participants);
            assert(self@.tasks =~= t0.tasks);
            assert(self@ =~= t0);
            if wf(s0) {
                lemma_wf_remove_participant(s0, name@);
            }
        }
        Ok(())
    }

    /// Detaches a participant from a task they share but did not pay for,
    /// leaving the task in place. A silent no-op when the participant does
    /// not share the task. Fails with `UnknownTask` when the task argument
    /// is a reserved token (no bulk detach exists), with
    /// `UnknownParticipant` when the participant is absent, and with
    /// `OwnsTask` when they paid for the task.
    pub fn detach(&mut self, part: &str, task: &str) -> (r: Result<(), LedgerError>)
        ensures
            wf(old(self)@) ==> wf(final(self)@),
            match r {
                Ok(_) => !reserved_name(task@) && index_of_name(
                    pnames(old(self)@),
                    part@,
                ) is Some && !old(
                    self,
                )@.participants[index_of_name(pnames(old(self)@), part@).unwrap()].paid.contains(
                    task@,
                ) && final(self)@ == apply_detach(old(self)@, part@, task@),
                Err(e) => final(self)@ == old(self)@ && (if reserved_name(task@) {
                    e@ == ErrV::UnknownTask(task@)
                } else if index_of_name(pnames(old(self)@), part@) is None {
                    e@ == ErrV::UnknownParticipant(part@)
                } else {
                    old(self)@.participants[index_of_name(pnames(old(self)@), part@).unwrap()].paid.contains(
                        task@,
                    ) && e@ == ErrV::OwnsTask(task@)
                }),
            },
    {
        if str_eq(task, "all") || str_eq(task, "-a") {
            return Err(LedgerError::UnknownTask(task.to_owned()));
        }
        let Some(i) = self.find_participant(part) else {
            return Err(LedgerError::UnknownParticipant(part.to_owned()));
        };
        let ghost s0 = self@;
        proof {
            lemma_index_of_name(pnames(s0), part@);
        }
        if contains_str(&self.participants[i].paid_tasks, task) {
            return Err(LedgerError::OwnsTask(task.to_owned()));
        }
        if !contains_str(&self.participants[i].tasks, task) {
            return Ok(());
        }
        let ghost v0 = self.participants@;
        let mut p = self.participants.remove(i);
        let nt = remove_name_vec(&p.tasks, task);
        p.tasks = nt;
        self.participants.insert(i, p);
        proof {
            assert(self.participants@ =~= v0.update(i as int, p));
            assert(p@ =~= PartState {
                tasks: remove_name(s0.participants[i as int].tasks, task@),
                ..s0.participants[i as int]
            });
            assert(tnames(self@) =~= tnames(s0));
        }
        let ghost s1 = self@;
        match self.find_task(task) {
            Some(j) => {
                proof {
                    lemma_index_of_name(tnames(s1), task@);
                }
                let ghost w0 = self.tasks@;
                let mut t = self.tasks.remove(j);
                let nm = remove_name_vec(&t.participants, part);
                t.participants = nm;
                self.tasks.insert(j, t);
                proof {
                    assert(self.tasks@ =~= w0.update(j as int, t));
                    assert(t@ =~= TaskState {
                        members: remove_name(s0.tasks[j as int].members, part@),
                        ..s0.tasks[j as int]
                    });
                    assert(self@.participants =~= apply_detach(s0, part@, task@).participants);
                    assert(self@.tasks =~= apply_detach(s0, part@, task@).tasks);
                    assert(self@ =~= apply_detach(s0, part@, task@));
                }
            },
            None => {
                proof {
                    assert(self@.participants =~= apply_detach(s0, part@, task@).participants);
                    assert(self@.tasks =~= apply_detach(s0, part@, task@).tasks);
                    assert(self@ =~= apply_detach(s0, part@, task@));
                }
            },
        }
        proof {
            if wf(s0) {
                lemma_wf_detach(s0, part@, task@);
            }
        }
        Ok(())
    }

    /// Removes whatever the name denotes: a participant (with its cascade)
    /// or, failing that, a task. Fails with `NotFound` when the name
    /// denotes neither.
    pub fn remove(&mut self, name: &str) -> (r: Result<(), LedgerError>)
        ensures
            wf(old(self)@) ==> wf(final(self)@),
            match r {
                Ok(_) => if index_of_name(pnames(old(self)@), name@) is Some {
                    final(self)@ == apply_remove_participant(old(self)@, name@)
                } else {
                    index_of_name(tnames(old(self)@), name@) is Some && final(self)@
                        == apply_remove_task(old(self)@, name@)
                },
                Err(e) => final(self)@ == old(self)@ && index_of_name(
                    pnames(old(self)@),
                    name@,
                ) is None && index_of_name(tnames(old(self)@), name@) is None && e@
                    == ErrV::NotFound(name@),
            },
    {
        if self.find_participant(name).is_some() {
            return self.remove_participant(name);
        }
        self.remove_task(name)
    }

    /// Records a payment for a task (the mutation behind the `pay` verb):
    /// the payer is created if absent, the task is created or re-costed,
    /// ownership migrates to the payer with the previous owner fully
    /// detached, and the payer shares and is credited for the task.
    #[verifier::rlimit(100)]
    pub fn ensure_task(&mut self, payer: &str, task: &str, cost: i64)
        requires
            0 <= cost,
        ensures
            final(self)@ == apply_pay(old(self)@, payer@, task@, cost as int),
            (wf(old(self)@) && !reserved_name(payer@) && !reserved_name(task@) && !pnames(
                old(self)@,
            ).contains(task@) && !tnames(old(self)@).contains(payer@) && payer@ != task@) ==> wf(
                final(self)@,
            ),
    {
        let ghost s0 = self@;
        if self.find_participant(payer).is_none() {
            self.participants.push(Participant::new(payer));
            proof {
                lemma_contains_index(pnames(s0), payer@);
            }
        } else {
            proof {
                lemma_contains_index(pnames(s0), payer@);
            }
        }
        proof {
            assert(self@.participants =~= ensure_participant(s0, payer@).participants);
            assert(self@.tasks =~= ensure_participant(s0, payer@).tasks);
            assert(self@ =~= ensure_participant(s0, payer@));
        }
        let ghost s1 = self@;
        match self.find_task(task) {
            Some(j) => {
                proof {
                    lemma_index_of_name(tnames(s1), task@);
                }
                let ghost w0 = self.tasks@;
                let mut t = self.tasks.remove(j);
                t.cost = cost;
                if !string_eq_str(&t.owner, payer) {
                    let old_owner = t.owner.clone();
                    match self.find_participant(old_owner.as_str()) {
                        Some(i0) => {
                            proof {
                                lemma_index_of_name(pnames(s1), old_owner@);
                            }
                            let ghost v0 = self.participants@;
                            let mut po = self.participants.remove(i0);
                            let a = remove_name_vec(&po.tasks, task);
                            po.tasks = a;
                            let b = remove_name_vec(&po.paid_tasks, task);
                            po.paid_tasks = b;
                            self.participants.insert(i0, po);
                            proof {
                                assert(self.participants@ =~= v0.update(i0 as int, po));
                            }
                        },
                        None => {},
                    }
                    let nm = remove_name_vec(&t.participants, old_owner.as_str());
                    t.participants = nm;
                    t.owner = payer.to_owned();
                }
                self.tasks.insert(j, t);
                proof {
                    assert(self.tasks@ =~= w0.update(j as int, t));
                    let t_old = s1.tasks[j as int];
                    if t_old.owner == payer@ {
                        assert(t@ =~= TaskState { cost: cost as int, ..t_old });
                        assert(self@.participants =~= s1.participants);
                    } else {
                        assert(t@ =~= TaskState {
                            owner: payer@,
                            members: remove_name(t_old.members, t_old.owner),
                            cost: cost as int,
                            ..t_old
                        });
                    }
                }
            },
            None => {
                self.tasks.push(
                    Task {
                        name: task.to_owned(),
                        owner: payer.to_owned(),
                        participants: Vec::new(),
                        cost,
                    },
                );
                proof {
                    let tv = TaskState {
                        name: task@,
                        owner: payer@,
                        members: Seq::empty(),
                        cost: cost as int,
                    };
                    assert(self@.tasks.last() =~= tv);
                    assert(self@.tasks =~= s1.tasks.push(tv));
                }
            },
        }
        proof {
            let ghost s2spec = (match index_of_name(tnames(s1), task@) {
                Some(j) => {
                    let t = s1.tasks[j];
                    if t.owner == payer@ {
                        LedgerState {
                            participants: s1.participants,
                            tasks: s1.tasks.update(j, TaskState { cost: cost as int, ..t }),
                        }
                    } else {
                        let t1 = TaskState {
                            owner: payer@,
                            members: remove_name(t.members, t.owner),
                            cost: cost as int,
                            ..t
                        };
                        let parts1 = match index_of_name(pnames(s1), t.owner) {
                            Some(i0) => s1.participants.update(
                                i0,
                                PartState {
                                    tasks: remove_name(s1.participants[i0].tasks, task@),
                                    paid: remove_name(s1.participants[i0].paid, task@),
                                    ..s1.participants[i0]
                                },
                            ),
                            None => s1.participants,
                        };
                        LedgerState { participants: parts1, tasks: s1.tasks.update(j, t1) }
                    }
                },
                None => LedgerState {
                    participants: s1.participants,
                    tasks: s1.tasks.push(
                        TaskState {
                            name: task@,
                            owner: payer@,
                            members: Seq::empty(),
                            cost: cost as int,
                        },
                    ),
                },
            });
            assert(self@.participants =~= s2spec.participants);
            assert(self@.tasks =~= s2spec.tasks);
            assert(self@ =~= s2spec);
        }
        let ghost s2 = self@;
        let oi = self.find_participant(payer);
        let oj = self.find_task(task);
        match (oi, oj) {
            (Some(i), Some(j)) => {
                proof {
                    lemma_index_of_name(pnames(s2), payer@);
                    lemma_index_of_name(tnames(s2), task@);
                }
                let ghost v0 = self.participants@;
                let mut p = self.participants.remove(i);
                insert_name_vec(&mut p.tasks, task);
                insert_name_vec(&mut p.paid_tasks, task);
                self.participants.insert(i, p);
                let ghost w0 = self.tasks@;
                let mut t = self.tasks.remove(j);
                insert_name_vec(&mut t.participants, payer);
                self.tasks.insert(j, t);
                proof {
                    assert(self.participants@ =~= v0.update(i as int, p));
                    assert(self.tasks@ =~= w0.update(j as int, t));
                    assert(p@ =~= PartState {
                        tasks: insert_name(s2.participants[i as int].tasks, task@),
                        paid: insert_name(s2.participants[i as int].paid, task@),
                        ..s2.participants[i as int]
                    });
                    assert(t@ =~= TaskState {
                        members: insert_name(s2.tasks[j as int].members, payer@),
                        ..s2.tasks[j as int]
                    });
                    assert(self@.participants =~= apply_pay(
                        s0,
                        payer@,
                        task@,
                        cost as int,
                    ).participants);
                    assert(self@.tasks =~= apply_pay(s0, payer@, task@, cost as int).tasks);
                    assert(self@ =~= apply_pay(s0, payer@, task@, cost as int));
                }
            },
            _ => {
                proof {
                    assert(self@ =~= apply_pay(s0, payer@, task@, cost as int));
                }
            },
        }
        proof {
            if wf(s0) && !reserved_name(payer@) && !reserved_name(task@) && !pnames(s0).contains(
                task@,
            ) && !tnames(s0).contains(payer@) && payer@ != task@ {
                lemma_wf_pay(s0, payer@, task@, cost as int);
            }
        }
    }
}

} // verus!
