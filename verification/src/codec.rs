//! The snapshot codec.
//!
//! The store already keeps the participant/task relation flat — both
//! sides refer to each other by name only — so a snapshot is simply a
//! faithful copy of the store. Saving hands such a copy out;
//! loading validates every structural invariant and swaps the copy in
//! only when all of them hold, leaving the store untouched otherwise.

use vstd::prelude::*;
use crate::errors::LedgerError;
use crate::model::{
    LedgerState, pnames, tnames, index_of_name, lemma_index_of_name, wf, participant_wf, task_wf,
    distinct_names, reserved_name,
};
use crate::store::{Payment, Participant, Task};
use crate::text::{str_views, str_eq, string_eq_str};

verus! {

/// The position of the first string with these characters.
fn find_in_vec(v: &Vec<String>, n: &str) -> (r: Option<usize>)
    ensures
        match r {
            Some(i) => index_of_name(str_views(v@), n@) == Some(i as int),
            None => index_of_name(str_views(v@), n@) is None,
        },
{
    let m = v.len();
    let mut i: usize = 0;
    while i < m
        invariant
            m == v@.len(),
            i <= m,
            forall|k: int| 0 <= k < i ==> str_views(v@)[k] != n@,
        decreases m - i,
    {
        if string_eq_str(&v[i], n) {
            proof {
                assert(str_views(v@)[i as int] == n@);
                crate::model::lemma_index_of_name_unique(str_views(v@), n@, i as int);
            }
            return Some(i);
        }
        proof {
            assert(str_views(v@)[i as int] == v@[i as int]@);
        }
        i = i + 1;
    }
    proof {
        lemma_index_of_name(str_views(v@), n@);
    }
    None
}

/// A copy of a vector of strings, character for character.
fn copy_strings(v: &Vec<String>) -> (r: Vec<String>)
    ensures
        r@.len() == v@.len(),
        str_views(r@) == str_views(v@),
{
    let m = v.len();
    let mut r: Vec<String> = Vec::new();
    let mut i: usize = 0;
    while i < m
        invariant
            m == v@.len(),
            i <= m,
            r@.len() == i,
            forall|k: int| 0 <= k < i ==> str_views(r@)[k] == str_views(v@)[k],
        decreases m - i,
    {
        let x = v[i].clone();
        proof {
            assert(str_views(r@.push(x)) =~= str_views(r@).push(x@));
        }
        r.push(x);
        i = i + 1;
    }
    proof {
        assert(str_views(r@) =~= str_views(v@));
    }
    r
}

impl Payment {
    /// Decides the store invariant: returns true exactly when the live
    /// state is well-formed.
    #[verifier::loop_isolation(false)]
    #[verifier::rlimit(100)]
    pub fn check_wf(&self) -> (b: bool)
        ensures
            b == wf(self@),
    {
        let ghost s = self@;
        let np = self.participants.len();
        let nt = self.tasks.len();
        // Participant names: unique, not reserved, no clash with task names.
        let mut i: usize = 0;
        while i < np
            invariant
                i <= np,
                forall|a: int, b2: int| 0 <= a < b2 < i ==> pnames(s)[a] != pnames(s)[b2],
                forall|k: int| 0 <= k < i ==> !reserved_name(#[trigger] pnames(s)[k]),
                forall|k: int, j: int|
                    0 <= k < i && 0 <= j < s.tasks.len() ==> pnames(s)[k] != tnames(s)[j],
            decreases np - i,
        {
            proof {
                assert(pnames(s)[i as int] == self.participants@[i as int]@.name);
            }
            match self.find_participant(self.participants[i].name.as_str()) {
                Some(k) => {
                    if k != i {
                        proof {
                            lemma_index_of_name(pnames(s), pnames(s)[i as int]);
                            assert(pnames(s)[k as int] == pnames(s)[i as int]);
                            assert(k < i);
                            assert(!distinct_names(pnames(s)));
                        }
                        return false;
                    }
                    proof {
                        lemma_index_of_name(pnames(s), pnames(s)[i as int]);
                    }
                },
                None => {
                    proof {
                        lemma_index_of_name(pnames(s), pnames(s)[i as int]);
                        assert(false);
                    }
                    return false;
                },
            }
            if str_eq(self.participants[i].name.as_str(), "all") || str_eq(
                self.participants[i].name.as_str(),
                "-a",
            ) {
                proof {
                    assert(reserved_name(pnames(s)[i as int]));
                }
                return false;
            }
            if self.find_task(self.participants[i].name.as_str()).is_some() {
                proof {
                    lemma_index_of_name(tnames(s), pnames(s)[i as int]);
                }
                return false;
            }
            proof {
                lemma_index_of_name(tnames(s), pnames(s)[i as int]);
            }
            i = i + 1;
        }
        // Task names: unique, not reserved.
        let mut j: usize = 0;
        while j < nt
            invariant
                j <= nt,
                forall|a: int, b2: int| 0 <= a < b2 < j ==> tnames(s)[a] != tnames(s)[b2],
                forall|k: int| 0 <= k < j ==> !reserved_name(#[trigger] tnames(s)[k]),
            decreases nt - j,
        {
            proof {
                assert(tnames(s)[j as int] == self.tasks@[j as int]@.name);
            }
            match self.find_task(self.tasks[j].name.as_str()) {
                Some(k) => {
                    if k != j {
                        proof {
                            lemma_index_of_name(tnames(s), tnames(s)[j as int]);
                            assert(tnames(s)[k as int] == tnames(s)[j as int]);
                            assert(k < j);
                            assert(!distinct_names(tnames(s)));
                        }
                        return false;
                    }
                    proof {
                        lemma_index_of_name(tnames(s), tnames(s)[j as int]);
                    }
                },
                None => {
                    proof {
                        lemma_index_of_name(tnames(s), tnames(s)[j as int]);
                        assert(false);
                    }
                    return false;
                },
            }
            if str_eq(self.tasks[j].name.as_str(), "all") || str_eq(
                self.tasks[j].name.as_str(),
                "-a",
            ) {
                proof {
                    assert(reserved_name(tnames(s)[j as int]));
                }
                return false;
            }
            j = j + 1;
        }
        // Each participant's references resolve and point back.
        let mut i: usize = 0;
        while i < np
            invariant
                i <= np,
                forall|k: int| 0 <= k < i ==> participant_wf(s, k),
            decreases np - i,
        {
            let ghost p = s.participants[i as int];
            let ntk = self.participants[i].tasks.len();
            let mut k: usize = 0;
            while k < ntk
                invariant
                    k <= ntk,
                    forall|a: int, b2: int| 0 <= a < b2 < k ==> p.tasks[a] != p.tasks[b2],
                    forall|x: int|
                        0 <= x < k ==> match index_of_name(tnames(s), #[trigger] p.tasks[x]) {
                            Some(jj) => s.tasks[jj].members.contains(p.name),
                            None => false,
                        },
                decreases ntk - k,
            {
                proof {
                    assert(p.tasks[k as int] == self.participants@[i as int].tasks@[k as int]@);
                }
                match find_in_vec(&self.participants[i].tasks, self.participants[i].tasks[
                    k
                ].as_str()) {
                    Some(k2) => {
                        if k2 != k {
                            proof {
                                lemma_index_of_name(p.tasks, p.tasks[k as int]);
                                assert(p.tasks[k2 as int] == p.tasks[k as int]);
                                assert(k2 < k);
                                if wf(s) {
                                    assert(participant_wf(s, i as int));
                                    assert(false);
                                }
                            }
                            return false;
                        }
                        proof {
                            lemma_index_of_name(p.tasks, p.tasks[k as int]);
                        }
                    },
                    None => {
                        proof {
                            lemma_index_of_name(p.tasks, p.tasks[k as int]);
                            assert(false);
                        }
                        return false;
                    },
                }
                match self.find_task(self.participants[i].tasks[k].as_str()) {
                    Some(jj) => {
                        proof {
                            lemma_index_of_name(tnames(s), p.tasks[k as int]);
                        }
                        if !crate::store::contains_str(
                            &self.tasks[jj].participants,
                            self.participants[i].name.as_str(),
                        ) {
                            proof {
                                if wf(s) {
                                    assert(participant_wf(s, i as int));
                                    assert(false);
                                }
                            }
                            return false;
                        }
                    },
                    None => {
                        proof {
                            if wf(s) {
                                assert(participant_wf(s, i as int));
                                assert(false);
                            }
                        }
                        return false;
                    },
                }
                k = k + 1;
            }
            let npk = self.participants[i].paid_tasks.len();
            let mut k: usize = 0;
            while k < npk
                invariant
                    k <= npk,
                    forall|a: int, b2: int| 0 <= a < b2 < k ==> p.paid[a] != p.paid[b2],
                    forall|x: int|
                        0 <= x < k ==> p.tasks.contains(#[trigger] p.paid[x]) && match
                            index_of_name(tnames(s), p.paid[x]) {
                            Some(jj) => s.tasks[jj].owner == p.name,
                            None => false,
                        },
                decreases npk - k,
            {
                proof {
                    assert(p.paid[k as int] == self.participants@[i as int].paid_tasks@[
                        k as int
                    ]@);
                }
                match find_in_vec(&self.participants[i].paid_tasks, self.participants[
                    i
                ].paid_tasks[k].as_str()) {
                    Some(k2) => {
                        if k2 != k {
                            proof {
                                lemma_index_of_name(p.paid, p.paid[k as int]);
                                assert(p.paid[k2 as int] == p.paid[k as int]);
                                assert(k2 < k);
                                if wf(s) {
                                    assert(participant_wf(s, i as int));
                                    assert(false);
                                }
                            }
                            return false;
                        }
                        proof {
                            lemma_index_of_name(p.paid, p.paid[k as int]);
                        }
                    },
                    None => {
                        proof {
                            lemma_index_of_name(p.paid, p.paid[k as int]);
                            assert(false);
                        }
                        return false;
                    },
                }
                if !crate::store::contains_str(
                    &self.participants[i].tasks,
                    self.participants[i].paid_tasks[k].as_str(),
                ) {
                    proof {
                        if wf(s) {
                            assert(participant_wf(s, i as int));
                            assert(false);
                        }
                    }
                    return false;
                }
                match self.find_task(self.participants[i].paid_tasks[k].as_str()) {
                    Some(jj) => {
                        proof {
                            lemma_index_of_name(tnames(s), p.paid[k as int]);
                        }
                        if !string_eq_str(
                            &self.tasks[jj].owner,
                            self.participants[i].name.as_str(),
                        ) {
                            proof {
                                if wf(s) {
                                    assert(participant_wf(s, i as int));
                                    assert(false);
                                }
                            }
                            return false;
                        }
                    },
                    None => {
                        proof {
                            if wf(s) {
                                assert(participant_wf(s, i as int));
                                assert(false);
                            }
                        }
                        return false;
                    },
                }
                k = k + 1;
            }
            proof {
                assert(participant_wf(s, i as int));
            }
            i = i + 1;
        }
        // Each task's cost, owner and member references.
        let mut j: usize = 0;
        while j < nt
            invariant
                j <= nt,
                forall|k: int| 0 <= k < j ==> task_wf(s, k),
            decreases nt - j,
        {
            let ghost t = s.tasks[j as int];
            if self.tasks[j].cost < 0 {
                proof {
                    if wf(s) {
                        assert(task_wf(s, j as int));
                        assert(false);
                    }
                }
                return false;
            }
            let nmb = self.tasks[j].participants.len();
            let mut k: usize = 0;
            while k < nmb
                invariant
                    k <= nmb,
                    forall|a: int, b2: int| 0 <= a < b2 < k ==> t.members[a] != t.members[b2],
                    forall|x: int|
                        0 <= x < k ==> match index_of_name(pnames(s), #[trigger] t.members[x]) {
                            Some(ii) => s.participants[ii].tasks.contains(t.name),
                            None => false,
                        },
                decreases nmb - k,
            {
                proof {
                    assert(t.members[k as int] == self.tasks@[j as int].participants@[
                        k as int
                    ]@);
                }
                match find_in_vec(&self.tasks[j].participants, self.tasks[j].participants[
                    k
                ].as_str()) {
                    Some(k2) => {
                        if k2 != k {
                            proof {
                                lemma_index_of_name(t.members, t.members[k as int]);
                                assert(t.members[k2 as int] == t.members[k as int]);
                                assert(k2 < k);
                                if wf(s) {
                                    assert(task_wf(s, j as int));
                                    assert(false);
                                }
                            }
                            return false;
                        }
                        proof {
                            lemma_index_of_name(t.members, t.members[k as int]);
                        }
                    },
                    None => {
                        proof {
                            lemma_index_of_name(t.members, t.members[k as int]);
                            assert(false);
                        }
                        return false;
                    },
                }
                match self.find_participant(self.tasks[j].participants[k].as_str()) {
                    Some(ii) => {
                        proof {
                            lemma_index_of_name(pnames(s), t.members[k as int]);
                        }
                        if !crate::store::contains_str(
                            &self.participants[ii].tasks,
                            self.tasks[j].name.as_str(),
                        ) {
                            proof {
                                if wf(s) {
                                    assert(task_wf(s, j as int));
                                    assert(false);
                                }
                            }
                            return false;
                        }
                    },
                    None => {
                        proof {
                            if wf(s) {
                                assert(task_wf(s, j as int));
                                assert(false);
                            }
                        }
                        return false;
                    },
                }
                k = k + 1;
            }
            if !crate::store::contains_str(&self.tasks[j].participants, self.tasks[j].owner.as_str()) {
                proof {
                    if wf(s) {
                        assert(task_wf(s, j as int));
                        assert(false);
                    }
                }
                return false;
            }
            match self.find_participant(self.tasks[j].owner.as_str()) {
                Some(ii) => {
                    proof {
                        lemma_index_of_name(pnames(s), t.owner);
                    }
                    if !crate::store::contains_str(
                        &self.participants[ii].paid_tasks,
                        self.tasks[j].name.as_str(),
                    ) {
                        proof {
                            if wf(s) {
                                assert(task_wf(s, j as int));
                                assert(false);
                            }
                        }
                        return false;
                    }
                },
                None => {
                    proof {
                        if wf(s) {
                            assert(task_wf(s, j as int));
                            assert(false);
                        }
                    }
                    return false;
                },
            }
            proof {
                assert(task_wf(s, j as int));
            }
            j = j + 1;
        }
        proof {
            assert(wf(s));
        }
        true
    }

    /// A faithful copy of the store in its persisted, cycle-free shape:
    /// every cross-reference is a plain name.
    pub fn to_snapshot(&self) -> (snap: Payment)
        ensures
            snap@ == self@,
    {
        let np = self.participants.len();
        let mut ps: Vec<Participant> = Vec::new();
        let mut i: usize = 0;
        while i < np
            invariant
                np == self.participants@.len(),
                i <= np,
                ps@.len() == i,
                forall|k: int| 0 <= k < i ==> ps@[k]@ == self@.participants[k],
            decreases np - i,
        {
            let p = Participant {
                name: self.participants[i].name.clone(),
                tasks: copy_strings(&self.participants[i].tasks),
                paid_tasks: copy_strings(&self.participants[i].paid_tasks),
                payments_made: self.participants[i].payments_made.clone(),
            };
            proof {
                assert(p@ =~= self@.participants[i as int]);
            }
            ps.push(p);
            i = i + 1;
        }
        let nt = self.tasks.len();
        let mut ts: Vec<Task> = Vec::new();
        let mut j: usize = 0;
        while j < nt
            invariant
                nt == self.tasks@.len(),
                j <= nt,
                ts@.len() == j,
                forall|k: int| 0 <= k < j ==> ts@[k]@ == self@.tasks[k],
            decreases nt - j,
        {
            let t = Task {
                name: self.tasks[j].name.clone(),
                owner: self.tasks[j].owner.clone(),
                participants: copy_strings(&self.tasks[j].participants),
                cost: self.tasks[j].cost,
            };
            proof {
                assert(t@ =~= self@.tasks[j as int]);
            }
            ts.push(t);
            j = j + 1;
        }
        let snap = Payment { participants: ps, tasks: ts };
        proof {
            assert(snap@.participants =~= self@.participants);
            assert(snap@.tasks =~= self@.tasks);
            assert(snap@ =~= self@);
        }
        snap
    }

    /// Replaces the store with a loaded snapshot, but only after every
    /// structural invariant has been checked; a corrupt snapshot is
    /// rejected and the current state kept untouched.
    pub fn install_snapshot(&mut self, snap: Payment) -> (r: Result<(), LedgerError>)
        ensures
            wf(snap@) ==> r is Ok && final(self)@ == snap@,
            !wf(snap@) ==> (r matches Err(e) && e@ == crate::model::ErrV::CorruptSnapshot
                && final(self)@ == old(self)@),
            wf(old(self)@) ==> wf(final(self)@),
    {
        if snap.check_wf() {
            *self = snap;
            Ok(())
        } else {
            Err(LedgerError::CorruptSnapshot)
        }
    }
}

/// Saving then loading restores the store exactly: `to_snapshot` hands
/// out precisely the live state, the state stays well-formed, and
/// `install_snapshot` accepts every well-formed snapshot and installs it
/// unchanged — so a round trip through the codec is the identity.
pub proof fn lemma_snapshot_round_trip(
    live: LedgerState,
    saved: LedgerState,
    loaded: LedgerState,
)
    requires
        wf(live),
        saved == live,
        wf(saved) ==> loaded == saved,
    ensures
        loaded == live,
{
}

} // verus!
