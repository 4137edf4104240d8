//! The mathematical model of the ledger.
//!
//! A ledger state is a pair of sequences: participants and tasks, each
//! carrying plain character-sequence names. The relation between them is
//! stored by name on both sides; [`wf`] says when the two sides agree.
//! Every mutation of the executable store is specified as a function from
//! state to state defined here.

use vstd::prelude::*;
use crate::errors::LedgerError;

verus! {

/// Model of one participant.
#[verifier::ext_equal]
pub struct PartState {
    /// Unique name.
    pub name: Seq<char>,
    /// Names of the tasks whose cost this participant shares.
    pub tasks: Seq<Seq<char>>,
    /// Names of the tasks this participant fronted the money for.
    pub paid: Seq<Seq<char>>,
    /// Direct transfers: positive amounts were paid out, negative received.
    pub payments: Seq<int>,
}

/// Model of one task.
#[verifier::ext_equal]
pub struct TaskState {
    /// Unique name.
    pub name: Seq<char>,
    /// Name of the participant who fronted the cost.
    pub owner: Seq<char>,
    /// Names of the participants sharing the cost; always includes the owner.
    pub members: Seq<Seq<char>>,
    /// Cost in minor units, never negative.
    pub cost: int,
}

/// Model of the whole store.
#[verifier::ext_equal]
pub struct LedgerState {
    pub participants: Seq<PartState>,
    pub tasks: Seq<TaskState>,
}

/// Model of a ledger failure; mirrors `LedgerError` with names as
/// character sequences.
pub enum ErrV {
    MalformedCommand,
    UnknownCommand(Seq<char>),
    NameConflict(Seq<char>),
    NotFound(Seq<char>),
    UnknownParticipant(Seq<char>),
    UnknownTask(Seq<char>),
    InvalidAmount(Seq<char>),
    OwnsTask(Seq<char>),
    CorruptSnapshot,
    IoFailure(Seq<char>),
}


/// The model value of a ledger failure.
impl View for LedgerError {
    type V = ErrV;

    open spec fn view(&self) -> ErrV {
        match self {
            LedgerError::MalformedCommand => ErrV::MalformedCommand,
            LedgerError::UnknownCommand(s) => ErrV::UnknownCommand(s@),
            LedgerError::NameConflict(s) => ErrV::NameConflict(s@),
            LedgerError::NotFound(s) => ErrV::NotFound(s@),
            LedgerError::UnknownParticipant(s) => ErrV::UnknownParticipant(s@),
            LedgerError::UnknownTask(s) => ErrV::UnknownTask(s@),
            LedgerError::InvalidAmount(s) => ErrV::InvalidAmount(s@),
            LedgerError::OwnsTask(s) => ErrV::OwnsTask(s@),
            LedgerError::CorruptSnapshot => ErrV::CorruptSnapshot,
            LedgerError::IoFailure(s) => ErrV::IoFailure(s@),
        }
    }
}

/// The names of a sequence of participants.
pub open spec fn part_names(ps: Seq<PartState>) -> Seq<Seq<char>> {
    ps.map_values(|p: PartState| p.name)
}

/// The names of a sequence of tasks.
pub open spec fn task_names(ts: Seq<TaskState>) -> Seq<Seq<char>> {
    ts.map_values(|t: TaskState| t.name)
}

/// The participant names of `s`, in store order.
pub open spec fn pnames(s: LedgerState) -> Seq<Seq<char>> {
    part_names(s.participants)
}

/// The task names of `s`, in store order.
pub open spec fn tnames(s: LedgerState) -> Seq<Seq<char>> {
    task_names(s.tasks)
}

/// The position of the first occurrence of `n` in `names`.
pub open spec fn index_of_name(names: Seq<Seq<char>>, n: Seq<char>) -> Option<int>
    decreases names.len(),
{
    if names.len() == 0 {
        None
    } else if names[0] == n {
        Some(0)
    } else {
        match index_of_name(names.drop_first(), n) {
            Some(i) => Some(i + 1),
            None => None,
        }
    }
}

/// What `index_of_name` returns: the first matching position, if any.
pub proof fn lemma_index_of_name(names: Seq<Seq<char>>, n: Seq<char>)
    ensures
        match index_of_name(names, n) {
            Some(i) => 0 <= i < names.len() && names[i] == n && (forall|k: int|
                0 <= k < i ==> names[k] != n),
            None => forall|k: int| 0 <= k < names.len() ==> names[k] != n,
        },
    decreases names.len(),
{
    if names.len() > 0 && names[0] != n {
        lemma_index_of_name(names.drop_first(), n);
        match index_of_name(names, n) {
            Some(i) => {
                assert(names[i] == names.drop_first()[i - 1]);
                assert forall|k: int| 0 <= k < i implies names[k] != n by {
                    if k > 0 {
                        assert(names[k] == names.drop_first()[k - 1]);
                    }
                }
            },
            None => {
                assert forall|k: int| 0 <= k < names.len() implies names[k] != n by {
                    if k > 0 {
                        assert(names[k] == names.drop_first()[k - 1]);
                    }
                }
            },
        }
    }
}

/// A position that matches and is preceded by no match is the one
/// `index_of_name` returns.
pub proof fn lemma_index_of_name_unique(names: Seq<Seq<char>>, n: Seq<char>, i: int)
    requires
        0 <= i < names.len(),
        names[i] == n,
        forall|k: int| 0 <= k < i ==> names[k] != n,
    ensures
        index_of_name(names, n) == Some(i),
    decreases names.len(),
{
    if names[0] != n {
        lemma_index_of_name_unique(names.drop_first(), n, i - 1);
    }
}

/// Whether all names in the sequence differ pairwise.
pub open spec fn distinct_names(names: Seq<Seq<char>>) -> bool {
    forall|i: int, j: int| 0 <= i < j < names.len() ==> names[i] != names[j]
}

/// The tokens that can never name an entity.
pub open spec fn reserved_name(n: Seq<char>) -> bool {
    n == "all"@ || n == "-a"@
}

/// Well-formedness of one participant within `s`: its task references
/// exist and point back at it, and its paid tasks are tasks it owns and
/// shares.
pub open spec fn participant_wf(s: LedgerState, i: int) -> bool
    recommends
        0 <= i < s.participants.len(),
{
    let p = s.participants[i];
    &&& distinct_names(p.tasks)
    &&& distinct_names(p.paid)
    &&& forall|k: int|
        0 <= k < p.tasks.len() ==> match index_of_name(tnames(s), #[trigger] p.tasks[k]) {
            Some(j) => s.tasks[j].members.contains(p.name),
            None => false,
        }
    &&& forall|k: int|
        0 <= k < p.paid.len() ==> p.tasks.contains(#[trigger] p.paid[k])
            && match index_of_name(tnames(s), p.paid[k]) {
            Some(j) => s.tasks[j].owner == p.name,
            None => false,
        }
}

/// Well-formedness of one task within `s`: non-negative cost, the owner
/// among the members, every member an existing participant that points
/// back, and the owner accounting for the task as paid.
pub open spec fn task_wf(s: LedgerState, j: int) -> bool
    recommends
        0 <= j < s.tasks.len(),
{
    let t = s.tasks[j];
    &&& t.cost >= 0
    &&& distinct_names(t.members)
    &&& t.members.contains(t.owner)
    &&& forall|k: int|
        0 <= k < t.members.len() ==> match index_of_name(pnames(s), #[trigger] t.members[k]) {
            Some(i) => s.participants[i].tasks.contains(t.name),
            None => false,
        }
    &&& match index_of_name(pnames(s), t.owner) {
        Some(i) => s.participants[i].paid.contains(t.name),
        None => false,
    }
}

/// The store invariant: names are unique across both namespaces and never
/// reserved, and both sides of the participant/task relation agree.
pub open spec fn wf(s: LedgerState) -> bool {
    &&& distinct_names(pnames(s))
    &&& distinct_names(tnames(s))
    &&& forall|i: int, j: int|
        0 <= i < s.participants.len() && 0 <= j < s.tasks.len() ==> pnames(s)[i] != tnames(s)[j]
    &&& forall|i: int| 0 <= i < s.participants.len() ==> !reserved_name(#[trigger] pnames(s)[i])
    &&& forall|j: int| 0 <= j < s.tasks.len() ==> !reserved_name(#[trigger] tnames(s)[j])
    &&& forall|i: int| 0 <= i < s.participants.len() ==> participant_wf(s, i)
    &&& forall|j: int| 0 <= j < s.tasks.len() ==> task_wf(s, j)
}

/// `names` with `n` appended unless already present.
pub open spec fn insert_name(names: Seq<Seq<char>>, n: Seq<char>) -> Seq<Seq<char>> {
    if names.contains(n) {
        names
    } else {
        names.push(n)
    }
}

/// `names` without any occurrence of `o`.
pub open spec fn remove_name(names: Seq<Seq<char>>, o: Seq<char>) -> Seq<Seq<char>>
    decreases names.len(),
{
    if names.len() == 0 {
        Seq::empty()
    } else if names.last() == o {
        remove_name(names.drop_last(), o)
    } else {
        remove_name(names.drop_last(), o).push(names.last())
    }
}

/// `names` without any occurrence of a name listed in `rem`.
pub open spec fn remove_names(names: Seq<Seq<char>>, rem: Seq<Seq<char>>) -> Seq<Seq<char>>
    decreases names.len(),
{
    if names.len() == 0 {
        Seq::empty()
    } else if rem.contains(names.last()) {
        remove_names(names.drop_last(), rem)
    } else {
        remove_names(names.drop_last(), rem).push(names.last())
    }
}

/// `m`, renamed if it is the old name.
pub open spec fn replace_name(m: Seq<char>, o: Seq<char>, n: Seq<char>) -> Seq<char> {
    if m == o {
        n
    } else {
        m
    }
}

/// Every occurrence of `o` in `names` replaced by `n`.
pub open spec fn replace_names(names: Seq<Seq<char>>, o: Seq<char>, n: Seq<char>) -> Seq<
    Seq<char>,
> {
    names.map_values(|m: Seq<char>| replace_name(m, o, n))
}

/// An empty participant with the given name.
pub open spec fn fresh_participant(n: Seq<char>) -> PartState {
    PartState { name: n, tasks: Seq::empty(), paid: Seq::empty(), payments: Seq::empty() }
}

/// Creating a participant: fails on a reserved or taken name, otherwise
/// appends an empty participant.
pub open spec fn apply_add_participant(s: LedgerState, n: Seq<char>) -> Result<
    LedgerState,
    ErrV,
> {
    if reserved_name(n) || pnames(s).contains(n) || tnames(s).contains(n) {
        Err(ErrV::NameConflict(n))
    } else {
        Ok(
            LedgerState {
                participants: s.participants.push(fresh_participant(n)),
                tasks: s.tasks,
            },
        )
    }
}

/// The `add` verb over a list of names, applied front to back: `all` is
/// skipped silently, each failure is collected and the rest of the list is
/// still processed.
pub open spec fn apply_add_list(s: LedgerState, names: Seq<Seq<char>>) -> (LedgerState, Seq<
    ErrV,
>)
    decreases names.len(),
{
    if names.len() == 0 {
        (s, Seq::empty())
    } else if names[0] == "all"@ {
        apply_add_list(s, names.drop_first())
    } else {
        match apply_add_participant(s, names[0]) {
            Ok(s1) => apply_add_list(s1, names.drop_first()),
            Err(e) => {
                let r = apply_add_list(s, names.drop_first());
                (r.0, seq![e] + r.1)
            },
        }
    }
}

/// `s` with the participant named `n` present: unchanged if it exists,
/// otherwise extended by an empty participant.
pub open spec fn ensure_participant(s: LedgerState, n: Seq<char>) -> LedgerState {
    if pnames(s).contains(n) {
        s
    } else {
        LedgerState { participants: s.participants.push(fresh_participant(n)), tasks: s.tasks }
    }
}

/// Recording a payment for a task (the mutation of the `pay` verb, after
/// validation): the payer exists afterwards; the task exists with the new
/// cost and the payer as owner, any previous owner fully detached; the
/// payer shares, and is credited for, the task.
pub open spec fn apply_pay(s: LedgerState, payer: Seq<char>, task: Seq<char>, cost: int)
    -> LedgerState {
    let s1 = ensure_participant(s, payer);
    let s2 = match index_of_name(tnames(s1), task) {
        Some(j) => {
            let t = s1.tasks[j];
            if t.owner == payer {
                LedgerState {
                    participants: s1.participants,
                    tasks: s1.tasks.update(j, TaskState { cost, ..t }),
                }
            } else {
                let t1 = TaskState {
                    owner: payer,
                    members: remove_name(t.members, t.owner),
                    cost,
                    ..t
                };
                let parts1 = match index_of_name(pnames(s1), t.owner) {
                    Some(i0) => s1.participants.update(
                        i0,
                        PartState {
                            tasks: remove_name(s1.participants[i0].tasks, task),
                            paid: remove_name(s1.participants[i0].paid, task),
                            ..s1.participants[i0]
                        },
                    ),
                    None => s1.participants,
                };
                LedgerState { participants: parts1, tasks: s1.tasks.update(j, t1) }
            }
        },
        None => LedgerState {
            participants: s1.participants,
            tasks: s1.tasks.push(
                TaskState { name: task, owner: payer, members: Seq::empty(), cost },
            ),
        },
    };
    match (index_of_name(pnames(s2), payer), index_of_name(tnames(s2), task)) {
        (Some(i), Some(j)) => LedgerState {
            participants: s2.participants.update(
                i,
                PartState {
                    tasks: insert_name(s2.participants[i].tasks, task),
                    paid: insert_name(s2.participants[i].paid, task),
                    ..s2.participants[i]
                },
            ),
            tasks: s2.tasks.update(
                j,
                TaskState { members: insert_name(s2.tasks[j].members, payer), ..s2.tasks[j] },
            ),
        },
        _ => s2,
    }
}

/// Associating one participant with one task: a no-op when either is
/// absent (the `part` verb skips unknown participant names silently).
pub open spec fn apply_associate(s: LedgerState, task: Seq<char>, member: Seq<char>)
    -> LedgerState {
    match (index_of_name(tnames(s), task), index_of_name(pnames(s), member)) {
        (Some(j), Some(i)) => LedgerState {
            participants: s.participants.update(
                i,
                PartState {
                    tasks: insert_name(s.participants[i].tasks, task),
                    ..s.participants[i]
                },
            ),
            tasks: s.tasks.update(
                j,
                TaskState { members: insert_name(s.tasks[j].members, member), ..s.tasks[j] },
            ),
        },
        _ => s,
    }
}

/// Associating a list of participant names with one task, front to back.
pub open spec fn apply_associate_list(
    s: LedgerState,
    task: Seq<char>,
    members: Seq<Seq<char>>,
) -> LedgerState
    decreases members.len(),
{
    if members.len() == 0 {
        s
    } else {
        apply_associate_list(apply_associate(s, task, members[0]), task, members.drop_first())
    }
}


/// Associating every name of `members` with every task named in
/// `tasklist`, front to back (the `part all ...` fan-outs).
pub open spec fn apply_part_fanout(
    s: LedgerState,
    tasklist: Seq<Seq<char>>,
    members: Seq<Seq<char>>,
) -> LedgerState
    decreases tasklist.len(),
{
    if tasklist.len() == 0 {
        s
    } else {
        apply_part_fanout(
            apply_associate_list(s, tasklist[0], members),
            tasklist.drop_first(),
            members,
        )
    }
}

/// A direct transfer (after validation): the amount is appended to the
/// payer's payments and its negation to the payee's.
pub open spec fn apply_transfer(
    s: LedgerState,
    payer: Seq<char>,
    payee: Seq<char>,
    amount: int,
) -> LedgerState {
    let s1 = match index_of_name(pnames(s), payer) {
        Some(i) => LedgerState {
            participants: s.participants.update(
                i,
                PartState {
                    payments: s.participants[i].payments.push(amount),
                    ..s.participants[i]
                },
            ),
            tasks: s.tasks,
        },
        None => s,
    };
    match index_of_name(pnames(s1), payee) {
        Some(i) => LedgerState {
            participants: s1.participants.update(
                i,
                PartState {
                    payments: s1.participants[i].payments.push(-amount),
                    ..s1.participants[i]
                },
            ),
            tasks: s1.tasks,
        },
        None => s1,
    }
}

/// Renaming (after validation): every occurrence of the old name, on
/// either side of the relation, becomes the new name. Costs, payments and
/// all positions are untouched.
pub open spec fn apply_rename(s: LedgerState, o: Seq<char>, n: Seq<char>) -> LedgerState {
    LedgerState {
        participants: s.participants.map_values(
            |p: PartState| PartState {
                name: replace_name(p.name, o, n),
                tasks: replace_names(p.tasks, o, n),
                paid: replace_names(p.paid, o, n),
                payments: p.payments,
            },
        ),
        tasks: s.tasks.map_values(
            |t: TaskState| TaskState {
                name: replace_name(t.name, o, n),
                owner: replace_name(t.owner, o, n),
                members: replace_names(t.members, o, n),
                cost: t.cost,
            },
        ),
    }
}

/// Removing one task: it disappears from the task list and from every
/// participant's task and paid-task lists. A no-op if the task is absent.
pub open spec fn apply_remove_task(s: LedgerState, task: Seq<char>) -> LedgerState {
    match index_of_name(tnames(s), task) {
        Some(j) => LedgerState {
            participants: s.participants.map_values(
                |p: PartState| PartState {
                    tasks: remove_name(p.tasks, task),
                    paid: remove_name(p.paid, task),
                    ..p
                },
            ),
            tasks: s.tasks.remove(j),
        },
        None => s,
    }
}

/// The tasks of `ts` whose names are not listed in `rem`.
pub open spec fn remove_tasks_named(ts: Seq<TaskState>, rem: Seq<Seq<char>>) -> Seq<TaskState>
    decreases ts.len(),
{
    if ts.len() == 0 {
        Seq::empty()
    } else if rem.contains(ts.last().name) {
        remove_tasks_named(ts.drop_last(), rem)
    } else {
        remove_tasks_named(ts.drop_last(), rem).push(ts.last())
    }
}

/// Removing one participant (after validation): every task they owned is
/// removed with all its bookkeeping, and they are detached from the member
/// lists of the tasks they merely shared. A no-op if the name is absent.
pub open spec fn apply_remove_participant(s: LedgerState, name: Seq<char>) -> LedgerState {
    match index_of_name(pnames(s), name) {
        Some(i) => {
            let owned = s.participants[i].paid;
            LedgerState {
                participants: s.participants.remove(i).map_values(
                    |q: PartState| PartState {
                        tasks: remove_names(q.tasks, owned),
                        paid: remove_names(q.paid, owned),
                        ..q
                    },
                ),
                tasks: remove_tasks_named(s.tasks, owned).map_values(
                    |t: TaskState| TaskState { members: remove_name(t.members, name), ..t },
                ),
            }
        },
        None => s,
    }
}

/// Detaching a participant from a task they share but did not pay for: a
/// no-op when the participant does not share the task.
pub open spec fn apply_detach(s: LedgerState, part: Seq<char>, task: Seq<char>) -> LedgerState {
    match index_of_name(pnames(s), part) {
        Some(i) => {
            let p = s.participants[i];
            if p.paid.contains(task) || !p.tasks.contains(task) {
                s
            } else {
                let parts1 = s.participants.update(
                    i,
                    PartState { tasks: remove_name(p.tasks, task), ..p },
                );
                match index_of_name(tnames(s), task) {
                    Some(j) => LedgerState {
                        participants: parts1,
                        tasks: s.tasks.update(
                            j,
                            TaskState {
                                members: remove_name(s.tasks[j].members, part),
                                ..s.tasks[j]
                            },
                        ),
                    },
                    None => LedgerState { participants: parts1, tasks: s.tasks },
                }
            }
        },
        None => s,
    }
}


/// Membership of a name sequence, split at its last element.
pub proof fn lemma_contains_split(names: Seq<Seq<char>>, m: Seq<char>)
    requires
        names.len() >= 1,
    ensures
        names.contains(m) <==> (names.drop_last().contains(m) || names.last() == m),
{
    if names.contains(m) {
        let idx = choose|i: int| 0 <= i < names.len() && names[i] == m;
        if idx < names.len() - 1 {
            assert(names.drop_last()[idx] == m);
        }
    }
    if names.drop_last().contains(m) {
        let idx = choose|i: int| 0 <= i < names.drop_last().len() && names.drop_last()[i] == m;
        assert(names[idx] == m);
    }
}

/// What `remove_name` keeps: every name but the removed one, each at most
/// as often as before, distinctness preserved.
pub proof fn lemma_remove_name_props(names: Seq<Seq<char>>, o: Seq<char>)
    ensures
        forall|m: Seq<char>| #[trigger]
            remove_name(names, o).contains(m) <==> (names.contains(m) && m != o),
        remove_name(names, o).len() <= names.len(),
        distinct_names(names) ==> distinct_names(remove_name(names, o)),
    decreases names.len(),
{
    if names.len() == 0 {
        assert forall|m: Seq<char>| #[trigger]
            remove_name(names, o).contains(m) <==> (names.contains(m) && m != o) by {
            assert(!remove_name(names, o).contains(m));
            assert(!names.contains(m));
        }
    } else {
        let d = names.drop_last();
        lemma_remove_name_props(d, o);
        let r = remove_name(d, o);
        assert forall|m: Seq<char>| #[trigger]
            remove_name(names, o).contains(m) <==> (names.contains(m) && m != o) by {
            lemma_contains_split(names, m);
            if names.last() != o {
                lemma_contains_split(r.push(names.last()), m);
                assert(r.push(names.last()).drop_last() =~= r);
            }
        }
        if distinct_names(names) {
            assert(forall|i: int, j: int| 0 <= i < j < d.len() ==> d[i] != d[j]);
            assert(distinct_names(d));
            if names.last() != o {
                assert(forall|k: int| 0 <= k < d.len() ==> d[k] != names.last());
                assert(!d.contains(names.last()));
                assert(!r.contains(names.last()));
                let rr = r.push(names.last());
                assert forall|i: int, j: int| 0 <= i < j < rr.len() implies rr[i] != rr[j] by {
                    if j == rr.len() - 1 {
                        assert(r.contains(rr[i]) || rr.len() == 1);
                    }
                }
            }
        }
    }
}

/// What `remove_names` keeps, and that it preserves distinctness.
pub proof fn lemma_remove_names_props(names: Seq<Seq<char>>, rem: Seq<Seq<char>>)
    ensures
        forall|m: Seq<char>| #[trigger]
            remove_names(names, rem).contains(m) <==> (names.contains(m) && !rem.contains(m)),
        remove_names(names, rem).len() <= names.len(),
        distinct_names(names) ==> distinct_names(remove_names(names, rem)),
    decreases names.len(),
{
    if names.len() == 0 {
        assert forall|m: Seq<char>| #[trigger]
            remove_names(names, rem).contains(m) <==> (names.contains(m) && !rem.contains(m)) by {
            assert(!remove_names(names, rem).contains(m));
            assert(!names.contains(m));
        }
    } else {
        let d = names.drop_last();
        lemma_remove_names_props(d, rem);
        let r = remove_names(d, rem);
        assert forall|m: Seq<char>| #[trigger]
            remove_names(names, rem).contains(m) <==> (names.contains(m) && !rem.contains(m)) by {
            lemma_contains_split(names, m);
            if !rem.contains(names.last()) {
                lemma_contains_split(r.push(names.last()), m);
                assert(r.push(names.last()).drop_last() =~= r);
            }
        }
        if distinct_names(names) {
            assert(forall|i: int, j: int| 0 <= i < j < d.len() ==> d[i] != d[j]);
            assert(distinct_names(d));
            if !rem.contains(names.last()) {
                assert(forall|k: int| 0 <= k < d.len() ==> d[k] != names.last());
                assert(!d.contains(names.last()));
                assert(!r.contains(names.last()));
                let rr = r.push(names.last());
                assert forall|i: int, j: int| 0 <= i < j < rr.len() implies rr[i] != rr[j] by {
                    if j == rr.len() - 1 {
                        assert(r.contains(rr[i]) || rr.len() == 1);
                    }
                }
            }
        }
    }
}

/// Removing no names changes nothing.
pub proof fn lemma_remove_names_empty(names: Seq<Seq<char>>)
    ensures
        remove_names(names, Seq::empty()) == names,
    decreases names.len(),
{
    if names.len() > 0 {
        lemma_remove_names_empty(names.drop_last());
        assert(!Seq::<Seq<char>>::empty().contains(names.last()));
        assert(remove_names(names, Seq::empty()) =~= names);
    } else {
        assert(remove_names(names, Seq::empty()) =~= names);
    }
}

/// What `insert_name` holds, and that it preserves distinctness.
pub proof fn lemma_insert_name_props(names: Seq<Seq<char>>, n: Seq<char>)
    ensures
        forall|m: Seq<char>| #[trigger]
            insert_name(names, n).contains(m) <==> (names.contains(m) || m == n),
        distinct_names(names) ==> distinct_names(insert_name(names, n)),
        names.len() <= insert_name(names, n).len(),
    decreases names.len(),
{
    if names.contains(n) {
    } else {
        let rr = insert_name(names, n);
        assert forall|m: Seq<char>| #[trigger]
            rr.contains(m) <==> (names.contains(m) || m == n) by {
            lemma_contains_split(rr, m);
            assert(rr.drop_last() =~= names);
        }
        if distinct_names(names) {
            assert forall|i: int, j: int| 0 <= i < j < rr.len() implies rr[i] != rr[j] by {
                if j == rr.len() - 1 {
                    assert(names.contains(rr[i]));
                }
            }
        }
    }
}

/// What `replace_names` holds when the new name is fresh, and that it
/// preserves distinctness.
pub proof fn lemma_replace_names_props(names: Seq<Seq<char>>, o: Seq<char>, n: Seq<char>)
    requires
        !names.contains(n),
        n != o,
    ensures
        replace_names(names, o, n).len() == names.len(),
        forall|m: Seq<char>| #[trigger]
            replace_names(names, o, n).contains(m) <==> (if m == n {
                names.contains(o)
            } else if m == o {
                false
            } else {
                names.contains(m)
            }),
        distinct_names(names) ==> distinct_names(replace_names(names, o, n)),
{
    let r = replace_names(names, o, n);
    assert forall|m: Seq<char>| #[trigger]
        r.contains(m) <==> (if m == n {
            names.contains(o)
        } else if m == o {
            false
        } else {
            names.contains(m)
        }) by {
        if r.contains(m) {
            let idx = choose|i: int| 0 <= i < r.len() && r[i] == m;
            assert(r[idx] == replace_name(names[idx], o, n));
            assert(forall|k: int| 0 <= k < names.len() ==> names[k] != n);
        }
        if m == n && names.contains(o) {
            let idx = choose|i: int| 0 <= i < names.len() && names[i] == o;
            assert(r[idx] == n);
        }
        if m != n && m != o && names.contains(m) {
            let idx = choose|i: int| 0 <= i < names.len() && names[i] == m;
            assert(r[idx] == m);
        }
    }
    if distinct_names(names) {
        assert forall|i: int, j: int| 0 <= i < j < r.len() implies r[i] != r[j] by {
            assert(r[i] == replace_name(names[i], o, n));
            assert(r[j] == replace_name(names[j], o, n));
            assert(names[i] != n && names[j] != n);
        }
    }
}

/// What `remove_tasks_named` keeps, by task name.
pub proof fn lemma_remove_tasks_named_props(ts: Seq<TaskState>, rem: Seq<Seq<char>>)
    ensures
        forall|m: Seq<char>| #[trigger]
            task_names(remove_tasks_named(ts, rem)).contains(m) <==> (task_names(ts).contains(m)
                && !rem.contains(m)),
        remove_tasks_named(ts, rem).len() <= ts.len(),
    decreases ts.len(),
{
    if ts.len() == 0 {
        assert forall|m: Seq<char>| #[trigger]
            task_names(remove_tasks_named(ts, rem)).contains(m) <==> (task_names(ts).contains(m)
                && !rem.contains(m)) by {
            assert(!task_names(remove_tasks_named(ts, rem)).contains(m));
            assert(!task_names(ts).contains(m));
        }
    } else {
        let d = ts.drop_last();
        lemma_remove_tasks_named_props(d, rem);
        let r = remove_tasks_named(d, rem);
        assert(task_names(d) =~= task_names(ts).drop_last());
        assert forall|m: Seq<char>| #[trigger]
            task_names(remove_tasks_named(ts, rem)).contains(m) <==> (task_names(ts).contains(m)
                && !rem.contains(m)) by {
            lemma_contains_split(task_names(ts), m);
            if !rem.contains(ts.last().name) {
                assert(task_names(r.push(ts.last())) =~= task_names(r).push(ts.last().name));
                lemma_contains_split(task_names(r).push(ts.last().name), m);
                assert(task_names(r).push(ts.last().name).drop_last() =~= task_names(r));
            }
        }
    }
}

/// Removing no task names keeps every task.
pub proof fn lemma_remove_tasks_named_empty(ts: Seq<TaskState>)
    ensures
        remove_tasks_named(ts, Seq::empty()) == ts,
    decreases ts.len(),
{
    if ts.len() > 0 {
        lemma_remove_tasks_named_empty(ts.drop_last());
        assert(!Seq::<Seq<char>>::empty().contains(ts.last().name));
        assert(remove_tasks_named(ts, Seq::empty()) =~= ts);
    } else {
        assert(remove_tasks_named(ts, Seq::empty()) =~= ts);
    }
}


/// Appending a name: existing names keep their position; the new name is
/// found at the end only if it was absent.
pub proof fn lemma_index_of_push(names: Seq<Seq<char>>, x: Seq<char>, m: Seq<char>)
    ensures
        index_of_name(names.push(x), m) == (match index_of_name(names, m) {
            Some(i) => Some(i),
            None => if m == x {
                Some(names.len() as int)
            } else {
                None
            },
        }),
{
    lemma_index_of_name(names, m);
    match index_of_name(names, m) {
        Some(i) => {
            assert(names.push(x)[i] == m);
            lemma_index_of_name_unique(names.push(x), m, i);
        },
        None => {
            if m == x {
                lemma_index_of_name_unique(names.push(x), m, names.len() as int);
            } else {
                lemma_index_of_name(names.push(x), m);
                match index_of_name(names.push(x), m) {
                    Some(j) => {
                        assert(names.push(x)[j] == m);
                        assert(false);
                    },
                    None => {},
                }
            }
        },
    }
}

/// Removing the entry at `j`: any other name is found again, at a
/// position shifted by at most one.
pub proof fn lemma_index_of_remove(names: Seq<Seq<char>>, j: int, m: Seq<char>)
    requires
        0 <= j < names.len(),
        m != names[j],
    ensures
        index_of_name(names.remove(j), m) == (match index_of_name(names, m) {
            Some(i) => if i < j {
                Some(i)
            } else {
                Some(i - 1)
            },
            None => None,
        }),
{
    lemma_index_of_name(names, m);
    let r = names.remove(j);
    assert(forall|k: int| 0 <= k < j ==> r[k] == names[k]);
    assert(forall|k: int| j <= k < r.len() ==> r[k] == names[k + 1]);
    match index_of_name(names, m) {
        Some(i) => {
            if i < j {
                assert(r[i] == m);
                lemma_index_of_name_unique(r, m, i);
            } else {
                assert(i != j);
                assert(r[i - 1] == m);
                assert forall|k: int| 0 <= k < i - 1 implies r[k] != m by {
                    if k < j {
                        assert(r[k] == names[k]);
                    } else {
                        assert(r[k] == names[k + 1]);
                    }
                }
                lemma_index_of_name_unique(r, m, i - 1);
            }
        },
        None => {
            lemma_index_of_name(r, m);
            match index_of_name(r, m) {
                Some(k) => {
                    if k < j {
                        assert(names[k] == m);
                    } else {
                        assert(names[k + 1] == m);
                    }
                    assert(false);
                },
                None => {},
            }
        },
    }
}

/// Replacing a fresh name for an old one moves every lookup through the
/// replacement without changing its position.
pub proof fn lemma_index_of_replace(names: Seq<Seq<char>>, o: Seq<char>, n: Seq<char>, m: Seq<char>)
    requires
        distinct_names(names),
        !names.contains(n),
        n != o,
        m != n,
    ensures
        index_of_name(replace_names(names, o, n), replace_name(m, o, n)) == index_of_name(
            names,
            m,
        ),
{
    let r = replace_names(names, o, n);
    assert(forall|k: int| 0 <= k < names.len() ==> names[k] != n);
    lemma_index_of_name(names, m);
    match index_of_name(names, m) {
        Some(j) => {
            assert(r[j] == replace_name(m, o, n));
            assert forall|k: int| 0 <= k < j implies r[k] != replace_name(m, o, n) by {
                assert(r[k] == replace_name(names[k], o, n));
                if m == o {
                    assert(names[k] != o);
                }
            }
            lemma_index_of_name_unique(r, replace_name(m, o, n), j);
        },
        None => {
            lemma_index_of_name(r, replace_name(m, o, n));
            match index_of_name(r, replace_name(m, o, n)) {
                Some(jj) => {
                    assert(r[jj] == replace_name(names[jj], o, n));
                    assert(false);
                },
                None => {},
            }
        },
    }
}

/// Distinctness survives removing one entry.
pub proof fn lemma_distinct_remove(names: Seq<Seq<char>>, j: int)
    requires
        distinct_names(names),
        0 <= j < names.len(),
    ensures
        distinct_names(names.remove(j)),
{
    let r = names.remove(j);
    assert forall|a: int, b: int| 0 <= a < b < r.len() implies r[a] != r[b] by {
        let a0 = if a < j { a } else { a + 1 };
        let b0 = if b < j { b } else { b + 1 };
        assert(r[a] == names[a0]);
        assert(r[b] == names[b0]);
    }
}

/// Every task kept by `remove_tasks_named` is a task of the original
/// sequence.
pub proof fn lemma_remove_tasks_named_subset(ts: Seq<TaskState>, rem: Seq<Seq<char>>)
    ensures
        forall|k: int|
            0 <= k < remove_tasks_named(ts, rem).len() ==> ts.contains(
                #[trigger] remove_tasks_named(ts, rem)[k],
            ),
    decreases ts.len(),
{
    if ts.len() > 0 {
        let d = ts.drop_last();
        lemma_remove_tasks_named_subset(d, rem);
        assert(forall|k: int| 0 <= k < d.len() ==> d[k] == ts[k]);
        assert(forall|k: int| 0 <= k < d.len() && ts.contains(d[k]) ==> true);
        assert forall|k: int|
            0 <= k < remove_tasks_named(ts, rem).len() implies ts.contains(
            #[trigger] remove_tasks_named(ts, rem)[k],
        ) by {
            let f = remove_tasks_named(ts, rem);
            let fd = remove_tasks_named(d, rem);
            if rem.contains(ts.last().name) {
                assert(d.contains(f[k]));
                let i0 = choose|i: int| 0 <= i < d.len() && d[i] == f[k];
                assert(ts[i0] == f[k]);
            } else {
                if k < f.len() - 1 {
                    assert(f[k] == fd[k]);
                    assert(d.contains(f[k]));
                    let i0 = choose|i: int| 0 <= i < d.len() && d[i] == f[k];
                    assert(ts[i0] == f[k]);
                } else {
                    assert(f[k] == ts.last());
                }
            }
        }
    }
}

/// Distinct task names survive the filtering of `remove_tasks_named`.
pub proof fn lemma_remove_tasks_named_distinct(ts: Seq<TaskState>, rem: Seq<Seq<char>>)
    requires
        distinct_names(task_names(ts)),
    ensures
        distinct_names(task_names(remove_tasks_named(ts, rem))),
    decreases ts.len(),
{
    if ts.len() > 0 {
        let d = ts.drop_last();
        assert(task_names(d) =~= task_names(ts).drop_last());
        assert(forall|i: int, j: int|
            0 <= i < j < task_names(d).len() ==> task_names(d)[i] != task_names(d)[j]);
        lemma_remove_tasks_named_distinct(d, rem);
        if !rem.contains(ts.last().name) {
            let fd = remove_tasks_named(d, rem);
            let names = task_names(fd.push(ts.last()));
            assert(names =~= task_names(fd).push(ts.last().name));
            lemma_remove_tasks_named_props(d, rem);
            assert(task_names(ts)[task_names(ts).len() - 1] == ts.last().name);
            assert forall|k: int|
                0 <= k < task_names(ts).len() - 1 implies task_names(ts)[k]
                != ts.last().name by {
                assert(task_names(ts)[k] != task_names(ts)[task_names(ts).len() - 1]);
            }
            assert(!task_names(d).contains(ts.last().name));
            assert(!task_names(fd).contains(ts.last().name));
            assert forall|a: int, b: int| 0 <= a < b < names.len() implies names[a] != names[b] by {
                if b == names.len() - 1 {
                    assert(task_names(fd).contains(names[a]));
                }
            }
        }
    }
}

/// Looking a surviving name up after `remove_tasks_named`: it is found,
/// and the task found is the original one.
pub proof fn lemma_remove_tasks_named_lookup(ts: Seq<TaskState>, rem: Seq<Seq<char>>, m: Seq<char>)
    requires
        distinct_names(task_names(ts)),
        !rem.contains(m),
    ensures
        ({
            let f = remove_tasks_named(ts, rem);
            match index_of_name(task_names(ts), m) {
                Some(j) => index_of_name(task_names(f), m) matches Some(j2) && 0 <= j2 < f.len()
                    && f[j2] == ts[j],
                None => index_of_name(task_names(f), m) is None,
            }
        }),
{
    let f = remove_tasks_named(ts, rem);
    lemma_remove_tasks_named_props(ts, rem);
    lemma_index_of_name(task_names(ts), m);
    lemma_index_of_name(task_names(f), m);
    match index_of_name(task_names(ts), m) {
        Some(j) => {
            assert(task_names(ts)[j] == m);
            assert(task_names(ts).contains(m));
            assert(task_names(f).contains(m)) by {
                assert(!rem.contains(m));
            }
            match index_of_name(task_names(f), m) {
                Some(j2) => {
                    assert(f[j2].name == m);
                    lemma_remove_tasks_named_subset(ts, rem);
                    assert(ts.contains(f[j2]));
                    let i0 = choose|i: int| 0 <= i < ts.len() && ts[i] == f[j2];
                    assert(task_names(ts)[i0] == m);
                    assert(i0 == j);
                },
                None => {
                    assert(!task_names(f).contains(m));
                    assert(false);
                },
            }
        },
        None => {
            assert(!task_names(ts).contains(m));
            match index_of_name(task_names(f), m) {
                Some(j2) => {
                    assert(task_names(f)[j2] == m);
                    assert(task_names(f).contains(m));
                    assert(false);
                },
                None => {},
            }
        },
    }
}

} // verus!
