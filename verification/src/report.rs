//! The read-only query layer: balances, participant detail and task
//! detail, as plain values for the caller to render.

use vstd::prelude::*;
use crate::model::{
    LedgerState, pnames, tnames, index_of_name, lemma_index_of_name, wf, participant_wf,
    task_wf,
};
use crate::balance::{BalanceLine, balance_result, round_nearest};
use crate::store::Payment;
use crate::text::{str_views, str_eq};
use vstd::pervasive::unreached;

verus! {

/// One task a participant shares: its cost, the live number of members,
/// and the rounded per-member share.
pub struct TaskShareLine {
    pub task: String,
    pub cost: i64,
    pub member_count: usize,
    pub share: i64,
}

/// One task a participant fronted the money for.
pub struct PaidLine {
    pub task: String,
    pub cost: i64,
}

/// Full detail for one participant.
pub struct ParticipantReport {
    pub name: String,
    pub balance: Option<i64>,
    pub shares: Vec<TaskShareLine>,
    pub paid: Vec<PaidLine>,
    pub payments: Vec<i64>,
}

/// Full detail for one task.
pub struct TaskReport {
    pub name: String,
    pub owner: String,
    pub cost: i64,
    pub members: Vec<String>,
}

/// What a command hands back to the caller. Rendering is the caller's
/// concern; file access for save and load is performed by the caller,
/// which hands a loaded snapshot to `install_snapshot`.
pub enum Reply {
    /// The store was changed and there is nothing to show.
    Done,
    /// The name and balance of every participant.
    Balances(Vec<BalanceLine>),
    /// Full detail for the selected participants.
    Participants(Vec<ParticipantReport>),
    /// Full detail for every task.
    Tasks(Vec<TaskReport>),
    /// A snapshot of the store to persist at the path, or to show on the
    /// console when there is no path.
    SaveTo(Option<String>, Payment),
    /// The path a snapshot should be read from.
    LoadFrom(String),
}

/// Whether `rep` is exactly the report of participant `i` in state `s`.
pub open spec fn participant_report_matches(
    s: LedgerState,
    i: int,
    rep: ParticipantReport,
) -> bool {
    let p = s.participants[i];
    &&& rep.name@ == p.name
    &&& match rep.balance {
        Some(v) => balance_result(s, i) == Some(v as int),
        None => balance_result(s, i) is None,
    }
    &&& rep.shares@.len() == p.tasks.len()
    &&& forall|k: int|
        0 <= k < p.tasks.len() ==> match index_of_name(tnames(s), p.tasks[k]) {
            Some(j) => (#[trigger] rep.shares@[k]).task@ == p.tasks[k] && rep.shares@[k].cost
                == s.tasks[j].cost && rep.shares@[k].member_count == s.tasks[j].members.len()
                && rep.shares@[k].share == round_nearest(
                s.tasks[j].cost,
                s.tasks[j].members.len() as int,
            ),
            None => false,
        }
    &&& rep.paid@.len() == p.paid.len()
    &&& forall|k: int|
        0 <= k < p.paid.len() ==> match index_of_name(tnames(s), p.paid[k]) {
            Some(j) => (#[trigger] rep.paid@[k]).task@ == p.paid[k] && rep.paid@[k].cost
                == s.tasks[j].cost,
            None => false,
        }
    &&& rep.payments@.map_values(|x: i64| x as int) == p.payments
}

/// Whether `rep` is exactly the report of task `j` in state `s`.
pub open spec fn task_report_matches(s: LedgerState, j: int, rep: TaskReport) -> bool {
    let t = s.tasks[j];
    &&& rep.name@ == t.name
    &&& rep.owner@ == t.owner
    &&& rep.cost == t.cost
    &&& str_views(rep.members@) == t.members
}

/// Whether the lines are the balance summary of `s`, one per participant
/// in store order.
pub open spec fn balances_match(s: LedgerState, lines: Seq<BalanceLine>) -> bool {
    &&& lines.len() == s.participants.len()
    &&& forall|k: int|
        0 <= k < lines.len() ==> (#[trigger] lines[k]).name@ == s.participants[k].name && (
        match lines[k].balance {
            Some(v) => balance_result(s, k) == Some(v as int),
            None => balance_result(s, k) is None,
        })
}

/// Whether an argument selects a whole listing.
pub open spec fn flag_of(n: Seq<char>) -> bool {
    n == "-a"@ || n == "-t"@
}

/// The position of the first listing flag among the arguments.
pub open spec fn first_flag(args: Seq<Seq<char>>) -> Option<int>
    decreases args.len(),
{
    if args.len() == 0 {
        None
    } else if flag_of(args[0]) {
        Some(0)
    } else {
        match first_flag(args.drop_first()) {
            Some(i) => Some(i + 1),
            None => None,
        }
    }
}

pub proof fn lemma_first_flag(args: Seq<Seq<char>>)
    ensures
        match first_flag(args) {
            Some(i) => 0 <= i < args.len() && flag_of(args[i]) && (forall|k: int|
                0 <= k < i ==> !flag_of(args[k])),
            None => forall|k: int| 0 <= k < args.len() ==> !flag_of(args[k]),
        },
    decreases args.len(),
{
    if args.len() > 0 && !flag_of(args[0]) {
        lemma_first_flag(args.drop_first());
        match first_flag(args) {
            Some(i) => {
                assert(args[i] == args.drop_first()[i - 1]);
                assert forall|k: int| 0 <= k < i implies !flag_of(args[k]) by {
                    if k > 0 {
                        assert(args[k] == args.drop_first()[k - 1]);
                    }
                }
            },
            None => {
                assert forall|k: int| 0 <= k < args.len() implies !flag_of(args[k]) by {
                    if k > 0 {
                        assert(args[k] == args.drop_first()[k - 1]);
                    }
                }
            },
        }
    }
}

pub proof fn lemma_first_flag_unique(args: Seq<Seq<char>>, i: int)
    requires
        0 <= i < args.len(),
        flag_of(args[i]),
        forall|k: int| 0 <= k < i ==> !flag_of(args[k]),
    ensures
        first_flag(args) == Some(i),
    decreases args.len(),
{
    if !flag_of(args[0]) {
        lemma_first_flag_unique(args.drop_first(), i - 1);
    }
}

/// The store positions of the arguments that name participants, in
/// argument order; unknown names contribute nothing.
pub open spec fn recognized(s: LedgerState, args: Seq<Seq<char>>) -> Seq<int>
    decreases args.len(),
{
    if args.len() == 0 {
        Seq::empty()
    } else {
        recognized(s, args.drop_last()) + (match index_of_name(pnames(s), args.last()) {
            Some(i) => seq![i],
            None => Seq::empty(),
        })
    }
}

/// The rounded per-member share of a task: `cost / members`, to the
/// nearest minor unit with ties up.
fn share_of(c: i64, k: usize) -> (r: i64)
    requires
        c >= 0,
        k >= 1,
    ensures
        r == round_nearest(c as int, k as int),
{
    let num: u128 = 2 * (c as u128) + (k as u128);
    let den: u128 = 2 * (k as u128);
    let q = num / den;
    proof {
        vstd::arithmetic::div_mod::lemma_fundamental_div_mod(num as int, den as int);
        assert(q <= c as u128) by (nonlinear_arith)
            requires
                num as int == (q as int) * (den as int) + (num as int) % (den as int),
                0 <= (num as int) % (den as int),
                num as int == 2 * (c as int) + (k as int),
                den as int == 2 * (k as int),
                k >= 1,
                c >= 0,
                q >= 0,
        ;
    }
    q as i64
}


/// What the `print` query returns for the given arguments: a `-a` or
/// `-t` flag (whichever comes first) selects the full participant or
/// task listing; otherwise the recognized names' details, or the balance
/// summary when none is recognized.
pub open spec fn print_reply_matches(s: LedgerState, av: Seq<Seq<char>>, r: Reply) -> bool {
    match first_flag(av) {
        Some(ix) => if av[ix] == "-a"@ {
            r matches Reply::Participants(list) && list@.len() == s.participants.len()
                && forall|k: int|
                0 <= k < list@.len() ==> participant_report_matches(s, k, #[trigger] list@[k])
        } else {
            r matches Reply::Tasks(list) && list@.len() == s.tasks.len() && forall|k: int|
                0 <= k < list@.len() ==> task_report_matches(s, k, #[trigger] list@[k])
        },
        None => {
            let rec = recognized(s, av);
            if rec.len() == 0 {
                r matches Reply::Balances(lines) && balances_match(s, lines@)
            } else {
                r matches Reply::Participants(list) && list@.len() == rec.len() && forall|k: int|
                    0 <= k < list@.len() ==> 0 <= rec[k] < s.participants.len()
                        && participant_report_matches(s, rec[k], #[trigger] list@[k])
            }
        },
    }
}

impl Payment {
    /// Full detail for the participant at position `i`: balance, shared
    /// tasks with their live per-member shares, paid tasks and direct
    /// payments.
    #[verifier::loop_isolation(false)]
    pub fn report_participant(&self, i: usize) -> (rep: ParticipantReport)
        requires
            wf(self@),
            i < self@.participants.len(),
        ensures
            participant_report_matches(self@, i as int, rep),
    {
        let ghost s = self@;
        let ghost p = s.participants[i as int];
        let balance = self.balance_index(i);
        let ntk = self.participants[i].tasks.len();
        let mut shares: Vec<TaskShareLine> = Vec::new();
        let mut k: usize = 0;
        while k < ntk
            invariant
                k <= ntk,
                shares@.len() == k,
                forall|x: int|
                    0 <= x < k ==> match index_of_name(tnames(s), #[trigger] p.tasks[x]) {
                        Some(j) => shares@[x].task@ == p.tasks[x] && shares@[x].cost
                            == s.tasks[j].cost && shares@[x].member_count
                            == s.tasks[j].members.len() && shares@[x].share == round_nearest(
                            s.tasks[j].cost,
                            s.tasks[j].members.len() as int,
                        ),
                        None => false,
                    },
            decreases ntk - k,
        {
            proof {
                assert(p.tasks[k as int] == self.participants@[i as int].tasks@[k as int]@);
                assert(participant_wf(s, i as int));
            }
            match self.find_task(self.participants[i].tasks[k].as_str()) {
                Some(j) => {
                    proof {
                        lemma_index_of_name(tnames(s), p.tasks[k as int]);
                        assert(task_wf(s, j as int));
                        assert(s.tasks[j as int].members.contains(s.tasks[j as int].owner));
                    }
                    let cnt = self.tasks[j].participants.len();
                    proof {
                        assert(str_views(self.tasks@[j as int].participants@) == s.tasks[
                            j as int
                        ].members);
                        assert(cnt == s.tasks[j as int].members.len());
                    }
                    let line = TaskShareLine {
                        task: self.participants[i].tasks[k].clone(),
                        cost: self.tasks[j].cost,
                        member_count: cnt,
                        share: share_of(self.tasks[j].cost, cnt),
                    };
                    shares.push(line);
                    proof {
                        assert(shares@[k as int].task@ == p.tasks[k as int]);
                        assert(shares@[k as int].cost == s.tasks[j as int].cost);
                        assert(shares@[k as int].member_count == s.tasks[j as int].members.len());
                    }
                },
                None => {
                    proof {
                        assert(false);
                    }
                    return unreached();
                },
            }
            k = k + 1;
        }
        let npk = self.participants[i].paid_tasks.len();
        let mut paid: Vec<PaidLine> = Vec::new();
        let mut k: usize = 0;
        while k < npk
            invariant
                k <= npk,
                paid@.len() == k,
                forall|x: int|
                    0 <= x < k ==> match index_of_name(tnames(s), #[trigger] p.paid[x]) {
                        Some(j) => paid@[x].task@ == p.paid[x] && paid@[x].cost
                            == s.tasks[j].cost,
                        None => false,
                    },
            decreases npk - k,
        {
            proof {
                assert(p.paid[k as int] == self.participants@[i as int].paid_tasks@[k as int]@);
                assert(participant_wf(s, i as int));
            }
            match self.find_task(self.participants[i].paid_tasks[k].as_str()) {
                Some(j) => {
                    proof {
                        lemma_index_of_name(tnames(s), p.paid[k as int]);
                    }
                    let line = PaidLine {
                        task: self.participants[i].paid_tasks[k].clone(),
                        cost: self.tasks[j].cost,
                    };
                    paid.push(line);
                    proof {
                        assert(paid@[k as int].task@ == p.paid[k as int]);
                        assert(paid@[k as int].cost == s.tasks[j as int].cost);
                    }
                },
                None => {
                    proof {
                        assert(false);
                    }
                    return unreached();
                },
            }
            k = k + 1;
        }
        let ghost shv = shares@;
        let ghost pdv = paid@;
        let rep = ParticipantReport {
            name: self.participants[i].name.clone(),
            balance,
            shares,
            paid,
            payments: self.participants[i].payments_made.clone(),
        };
        proof {
            assert(rep.shares@ == shv);
            assert(rep.paid@ == pdv);
            assert(rep.payments@.map_values(|x: i64| x as int) =~= p.payments);
            assert forall|k2: int| 0 <= k2 < p.tasks.len() implies match index_of_name(
                tnames(s),
                p.tasks[k2],
            ) {
                Some(j) => (#[trigger] rep.shares@[k2]).task@ == p.tasks[k2]
                    && rep.shares@[k2].cost == s.tasks[j].cost && rep.shares@[k2].member_count
                    == s.tasks[j].members.len() && rep.shares@[k2].share == round_nearest(
                    s.tasks[j].cost,
                    s.tasks[j].members.len() as int,
                ),
                None => false,
            } by {
                let m = p.tasks[k2];
                assert(rep.shares@[k2] == shv[k2]);
                assert(shv == shares@);
            }
            assert forall|k2: int| 0 <= k2 < p.paid.len() implies match index_of_name(
                tnames(s),
                p.paid[k2],
            ) {
                Some(j) => (#[trigger] rep.paid@[k2]).task@ == p.paid[k2] && rep.paid@[k2].cost
                    == s.tasks[j].cost,
                None => false,
            } by {
                let m = p.paid[k2];
                assert(rep.paid@[k2] == pdv[k2]);
                assert(pdv == paid@);
            }
        }
        rep
    }

    /// Full detail for the task at position `j`.
    pub fn report_task(&self, j: usize) -> (rep: TaskReport)
        requires
            j < self@.tasks.len(),
        ensures
            task_report_matches(self@, j as int, rep),
    {
        let mut members: Vec<String> = Vec::new();
        let nmb = self.tasks[j].participants.len();
        let mut k: usize = 0;
        while k < nmb
            invariant
                j < self@.tasks.len(),
                nmb == self.tasks@[j as int].participants@.len(),
                k <= nmb,
                members@.len() == k,
                forall|x: int|
                    0 <= x < k ==> str_views(members@)[x] == self@.tasks[j as int].members[x],
            decreases nmb - k,
        {
            let x = self.tasks[j].participants[k].clone();
            proof {
                assert(str_views(members@.push(x)) =~= str_views(members@).push(x@));
            }
            members.push(x);
            k = k + 1;
        }
        proof {
            assert(str_views(members@) =~= self@.tasks[j as int].members);
        }
        TaskReport {
            name: self.tasks[j].name.clone(),
            owner: self.tasks[j].owner.clone(),
            cost: self.tasks[j].cost,
            members,
        }
    }

    /// The read-only `print` query. A `-a` or `-t` argument (whichever
    /// comes first) selects the full participant or task listing; bare
    /// names select those participants' detail, unknown names being
    /// skipped; with no arguments, or none recognized, every participant's
    /// name and balance is returned.
    #[verifier::loop_isolation(false)]
    pub fn print(&self, args: &Vec<String>) -> (r: Reply)
        requires
            wf(self@),
        ensures
            print_reply_matches(self@, str_views(args@), r),
    {
        let ghost s = self@;
        let ghost av = str_views(args@);
        let na = args.len();
        let mut k: usize = 0;
        while k < na
            invariant
                k <= na,
                forall|x: int| 0 <= x < k ==> !flag_of(av[x]),
            decreases na - k,
        {
            proof {
                assert(av[k as int] == args@[k as int]@);
            }
            if str_eq(args[k].as_str(), "-a") {
                proof {
                    lemma_first_flag_unique(av, k as int);
                }
                let np = self.participants.len();
                let mut list: Vec<ParticipantReport> = Vec::new();
                let mut i: usize = 0;
                while i < np
                    invariant
                        i <= np,
                        list@.len() == i,
                        forall|x: int|
                            0 <= x < i ==> participant_report_matches(s, x, #[trigger] list@[x]),
                    decreases np - i,
                {
                    let rep = self.report_participant(i);
                    list.push(rep);
                    i = i + 1;
                }
                return Reply::Participants(list);
            }
            if str_eq(args[k].as_str(), "-t") {
                proof {
                    lemma_first_flag_unique(av, k as int);
                }
                let nt = self.tasks.len();
                let mut list: Vec<TaskReport> = Vec::new();
                let mut j: usize = 0;
                while j < nt
                    invariant
                        j <= nt,
                        list@.len() == j,
                        forall|x: int|
                            0 <= x < j ==> task_report_matches(s, x, #[trigger] list@[x]),
                    decreases nt - j,
                {
                    let rep = self.report_task(j);
                    list.push(rep);
                    j = j + 1;
                }
                return Reply::Tasks(list);
            }
            k = k + 1;
        }
        proof {
            lemma_first_flag(av);
            match first_flag(av) {
                Some(ix) => {
                    assert(false);
                },
                None => {},
            }
            assert(av.subrange(0, 0) =~= Seq::<Seq<char>>::empty());
        }
        let mut recs: Vec<usize> = Vec::new();
        let np = self.participants.len();
        let mut k: usize = 0;
        while k < na
            invariant
                k <= na,
                recs@.map_values(|u: usize| u as int) == recognized(s, av.subrange(0, k as int)),
                forall|x: int| 0 <= x < recs@.len() ==> #[trigger] recs@[x] < np,
            decreases na - k,
        {
            let ghost pre = av.subrange(0, k as int);
            proof {
                assert(av.subrange(0, k + 1).drop_last() =~= pre);
                assert(av.subrange(0, k + 1).last() == av[k as int]);
                assert(av[k as int] == args@[k as int]@);
            }
            match self.find_participant(args[k].as_str()) {
                Some(i) => {
                    proof {
                        lemma_index_of_name(pnames(s), av[k as int]);
                        assert(pnames(s).len() == s.participants.len());
                    }
                    let ghost rp = recs@;
                    recs.push(i);
                    proof {
                        assert(recs@.map_values(|u: usize| u as int) =~= rp.map_values(
                            |u: usize| u as int,
                        ).push(i as int));
                        assert(recognized(s, av.subrange(0, k + 1)) =~= recognized(s, pre).push(
                            i as int,
                        ));
                    }
                },
                None => {
                    proof {
                        assert(recognized(s, av.subrange(0, k + 1)) =~= recognized(s, pre));
                    }
                },
            }
            k = k + 1;
        }
        proof {
            assert(av.subrange(0, na as int) =~= av);
        }
        let nrec = recs.len();
        let mut list: Vec<ParticipantReport> = Vec::new();
        let mut i: usize = 0;
        while i < nrec
            invariant
                i <= nrec,
                list@.len() == i,
                forall|x: int|
                    0 <= x < i ==> participant_report_matches(
                        s,
                        recs@[x] as int,
                        #[trigger] list@[x],
                    ),
            decreases nrec - i,
        {
            let rep = self.report_participant(recs[i]);
            list.push(rep);
            i = i + 1;
        }
        proof {
            assert(list@.len() == recognized(s, av).len());
        }
        if list.len() == 0 {
            let lines = self.calculate();
            proof {
                assert(balances_match(s, lines@));
            }
            Reply::Balances(lines)
        } else {
            proof {
                let rec = recognized(s, av);
                assert forall|x: int|
                    0 <= x < list@.len() implies 0 <= rec[x] < s.participants.len()
                    && participant_report_matches(s, rec[x], #[trigger] list@[x]) by {
                    assert(rec[x] == recs@.map_values(|u: usize| u as int)[x]);
                    assert(rec[x] == recs@[x] as int);
                }
            }
            Reply::Participants(list)
        }
    }
}

} // verus!
