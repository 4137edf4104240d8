//! The command layer: a small parser that turns a token list into a
//! closed set of command variants, and the dispatcher that applies a
//! command line to the ledger.

use vstd::prelude::*;
use crate::errors::LedgerError;
use crate::amount::{parse_amount, amount_of, MAX_MINOR_UNITS};
use crate::model::{
    ErrV, pnames, tnames, index_of_name, lemma_index_of_name, wf, reserved_name,
    apply_add_list, apply_associate_list, apply_part_fanout, apply_pay, apply_transfer,
    apply_rename, apply_remove_task, apply_remove_participant, apply_detach,
};
use crate::store::{Payment, lemma_contains_index};
use crate::report::{Reply, print_reply_matches};
use crate::text::{str_views, str_eq, tokenize, tokens_of};

verus! {

/// A fully parsed command, one variant per verb.
pub enum Command {
    /// `add NAME...`
    Add(Vec<String>),
    /// `part TASK NAME...`
    Part { task: String, participants: Vec<String> },
    /// `pay PAYER TASK AMOUNT` (the amount is validated on application,
    /// after the name checks, as the verbs do).
    Pay { payer: String, task: String, amount: String },
    /// `payment PAYER PAYEE AMOUNT`
    Transfer { payer: String, payee: String, amount: String },
    /// `print [-a | -t | NAME...]`
    Print(Vec<String>),
    /// `save [PATH]`
    Save(Option<String>),
    /// `load PATH`
    Load(String),
    /// `rename OLD NEW`
    Rename { from: String, to: String },
    /// `remove NAME`
    Remove(String),
    /// `remove PARTICIPANT TASK`
    Detach { participant: String, task: String },
}

/// Whether the first token is a verb the ledger knows.
pub open spec fn known_verb(v: Seq<char>) -> bool {
    ||| v == "add"@
    ||| v == "part"@
    ||| v == "pay"@
    ||| v == "payment"@
    ||| v == "print"@
    ||| v == "save"@
    ||| v == "load"@
    ||| v == "rename"@
    ||| v == "remove"@
}

/// Whether a known verb has the arguments it needs.
pub open spec fn arity_ok(tv: Seq<Seq<char>>) -> bool {
    if tv[0] == "add"@ {
        tv.len() >= 2
    } else if tv[0] == "part"@ {
        tv.len() >= 3
    } else if tv[0] == "pay"@ || tv[0] == "payment"@ {
        tv.len() >= 4
    } else if tv[0] == "load"@ {
        tv.len() >= 2
    } else if tv[0] == "rename"@ {
        tv.len() == 3
    } else if tv[0] == "remove"@ {
        tv.len() == 2 || tv.len() == 3
    } else {
        true
    }
}

/// Whether `c` is the command the token list denotes.
pub open spec fn command_matches(tv: Seq<Seq<char>>, c: Command) -> bool {
    match c {
        Command::Add(ns) => tv[0] == "add"@ && str_views(ns@) == tv.drop_first(),
        Command::Part { task, participants } => tv[0] == "part"@ && task@ == tv[1] && str_views(
            participants@,
        ) == tv.subrange(2, tv.len() as int),
        Command::Pay { payer, task, amount } => tv[0] == "pay"@ && payer@ == tv[1] && task@
            == tv[2] && amount@ == tv[3],
        Command::Transfer { payer, payee, amount } => tv[0] == "payment"@ && payer@ == tv[1]
            && payee@ == tv[2] && amount@ == tv[3],
        Command::Print(args) => tv[0] == "print"@ && str_views(args@) == tv.drop_first(),
        Command::Save(p) => tv[0] == "save"@ && (match p {
            Some(x) => tv.len() >= 2 && x@ == tv[1],
            None => tv.len() == 1,
        }),
        Command::Load(p) => tv[0] == "load"@ && p@ == tv[1],
        Command::Rename { from, to } => tv[0] == "rename"@ && from@ == tv[1] && to@ == tv[2],
        Command::Remove(n) => tv[0] == "remove"@ && tv.len() == 2 && n@ == tv[1],
        Command::Detach { participant, task } => tv[0] == "remove"@ && tv.len() == 3
            && participant@ == tv[1] && task@ == tv[2],
    }
}


/// The verbs' literal facts: their lengths, and that the same-length
/// verbs differ.
proof fn lemma_verbs_distinct()
    ensures
        ("add"@).len() == 3,
        ("part"@).len() == 4,
        ("pay"@).len() == 3,
        ("payment"@).len() == 7,
        ("print"@).len() == 5,
        ("save"@).len() == 4,
        ("load"@).len() == 4,
        ("rename"@).len() == 6,
        ("remove"@).len() == 6,
        "add"@ != "pay"@,
        "part"@ != "save"@,
        "part"@ != "load"@,
        "save"@ != "load"@,
        "rename"@ != "remove"@,
{
    reveal_strlit("add");
    reveal_strlit("part");
    reveal_strlit("pay");
    reveal_strlit("payment");
    reveal_strlit("print");
    reveal_strlit("save");
    reveal_strlit("load");
    reveal_strlit("rename");
    reveal_strlit("remove");
    assert(("add"@)[0] == 'a');
    assert(("pay"@)[0] == 'p');
    assert(("part"@)[0] == 'p');
    assert(("part"@)[1] == 'a');
    assert(("save"@)[0] == 's');
    assert(("load"@)[0] == 'l');
    assert(("rename"@)[1] == 'e');
    assert(("remove"@)[1] == 'e');
    assert(("rename"@)[2] == 'n');
    assert(("remove"@)[2] == 'm');
}

/// The strings of `toks` from position `from` on, copied.
fn copy_tail(toks: &Vec<String>, from: usize) -> (r: Vec<String>)
    requires
        from <= toks@.len(),
    ensures
        str_views(r@) == str_views(toks@).subrange(from as int, toks@.len() as int),
{
    let m = toks.len();
    let mut r: Vec<String> = Vec::new();
    let mut i: usize = from;
    while i < m
        invariant
            from <= i <= m,
            m == toks@.len(),
            r@.len() == i - from,
            forall|k: int| 0 <= k < r@.len() ==> str_views(r@)[k] == str_views(toks@)[from + k],
        decreases m - i,
    {
        let x = toks[i].clone();
        proof {
            assert(str_views(r@.push(x)) =~= str_views(r@).push(x@));
        }
        r.push(x);
        i = i + 1;
    }
    proof {
        assert(str_views(r@) =~= str_views(toks@).subrange(from as int, toks@.len() as int));
    }
    r
}

/// Parses a token list into a command. Fails with `UnknownCommand` when
/// the first token is no verb, and with `MalformedCommand` when required
/// arguments are missing.
pub fn parse_tokens(toks: &Vec<String>) -> (r: Result<Command, LedgerError>)
    ensures
        ({
            let tv = str_views(toks@);
            &&& (tv.len() == 0 ==> (r matches Err(e) && e@ == ErrV::UnknownCommand(
                Seq::empty(),
            )))
            &&& (tv.len() > 0 && !known_verb(tv[0]) ==> (r matches Err(e) && e@
                == ErrV::UnknownCommand(tv[0])))
            &&& (tv.len() > 0 && known_verb(tv[0]) && !arity_ok(tv) ==> (r matches Err(e) && e@
                == ErrV::MalformedCommand))
            &&& (tv.len() > 0 && known_verb(tv[0]) && arity_ok(tv) ==> (r matches Ok(c)
                && command_matches(tv, c)))
            &&& (r is Ok ==> tv.len() > 0 && known_verb(tv[0]) && arity_ok(tv))
        }),
{
    let ghost tv = str_views(toks@);
    proof {
        lemma_verbs_distinct();
    }
    let n = toks.len();
    proof {
        assert(tv.len() == toks@.len());
    }
    if n == 0 {
        return Err(LedgerError::UnknownCommand(String::new()));
    }
    proof {
        assert(tv[0] == toks@[0]@);
        if tv.len() > 1 {
            assert(tv[1] == toks@[1]@);
        }
        if tv.len() > 2 {
            assert(tv[2] == toks@[2]@);
        }
        if tv.len() > 3 {
            assert(tv[3] == toks@[3]@);
        }
        assert(tv.drop_first() =~= tv.subrange(1, tv.len() as int));
    }
    let verb = toks[0].as_str();
    if str_eq(verb, "add") {
        if n < 2 {
            return Err(LedgerError::MalformedCommand);
        }
        return Ok(Command::Add(copy_tail(toks, 1)));
    }
    if str_eq(verb, "part") {
        if n < 3 {
            return Err(LedgerError::MalformedCommand);
        }
        return Ok(
            Command::Part { task: toks[1].clone(), participants: copy_tail(toks, 2) },
        );
    }
    if str_eq(verb, "pay") {
        if n < 4 {
            return Err(LedgerError::MalformedCommand);
        }
        return Ok(
            Command::Pay {
                payer: toks[1].clone(),
                task: toks[2].clone(),
                amount: toks[3].clone(),
            },
        );
    }
    if str_eq(verb, "payment") {
        if n < 4 {
            return Err(LedgerError::MalformedCommand);
        }
        return Ok(
            Command::Transfer {
                payer: toks[1].clone(),
                payee: toks[2].clone(),
                amount: toks[3].clone(),
            },
        );
    }
    if str_eq(verb, "print") {
        return Ok(Command::Print(copy_tail(toks, 1)));
    }
    if str_eq(verb, "save") {
        if n >= 2 {
            return Ok(Command::Save(Some(toks[1].clone())));
        }
        return Ok(Command::Save(None));
    }
    if str_eq(verb, "load") {
        if n < 2 {
            return Err(LedgerError::MalformedCommand);
        }
        return Ok(Command::Load(toks[1].clone()));
    }
    if str_eq(verb, "rename") {
        if n != 3 {
            return Err(LedgerError::MalformedCommand);
        }
        return Ok(Command::Rename { from: toks[1].clone(), to: toks[2].clone() });
    }
    if str_eq(verb, "remove") {
        if n == 2 {
            return Ok(Command::Remove(toks[1].clone()));
        }
        if n == 3 {
            return Ok(
                Command::Detach { participant: toks[1].clone(), task: toks[2].clone() },
            );
        }
        return Err(LedgerError::MalformedCommand);
    }
    Err(LedgerError::UnknownCommand(toks[0].clone()))
}

/// The model values of a list of errors.
pub open spec fn errs_of(es: Seq<LedgerError>) -> Seq<ErrV> {
    es.map_values(|e: LedgerError| e@)
}

impl Payment {
    /// The tolerant `add` verb: each name is created independently, `all`
    /// is skipped, and every failure is collected while the rest of the
    /// list is still applied.
    #[verifier::loop_isolation(false)]
    fn do_add(&mut self, names: &Vec<String>) -> (r: Vec<LedgerError>)
        ensures
            final(self)@ == apply_add_list(old(self)@, str_views(names@)).0,
            errs_of(r@) == apply_add_list(old(self)@, str_views(names@)).1,
            wf(old(self)@) ==> wf(final(self)@),
    {
        let ghost s0 = self@;
        let ghost nv = str_views(names@);
        proof {
            assert(nv.subrange(0, nv.len() as int) =~= nv);
        }
        let n = names.len();
        let mut errs: Vec<LedgerError> = Vec::new();
        let mut k: usize = 0;
        while k < n
            invariant
                k <= n,
                wf(s0) ==> wf(self@),
                ({
                    let rest = apply_add_list(self@, nv.subrange(k as int, nv.len() as int));
                    apply_add_list(s0, nv).0 == rest.0 && apply_add_list(s0, nv).1 == errs_of(
                        errs@,
                    ) + rest.1
                }),
            decreases n - k,
        {
            let ghost suf = nv.subrange(k as int, nv.len() as int);
            proof {
                assert(suf[0] == nv[k as int]);
                assert(nv[k as int] == names@[k as int]@);
                assert(suf.drop_first() =~= nv.subrange(k + 1, nv.len() as int));
            }
            if str_eq(names[k].as_str(), "all") {
            } else {
                let ghost sc = self@;
                match self.add_participant(names[k].as_str()) {
                    Ok(_) => {},
                    Err(e) => {
                        let ghost ep = errs@;
                        errs.push(e);
                        proof {
                            assert(errs_of(errs@) =~= errs_of(ep).push(e@));
                            let rest = apply_add_list(sc, nv.subrange(k + 1, nv.len() as int));
                            assert(errs_of(ep) + (seq![e@] + rest.1) =~= errs_of(errs@)
                                + rest.1);
                        }
                    },
                }
            }
            k = k + 1;
        }
        proof {
            assert(nv.subrange(n as int, nv.len() as int) =~= Seq::<Seq<char>>::empty());
            let rest = apply_add_list(self@, nv.subrange(n as int, nv.len() as int));
            assert(rest.0 == self@ && rest.1 =~= Seq::<ErrV>::empty());
            assert(errs_of(errs@) + rest.1 =~= errs_of(errs@));
        }
        errs
    }

    /// Associates every listed name with one task, front to back; unknown
    /// names are skipped silently.
    #[verifier::loop_isolation(false)]
    fn associate_many(&mut self, task: &str, names: &Vec<String>)
        ensures
            final(self)@ == apply_associate_list(old(self)@, task@, str_views(names@)),
            wf(old(self)@) ==> wf(final(self)@),
    {
        let ghost s0 = self@;
        let ghost nv = str_views(names@);
        proof {
            assert(nv.subrange(0, nv.len() as int) =~= nv);
        }
        let n = names.len();
        let mut k: usize = 0;
        while k < n
            invariant
                k <= n,
                wf(s0) ==> wf(self@),
                apply_associate_list(s0, task@, nv) == apply_associate_list(
                    self@,
                    task@,
                    nv.subrange(k as int, nv.len() as int),
                ),
            decreases n - k,
        {
            let ghost suf = nv.subrange(k as int, nv.len() as int);
            proof {
                assert(suf[0] == nv[k as int]);
                assert(nv[k as int] == names@[k as int]@);
                assert(suf.drop_first() =~= nv.subrange(k + 1, nv.len() as int));
            }
            self.associate(task, names[k].as_str());
            k = k + 1;
        }
        proof {
            assert(nv.subrange(n as int, nv.len() as int) =~= Seq::<Seq<char>>::empty());
        }
    }

    /// A copy of every task name, in store order.
    fn task_names_vec(&self) -> (r: Vec<String>)
        ensures
            str_views(r@) == tnames(self@),
    {
        let n = self.tasks.len();
        let mut r: Vec<String> = Vec::new();
        let mut i: usize = 0;
        while i < n
            invariant
                n == self.tasks@.len(),
                i <= n,
                r@.len() == i,
                forall|k: int| 0 <= k < i ==> str_views(r@)[k] == tnames(self@)[k],
            decreases n - i,
        {
            let x = self.tasks[i].name.clone();
            proof {
                assert(str_views(r@.push(x)) =~= str_views(r@).push(x@));
            }
            r.push(x);
            i = i + 1;
        }
        proof {
            assert(str_views(r@) =~= tnames(self@));
        }
        r
    }

    /// A copy of every participant name, in store order.
    fn participant_names_vec(&self) -> (r: Vec<String>)
        ensures
            str_views(r@) == pnames(self@),
    {
        let n = self.participants.len();
        let mut r: Vec<String> = Vec::new();
        let mut i: usize = 0;
        while i < n
            invariant
                n == self.participants@.len(),
                i <= n,
                r@.len() == i,
                forall|k: int| 0 <= k < i ==> str_views(r@)[k] == pnames(self@)[k],
            decreases n - i,
        {
            let x = self.participants[i].name.clone();
            proof {
                assert(str_views(r@.push(x)) =~= str_views(r@).push(x@));
            }
            r.push(x);
            i = i + 1;
        }
        proof {
            assert(str_views(r@) =~= pnames(self@));
        }
        r
    }

    /// Associates the listed names with every listed task.
    #[verifier::loop_isolation(false)]
    fn fanout(&mut self, tasklist: &Vec<String>, members: &Vec<String>)
        ensures
            final(self)@ == apply_part_fanout(
                old(self)@,
                str_views(tasklist@),
                str_views(members@),
            ),
            wf(old(self)@) ==> wf(final(self)@),
    {
        let ghost s0 = self@;
        let ghost tl = str_views(tasklist@);
        let ghost mv = str_views(members@);
        proof {
            assert(tl.subrange(0, tl.len() as int) =~= tl);
        }
        let n = tasklist.len();
        let mut k: usize = 0;
        while k < n
            invariant
                k <= n,
                wf(s0) ==> wf(self@),
                apply_part_fanout(s0, tl, mv) == apply_part_fanout(
                    self@,
                    tl.subrange(k as int, tl.len() as int),
                    mv,
                ),
            decreases n - k,
        {
            let ghost suf = tl.subrange(k as int, tl.len() as int);
            proof {
                assert(suf[0] == tl[k as int]);
                assert(tl[k as int] == tasklist@[k as int]@);
                assert(suf.drop_first() =~= tl.subrange(k + 1, tl.len() as int));
            }
            self.associate_many(tasklist[k].as_str(), members);
            k = k + 1;
        }
        proof {
            assert(tl.subrange(n as int, tl.len() as int) =~= Seq::<Seq<char>>::empty());
        }
    }

    /// The `pay` verb: validates both names and the amount, in the verbs'
    /// order, then records the payment.
    fn do_pay(&mut self, payer: &str, task: &str, amount: &str) -> (r: Result<(), LedgerError>)
        ensures
            wf(old(self)@) ==> wf(final(self)@),
            ({
                let s0 = old(self)@;
                if reserved_name(payer@) {
                    r matches Err(e) && e@ == ErrV::NameConflict(payer@) && final(self)@ == s0
                } else if reserved_name(task@) {
                    r matches Err(e) && e@ == ErrV::NameConflict(task@) && final(self)@ == s0
                } else if pnames(s0).contains(task@) {
                    r matches Err(e) && e@ == ErrV::NameConflict(task@) && final(self)@ == s0
                } else if tnames(s0).contains(payer@) {
                    r matches Err(e) && e@ == ErrV::NameConflict(payer@) && final(self)@ == s0
                } else if payer@ == task@ {
                    r matches Err(e) && e@ == ErrV::NameConflict(task@) && final(self)@ == s0
                } else if !(amount_of(amount@) matches Some(m) && m <= MAX_MINOR_UNITS as int) {
                    r matches Err(e) && e@ == ErrV::InvalidAmount(amount@) && final(self)@ == s0
                } else {
                    r is Ok && (amount_of(amount@) matches Some(m) && final(self)@ == apply_pay(
                        s0,
                        payer@,
                        task@,
                        m,
                    ))
                }
            }),
    {
        if str_eq(payer, "all") || str_eq(payer, "-a") {
            return Err(LedgerError::NameConflict(payer.to_owned()));
        }
        if str_eq(task, "all") || str_eq(task, "-a") {
            return Err(LedgerError::NameConflict(task.to_owned()));
        }
        proof {
            lemma_contains_index(pnames(self@), task@);
            lemma_contains_index(tnames(self@), payer@);
        }
        if self.find_participant(task).is_some() {
            return Err(LedgerError::NameConflict(task.to_owned()));
        }
        if self.find_task(payer).is_some() {
            return Err(LedgerError::NameConflict(payer.to_owned()));
        }
        if str_eq(payer, task) {
            return Err(LedgerError::NameConflict(task.to_owned()));
        }
        let cost = match parse_amount(amount) {
            Ok(v) => v,
            Err(e) => {
                return Err(e);
            },
        };
        self.ensure_task(payer, task, cost);
        Ok(())
    }

    /// The `payment` verb: validates the amount first, then both
    /// participants, then records the transfer.
    fn do_transfer(&mut self, payer: &str, payee: &str, amount: &str) -> (r: Result<
        (),
        LedgerError,
    >)
        ensures
            wf(old(self)@) ==> wf(final(self)@),
            ({
                let s0 = old(self)@;
                if !(amount_of(amount@) matches Some(m) && m <= MAX_MINOR_UNITS as int) {
                    r matches Err(e) && e@ == ErrV::InvalidAmount(amount@) && final(self)@ == s0
                } else if index_of_name(pnames(s0), payer@) is None {
                    r matches Err(e) && e@ == ErrV::UnknownParticipant(payer@) && final(self)@
                        == s0
                } else if index_of_name(pnames(s0), payee@) is None {
                    r matches Err(e) && e@ == ErrV::UnknownParticipant(payee@) && final(self)@
                        == s0
                } else {
                    r is Ok && (amount_of(amount@) matches Some(m) && final(self)@
                        == apply_transfer(s0, payer@, payee@, m))
                }
            }),
    {
        let a = match parse_amount(amount) {
            Ok(v) => v,
            Err(e) => {
                return Err(e);
            },
        };
        self.record_transfer(payer, payee, a)
    }

    /// Applies one command line to the ledger: tokenizes it, parses the
    /// verb, validates before mutating, and returns either the reply or
    /// the collected failures (the tolerant `add` may report several).
    /// The store invariant is preserved by every path.
    #[verifier::rlimit(100)]
    #[verifier::spinoff_prover]
    pub fn command(&mut self, com: &str) -> (r: Result<Reply, Vec<LedgerError>>)
        requires
            wf(old(self)@),
        ensures
            wf(final(self)@),
            ({
                let tv = tokens_of(com@);
                let s0 = old(self)@;
                &&& (tv.len() == 0 ==> (r matches Err(es) && errs_of(es@) == seq![
                    ErrV::UnknownCommand(Seq::<char>::empty()),
                ] && final(self)@ == s0))
                &&& (tv.len() > 0 && !known_verb(tv[0]) ==> (r matches Err(es) && errs_of(es@)
                    == seq![ErrV::UnknownCommand(tv[0])] && final(self)@ == s0))
                &&& (tv.len() > 0 && known_verb(tv[0]) && !arity_ok(tv) ==> (r matches Err(es)
                    && errs_of(es@) == seq![ErrV::MalformedCommand] && final(self)@ == s0))
                &&& (tv.len() > 0 && tv[0] == "add"@ && arity_ok(tv) ==> final(self)@
                    == apply_add_list(s0, tv.drop_first()).0 && (if apply_add_list(
                    s0,
                    tv.drop_first(),
                ).1.len() == 0 {
                    r matches Ok(rep) && rep is Done
                } else {
                    (r matches Err(es) && errs_of(es@) == apply_add_list(s0, tv.drop_first()).1)
                }))
                &&& (tv.len() > 0 && tv[0] == "part"@ && arity_ok(tv) ==> ({
                    let task = tv[1];
                    let members = tv.subrange(2, tv.len() as int);
                    if task == "all"@ && members[0] == "all"@ {
                        final(self)@ == apply_part_fanout(s0, tnames(s0), pnames(s0)) && (r
                            matches Ok(rep) && rep is Done)
                    } else if task == "all"@ {
                        final(self)@ == apply_part_fanout(s0, tnames(s0), members) && (r matches
                            Ok(rep) && rep is Done)
                    } else if index_of_name(tnames(s0), task) is None {
                        final(self)@ == s0 && (r matches Err(es) && errs_of(es@) == seq![
                            ErrV::UnknownTask(task),
                        ])
                    } else if members[0] == "all"@ {
                        final(self)@ == apply_associate_list(s0, task, pnames(s0)) && (r matches
                            Ok(rep) && rep is Done)
                    } else {
                        final(self)@ == apply_associate_list(s0, task, members) && (r matches Ok(
                            rep,
                        ) && rep is Done)
                    }
                }))
                &&& (tv.len() > 0 && tv[0] == "pay"@ && arity_ok(tv) ==> ({
                    let payer = tv[1];
                    let task = tv[2];
                    let amount = tv[3];
                    if reserved_name(payer) {
                        final(self)@ == s0 && (r matches Err(es) && errs_of(es@) == seq![
                            ErrV::NameConflict(payer),
                        ])
                    } else if reserved_name(task) {
                        final(self)@ == s0 && (r matches Err(es) && errs_of(es@) == seq![
                            ErrV::NameConflict(task),
                        ])
                    } else if pnames(s0).contains(task) {
                        final(self)@ == s0 && (r matches Err(es) && errs_of(es@) == seq![
                            ErrV::NameConflict(task),
                        ])
                    } else if tnames(s0).contains(payer) {
                        final(self)@ == s0 && (r matches Err(es) && errs_of(es@) == seq![
                            ErrV::NameConflict(payer),
                        ])
                    } else if payer == task {
                        final(self)@ == s0 && (r matches Err(es) && errs_of(es@) == seq![
                            ErrV::NameConflict(task),
                        ])
                    } else if !(amount_of(amount) matches Some(m) && m <= MAX_MINOR_UNITS as int) {
                        final(self)@ == s0 && (r matches Err(es) && errs_of(es@) == seq![
                            ErrV::InvalidAmount(amount),
                        ])
                    } else {
                        (amount_of(amount) matches Some(m) && final(self)@ == apply_pay(
                            s0,
                            payer,
                            task,
                            m,
                        )) && (r matches Ok(rep) && rep is Done)
                    }
                }))
                &&& (tv.len() > 0 && tv[0] == "payment"@ && arity_ok(tv) ==> ({
                    let payer = tv[1];
                    let payee = tv[2];
                    let amount = tv[3];
                    if !(amount_of(amount) matches Some(m) && m <= MAX_MINOR_UNITS as int) {
                        final(self)@ == s0 && (r matches Err(es) && errs_of(es@) == seq![
                            ErrV::InvalidAmount(amount),
                        ])
                    } else if index_of_name(pnames(s0), payer) is None {
                        final(self)@ == s0 && (r matches Err(es) && errs_of(es@) == seq![
                            ErrV::UnknownParticipant(payer),
                        ])
                    } else if index_of_name(pnames(s0), payee) is None {
                        final(self)@ == s0 && (r matches Err(es) && errs_of(es@) == seq![
                            ErrV::UnknownParticipant(payee),
                        ])
                    } else {
                        (amount_of(amount) matches Some(m) && final(self)@ == apply_transfer(
                            s0,
                            payer,
                            payee,
                            m,
                        )) && (r matches Ok(rep) && rep is Done)
                    }
                }))
                &&& (tv.len() > 0 && tv[0] == "rename"@ && arity_ok(tv) ==> ({
                    let from = tv[1];
                    let to = tv[2];
                    if reserved_name(to) || index_of_name(pnames(s0), to) is Some
                        || index_of_name(tnames(s0), to) is Some {
                        final(self)@ == s0 && (r matches Err(es) && errs_of(es@) == seq![
                            ErrV::NameConflict(to),
                        ])
                    } else if index_of_name(pnames(s0), from) is None && index_of_name(
                        tnames(s0),
                        from,
                    ) is None {
                        final(self)@ == s0 && (r matches Err(es) && errs_of(es@) == seq![
                            ErrV::NotFound(from),
                        ])
                    } else {
                        final(self)@ == apply_rename(s0, from, to) && (r matches Ok(rep)
                            && rep is Done)
                    }
                }))
                &&& (tv.len() > 0 && tv[0] == "remove"@ && tv.len() == 2 ==> ({
                    let name = tv[1];
                    if index_of_name(pnames(s0), name) is Some {
                        final(self)@ == apply_remove_participant(s0, name) && (r matches Ok(rep)
                            && rep is Done)
                    } else if index_of_name(tnames(s0), name) is Some {
                        final(self)@ == apply_remove_task(s0, name) && (r matches Ok(rep)
                            && rep is Done)
                    } else {
                        final(self)@ == s0 && (r matches Err(es) && errs_of(es@) == seq![
                            ErrV::NotFound(name),
                        ])
                    }
                }))
                &&& (tv.len() > 0 && tv[0] == "remove"@ && tv.len() == 3 ==> ({
                    let part = tv[1];
                    let task = tv[2];
                    if reserved_name(task) {
                        final(self)@ == s0 && (r matches Err(es) && errs_of(es@) == seq![
                            ErrV::UnknownTask(task),
                        ])
                    } else {
                        match index_of_name(pnames(s0), part) {
                            Some(i) => if s0.participants[i].paid.contains(task) {
                                final(self)@ == s0 && (r matches Err(es) && errs_of(es@)
                                    == seq![ErrV::OwnsTask(task)])
                            } else {
                                final(self)@ == apply_detach(s0, part, task) && (r matches Ok(
                                    rep,
                                ) && rep is Done)
                            },
                            None => final(self)@ == s0 && (r matches Err(es) && errs_of(es@)
                                == seq![ErrV::UnknownParticipant(part)]),
                        }
                    }
                }))
                &&& (tv.len() > 0 && tv[0] == "print"@ ==> final(self)@ == s0 && (r matches Ok(
                    rep,
                ) && print_reply_matches(s0, tv.drop_first(), rep)))
                &&& (tv.len() > 0 && tv[0] == "save"@ ==> final(self)@ == s0 && (r matches Ok(
                    rep,
                ) && (rep matches Reply::SaveTo(p, snap) && snap@ == s0 && (match p {
                    Some(x) => tv.len() >= 2 && x@ == tv[1],
                    None => tv.len() == 1,
                }))))
                &&& (tv.len() > 0 && tv[0] == "load"@ && arity_ok(tv) ==> final(self)@ == s0
                    && (r matches Ok(rep) && (rep matches Reply::LoadFrom(p) && p@ == tv[1])))
            }),
    {
        let toks = tokenize(com);
        let ghost tv = tokens_of(com@);
        proof {
            assert(str_views(toks@) == tv);
            lemma_verbs_distinct();
        }
        let cmd = match parse_tokens(&toks) {
            Ok(c) => c,
            Err(e) => {
                let mut es: Vec<LedgerError> = Vec::new();
                es.push(e);
                proof {
                    assert(errs_of(es@) =~= seq![e@]);
                    lemma_verbs_distinct();
                }
                return Err(es);
            },
        };
        match cmd {
            Command::Add(ns) => {
                let errs = self.do_add(&ns);
                if errs.len() == 0 {
                    proof {
                        assert(apply_add_list(old(self)@, tv.drop_first()).1.len() == 0);
                        lemma_verbs_distinct();
                    }
                    return Ok(Reply::Done);
                } else {
                    proof {
                        lemma_verbs_distinct();
                    }
                    return Err(errs);
                }
            },
            Command::Part { task, participants } => {
                proof {
                    assert(str_views(participants@) == tv.subrange(2, tv.len() as int));
                    assert(participants@.len() == tv.len() - 2);
                    assert(participants@.len() >= 1);
                    assert(str_views(participants@)[0] == participants@[0]@);
                    assert(tv.subrange(2, tv.len() as int)[0] == tv[2]);
                }
                let all_task = str_eq(task.as_str(), "all");
                let all_members = str_eq(participants[0].as_str(), "all");
                if all_task && all_members {
                    let tl = self.task_names_vec();
                    let mv = self.participant_names_vec();
                    self.fanout(&tl, &mv);
                    proof {
                        lemma_verbs_distinct();
                    }
                    return Ok(Reply::Done);
                } else if all_task {
                    let tl = self.task_names_vec();
                    self.fanout(&tl, &participants);
                    proof {
                        lemma_verbs_distinct();
                    }
                    return Ok(Reply::Done);
                } else {
                    match self.find_task(task.as_str()) {
                        Some(_) => {
                            proof {
                                lemma_index_of_name(tnames(self@), task@);
                            }
                            if all_members {
                                let mv = self.participant_names_vec();
                                self.associate_many(task.as_str(), &mv);
                            } else {
                                self.associate_many(task.as_str(), &participants);
                            }
                            proof {
                                lemma_verbs_distinct();
                            }
                            return Ok(Reply::Done);
                        },
                        None => {
                            let mut es: Vec<LedgerError> = Vec::new();
                            es.push(LedgerError::UnknownTask(task));
                            proof {
                                assert(errs_of(es@) =~= seq![ErrV::UnknownTask(tv[1])]);
                                lemma_verbs_distinct();
                            }
                            return Err(es);
                        },
                    }
                }
            },
            Command::Pay { payer, task, amount } => {
                match self.do_pay(payer.as_str(), task.as_str(), amount.as_str()) {
                    Ok(_) => {
                        proof {
                            lemma_verbs_distinct();
                        }
                        return Ok(Reply::Done);
                    },
                    Err(e) => {
                        let mut es: Vec<LedgerError> = Vec::new();
                        es.push(e);
                        proof {
                            assert(errs_of(es@) =~= seq![e@]);
                            lemma_verbs_distinct();
                        }
                        return Err(es);
                    },
                }
            },
            Command::Transfer { payer, payee, amount } => {
                match self.do_transfer(payer.as_str(), payee.as_str(), amount.as_str()) {
                    Ok(_) => {
                        proof {
                            lemma_verbs_distinct();
                        }
                        return Ok(Reply::Done);
                    },
                    Err(e) => {
                        let mut es: Vec<LedgerError> = Vec::new();
                        es.push(e);
                        proof {
                            assert(errs_of(es@) =~= seq![e@]);
                            lemma_verbs_distinct();
                        }
                        return Err(es);
                    },
                }
            },
            Command::Print(args) => {
                proof {
                    lemma_verbs_distinct();
                }
                return Ok(self.print(&args));
            },
            Command::Save(p) => {
                proof {
                    lemma_verbs_distinct();
                }
                return Ok(Reply::SaveTo(p, self.to_snapshot()));
            },
            Command::Load(p) => {
                proof {
                    lemma_verbs_distinct();
                }
                return Ok(Reply::LoadFrom(p));
            },
            Command::Rename { from, to } => {
                match self.rename(from.as_str(), to.as_str()) {
                    Ok(_) => {
                        proof {
                            lemma_verbs_distinct();
                        }
                        return Ok(Reply::Done);
                    },
                    Err(e) => {
                        let mut es: Vec<LedgerError> = Vec::new();
                        es.push(e);
                        proof {
                            assert(errs_of(es@) =~= seq![e@]);
                            lemma_verbs_distinct();
                        }
                        return Err(es);
                    },
                }
            },
            Command::Remove(n) => {
                match self.remove(n.as_str()) {
                    Ok(_) => {
                        proof {
                            lemma_verbs_distinct();
                        }
                        return Ok(Reply::Done);
                    },
                    Err(e) => {
                        let mut es: Vec<LedgerError> = Vec::new();
                        es.push(e);
                        proof {
                            assert(errs_of(es@) =~= seq![e@]);
                            lemma_verbs_distinct();
                        }
                        return Err(es);
                    },
                }
            },
            Command::Detach { participant, task } => {
                proof {
                    lemma_index_of_name(pnames(old(self)@), tv[1]);
                }
                match self.detach(participant.as_str(), task.as_str()) {
                    Ok(_) => {
                        proof {
                            lemma_verbs_distinct();
                        }
                        return Ok(Reply::Done);
                    },
                    Err(e) => {
                        let mut es: Vec<LedgerError> = Vec::new();
                        es.push(e);
                        proof {
                            assert(errs_of(es@) =~= seq![e@]);
                            lemma_verbs_distinct();
                        }
                        return Err(es);
                    },
                }
            },
        }
    }
}

} // verus!
