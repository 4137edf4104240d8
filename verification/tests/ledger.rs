//! End-to-end tests of the ledger through its public API.

use payments::amount::parse_amount;
use payments::balance::BalanceLine;
use payments::errors::LedgerError;
use payments::report::Reply;
use payments::store::{Participant, Payment, Task};
use payments::text::tokenize;

fn run(p: &mut Payment, line: &str) -> Result<Reply, Vec<LedgerError>> {
    p.command(line)
}

fn ok(p: &mut Payment, line: &str) {
    let r = run(p, line);
    assert!(r.is_ok(), "command {:?} failed: {:?}", line, r.err());
}

fn balance(p: &Payment, name: &str) -> i64 {
    p.balance_of(name).expect("unknown participant").expect("balance overflow")
}

#[test]
fn tokenize_splits_on_whitespace() {
    let toks = tokenize("  add  Alice\tBob\n");
    let views: Vec<&str> = toks.iter().map(|s| s.as_str()).collect();
    assert_eq!(views, vec!["add", "Alice", "Bob"]);
    assert!(tokenize("   \t\n").is_empty());
    assert!(tokenize("").is_empty());
}

#[test]
fn amounts_parse_to_minor_units() {
    assert_eq!(parse_amount("30.00").unwrap(), 3000);
    assert_eq!(parse_amount("30").unwrap(), 3000);
    assert_eq!(parse_amount("0.29").unwrap(), 29);
    assert_eq!(parse_amount("0.299").unwrap(), 30);
    assert_eq!(parse_amount("1.005").unwrap(), 101);
    assert_eq!(parse_amount("1.004").unwrap(), 100);
    assert_eq!(parse_amount(".5").unwrap(), 50);
    assert_eq!(parse_amount("5.").unwrap(), 500);
    assert_eq!(parse_amount("007").unwrap(), 700);
}

#[test]
fn bad_amounts_are_rejected() {
    for bad in ["", ".", "-5", "12a", "1e3", "1.2.3", "inf", "10000000000000000"] {
        let r = parse_amount(bad);
        assert!(
            matches!(r, Err(LedgerError::InvalidAmount(_))),
            "{:?} should be invalid, got {:?}",
            bad,
            r
        );
    }
}

#[test]
fn dinner_split_between_two() {
    // add Alice Bob; pay Alice Dinner 30.00; part Dinner Bob
    // Alice is owed 15.00, Bob owes 15.00.
    let mut p = Payment::new();
    ok(&mut p, "add Alice Bob");
    ok(&mut p, "pay Alice Dinner 30.00");
    ok(&mut p, "part Dinner Bob");
    assert_eq!(balance(&p, "Alice"), -1500);
    assert_eq!(balance(&p, "Bob"), 1500);
}

#[test]
fn settling_transfer_zeroes_balances() {
    let mut p = Payment::new();
    ok(&mut p, "add Alice Bob");
    ok(&mut p, "pay Alice Dinner 30.00");
    ok(&mut p, "part Dinner Bob");
    ok(&mut p, "payment Bob Alice 15.00");
    assert_eq!(balance(&p, "Alice"), 0);
    assert_eq!(balance(&p, "Bob"), 0);
}

#[test]
fn repaying_updates_cost_to_latest() {
    let mut p = Payment::new();
    ok(&mut p, "add Alice Bob");
    ok(&mut p, "pay Alice Dinner 30.00");
    ok(&mut p, "part Dinner Bob");
    ok(&mut p, "pay Alice Dinner 40.00");
    assert_eq!(p.tasks.len(), 1);
    assert_eq!(p.tasks[0].cost, 4000);
    assert_eq!(balance(&p, "Alice"), -2000);
    assert_eq!(balance(&p, "Bob"), 2000);
}

#[test]
fn repaying_by_other_migrates_ownership() {
    let mut p = Payment::new();
    ok(&mut p, "pay Alice Dinner 30.00");
    ok(&mut p, "part Dinner Bob");
    // Bob does not exist yet, so `part` skipped him silently.
    assert!(p.find_participant("Bob").is_none());
    ok(&mut p, "add Bob");
    ok(&mut p, "part Dinner Bob");
    ok(&mut p, "pay Bob Dinner 30.00");
    // Ownership moved to Bob; Alice was fully detached from the task.
    assert_eq!(p.tasks[0].owner, "Bob");
    assert_eq!(balance(&p, "Bob"), -3000 + 3000 / 1);
    assert_eq!(balance(&p, "Alice"), 0);
}

#[test]
fn transfer_moves_exactly_the_amount() {
    let mut p = Payment::new();
    ok(&mut p, "add X Y Z");
    ok(&mut p, "pay X Trip 90.00");
    ok(&mut p, "part Trip Y Z");
    let bx = balance(&p, "X");
    let by = balance(&p, "Y");
    let bz = balance(&p, "Z");
    ok(&mut p, "payment Y X 10.00");
    assert_eq!(balance(&p, "Y"), by - 1000);
    assert_eq!(balance(&p, "X"), bx + 1000);
    assert_eq!(balance(&p, "Z"), bz);
}

#[test]
fn balance_query_is_idempotent() {
    let mut p = Payment::new();
    ok(&mut p, "add A B");
    ok(&mut p, "pay A T 10.01");
    ok(&mut p, "part T B");
    let first = p.balance_of("A").unwrap();
    let second = p.balance_of("A").unwrap();
    assert_eq!(first, second);
    let l1 = p.calculate();
    let l2 = p.calculate();
    assert_eq!(l1.len(), l2.len());
    for (a, b) in l1.iter().zip(l2.iter()) {
        assert_eq!(a.name, b.name);
        assert_eq!(a.balance, b.balance);
    }
}

#[test]
fn odd_split_rounds_to_nearest() {
    // 10.00 across three people: each share is 1000/3 = 333.33..,
    // so a non-payer owes 333 minor units after rounding.
    let mut p = Payment::new();
    ok(&mut p, "add A B C");
    ok(&mut p, "pay A T 10.00");
    ok(&mut p, "part T B C");
    assert_eq!(balance(&p, "B"), 333);
    assert_eq!(balance(&p, "C"), 333);
    // The payer carries the complement: 333.33.. - 1000 rounds to -667.
    assert_eq!(balance(&p, "A"), -667);
}

#[test]
fn rename_preserves_every_balance() {
    let mut p = Payment::new();
    ok(&mut p, "add Alice Bob");
    ok(&mut p, "pay Alice Dinner 30.00");
    ok(&mut p, "part Dinner Bob");
    ok(&mut p, "payment Bob Alice 5.00");
    let alice = balance(&p, "Alice");
    let bob = balance(&p, "Bob");
    ok(&mut p, "rename Alice Alicia");
    ok(&mut p, "rename Dinner Supper");
    assert_eq!(balance(&p, "Alicia"), alice);
    assert_eq!(balance(&p, "Bob"), bob);
    assert!(p.find_participant("Alice").is_none());
    assert!(p.find_task("Dinner").is_none());
    assert_eq!(p.tasks[0].owner, "Alicia");
}

#[test]
fn removing_nonowner_detaches_only_them() {
    let mut p = Payment::new();
    ok(&mut p, "add A B");
    ok(&mut p, "pay A T 10.00");
    ok(&mut p, "part T B");
    ok(&mut p, "remove B");
    assert!(p.find_participant("B").is_none());
    assert!(p.find_task("T").is_some());
    assert_eq!(p.tasks[0].participants.len(), 1);
    assert_eq!(p.tasks[0].participants[0], "A");
    assert_eq!(balance(&p, "A"), 1000 - 1000);
}

#[test]
fn removing_owner_cascades_to_their_tasks() {
    let mut p = Payment::new();
    ok(&mut p, "add A B");
    ok(&mut p, "pay A T 10.00");
    ok(&mut p, "part T B");
    ok(&mut p, "remove A");
    assert!(p.find_participant("A").is_none());
    assert!(p.find_task("T").is_none());
    assert!(p.tasks.is_empty());
    assert_eq!(balance(&p, "B"), 0);
    assert!(p.participants[0].tasks.is_empty());
}

#[test]
fn detach_refuses_the_owner() {
    let mut p = Payment::new();
    ok(&mut p, "add A B");
    ok(&mut p, "pay A T 10.00");
    ok(&mut p, "part T B");
    let r = run(&mut p, "remove A T");
    assert!(matches!(r, Err(ref es) if matches!(es[0], LedgerError::OwnsTask(_))));
    // Detaching a plain member works and leaves the task in place.
    ok(&mut p, "remove B T");
    assert_eq!(p.tasks[0].participants.len(), 1);
    assert!(p.participants[1].tasks.is_empty());
}

#[test]
fn detach_refuses_reserved_task_tokens() {
    let mut p = Payment::new();
    ok(&mut p, "add A B");
    ok(&mut p, "pay A T 10.00");
    ok(&mut p, "part T B");
    // There is no bulk detach: a reserved task token is an error, never a
    // silent no-op.
    let r = run(&mut p, "remove B all");
    assert!(matches!(r, Err(ref es) if matches!(es[0], LedgerError::UnknownTask(_))));
    let r = run(&mut p, "remove B -a");
    assert!(matches!(r, Err(ref es) if matches!(es[0], LedgerError::UnknownTask(_))));
    // A reserved participant token can never exist, so it errs too.
    let r = run(&mut p, "remove all T");
    assert!(matches!(r, Err(ref es) if matches!(es[0], LedgerError::UnknownParticipant(_))));
    // Nothing was detached by any of the refused commands.
    assert_eq!(p.tasks[0].participants.len(), 2);
    assert_eq!(p.participants[1].tasks.len(), 1);
}

#[test]
fn part_all_fans_out() {
    let mut p = Payment::new();
    ok(&mut p, "add A B");
    ok(&mut p, "pay A T1 10.00");
    ok(&mut p, "pay B T2 20.00");
    ok(&mut p, "part all all");
    assert_eq!(p.tasks[0].participants.len(), 2);
    assert_eq!(p.tasks[1].participants.len(), 2);
    assert_eq!(balance(&p, "A"), 500 + 1000 - 1000);
    assert_eq!(balance(&p, "B"), 500 + 1000 - 2000);
}

#[test]
fn part_all_tasks_for_one_member() {
    let mut p = Payment::new();
    ok(&mut p, "add A B C");
    ok(&mut p, "pay A T1 10.00");
    ok(&mut p, "pay B T2 20.00");
    ok(&mut p, "part all C");
    assert_eq!(p.tasks[0].participants.len(), 2);
    assert_eq!(p.tasks[1].participants.len(), 2);
    assert_eq!(balance(&p, "C"), 500 + 1000);
}

#[test]
fn part_one_task_for_everyone() {
    let mut p = Payment::new();
    ok(&mut p, "add A B C");
    ok(&mut p, "pay A T1 30.00");
    ok(&mut p, "part T1 all");
    assert_eq!(p.tasks[0].participants.len(), 3);
    assert_eq!(balance(&p, "B"), 1000);
}

#[test]
fn error_variants_match_their_causes() {
    let mut p = Payment::new();
    ok(&mut p, "add Alice");
    let dup = run(&mut p, "add Alice");
    assert!(matches!(dup, Err(ref es) if matches!(es[0], LedgerError::NameConflict(_))));
    let unknown = run(&mut p, "payment Alice Ghost 1.00");
    assert!(
        matches!(unknown, Err(ref es) if matches!(es[0], LedgerError::UnknownParticipant(_)))
    );
    let no_task = run(&mut p, "part Ghost Alice");
    assert!(matches!(no_task, Err(ref es) if matches!(es[0], LedgerError::UnknownTask(_))));
    let not_found = run(&mut p, "remove Ghost");
    assert!(matches!(not_found, Err(ref es) if matches!(es[0], LedgerError::NotFound(_))));
    let bad_amount = run(&mut p, "pay Alice T x2");
    assert!(matches!(bad_amount, Err(ref es) if matches!(es[0], LedgerError::InvalidAmount(_))));
    let bad_verb = run(&mut p, "frobnicate Alice");
    assert!(matches!(bad_verb, Err(ref es) if matches!(es[0], LedgerError::UnknownCommand(_))));
    let short = run(&mut p, "rename Alice");
    assert!(matches!(short, Err(ref es) if matches!(es[0], LedgerError::MalformedCommand)));
    let empty = run(&mut p, "");
    assert!(matches!(empty, Err(ref es) if matches!(es[0], LedgerError::UnknownCommand(_))));
}

#[test]
fn tolerant_add_applies_the_valid_names() {
    let mut p = Payment::new();
    ok(&mut p, "add Alice");
    let r = run(&mut p, "add Alice Bob -a Carol");
    // Alice is a duplicate and -a is reserved; Bob and Carol are added anyway.
    let es = r.err().expect("expected collected failures");
    assert_eq!(es.len(), 2);
    assert!(p.find_participant("Bob").is_some());
    assert!(p.find_participant("Carol").is_some());
    // `all` is skipped silently.
    ok(&mut p, "add all Dave");
    assert!(p.find_participant("all").is_none());
    assert!(p.find_participant("Dave").is_some());
}

#[test]
fn reserved_names_are_refused() {
    let mut p = Payment::new();
    let r = run(&mut p, "add -a");
    assert!(matches!(r, Err(ref es) if matches!(es[0], LedgerError::NameConflict(_))));
    let r = run(&mut p, "pay all T 1.00");
    assert!(matches!(r, Err(ref es) if matches!(es[0], LedgerError::NameConflict(_))));
    ok(&mut p, "add Alice");
    let r = run(&mut p, "rename Alice all");
    assert!(matches!(r, Err(ref es) if matches!(es[0], LedgerError::NameConflict(_))));
}

#[test]
fn pay_refuses_name_collisions() {
    let mut p = Payment::new();
    ok(&mut p, "add Alice Dinner");
    // The task name is already a participant.
    let r = run(&mut p, "pay Alice Dinner 3.00");
    assert!(matches!(r, Err(ref es) if matches!(es[0], LedgerError::NameConflict(_))));
    let mut q = Payment::new();
    ok(&mut q, "pay Alice Lunch 3.00");
    // The payer name is already a task.
    let r = run(&mut q, "pay Lunch Dinner 3.00");
    assert!(matches!(r, Err(ref es) if matches!(es[0], LedgerError::NameConflict(_))));
    // Payer and task cannot share one name.
    let r = run(&mut q, "pay Same Same 3.00");
    assert!(matches!(r, Err(ref es) if matches!(es[0], LedgerError::NameConflict(_))));
}

#[test]
fn print_reports_each_shape() {
    let mut p = Payment::new();
    ok(&mut p, "add Alice Bob");
    ok(&mut p, "pay Alice Dinner 30.00");
    ok(&mut p, "part Dinner Bob");
    match run(&mut p, "print").unwrap() {
        Reply::Balances(lines) => {
            assert_eq!(lines.len(), 2);
            let alice: &BalanceLine = &lines[0];
            assert_eq!(alice.name, "Alice");
            assert_eq!(alice.balance, Some(-1500));
        },
        other => panic!("expected balances, got {:?}", reply_kind(&other)),
    }
    match run(&mut p, "print -a").unwrap() {
        Reply::Participants(reps) => {
            assert_eq!(reps.len(), 2);
            assert_eq!(reps[0].name, "Alice");
            assert_eq!(reps[0].shares.len(), 1);
            assert_eq!(reps[0].shares[0].cost, 3000);
            assert_eq!(reps[0].shares[0].member_count, 2);
            assert_eq!(reps[0].shares[0].share, 1500);
            assert_eq!(reps[0].paid.len(), 1);
        },
        other => panic!("expected participants, got {:?}", reply_kind(&other)),
    }
    match run(&mut p, "print -t").unwrap() {
        Reply::Tasks(reps) => {
            assert_eq!(reps.len(), 1);
            assert_eq!(reps[0].name, "Dinner");
            assert_eq!(reps[0].owner, "Alice");
            assert_eq!(reps[0].cost, 3000);
            assert_eq!(reps[0].members.len(), 2);
        },
        other => panic!("expected tasks, got {:?}", reply_kind(&other)),
    }
    match run(&mut p, "print Bob").unwrap() {
        Reply::Participants(reps) => {
            assert_eq!(reps.len(), 1);
            assert_eq!(reps[0].name, "Bob");
            assert_eq!(reps[0].balance, Some(1500));
        },
        other => panic!("expected one participant, got {:?}", reply_kind(&other)),
    }
}

fn reply_kind(r: &Reply) -> &'static str {
    match r {
        Reply::Done => "done",
        Reply::Balances(_) => "balances",
        Reply::Participants(_) => "participants",
        Reply::Tasks(_) => "tasks",
        Reply::SaveTo(_, _) => "save",
        Reply::LoadFrom(_) => "load",
    }
}

#[test]
fn snapshot_round_trip_restores_the_store() {
    let mut p = Payment::new();
    ok(&mut p, "add Alice Bob");
    ok(&mut p, "pay Alice Dinner 30.00");
    ok(&mut p, "part Dinner Bob");
    ok(&mut p, "payment Bob Alice 7.50");
    let snap = p.to_snapshot();
    let mut q = Payment::new();
    assert!(q.install_snapshot(snap).is_ok());
    assert_eq!(balance(&q, "Alice"), balance(&p, "Alice"));
    assert_eq!(balance(&q, "Bob"), balance(&p, "Bob"));
    assert_eq!(q.participants.len(), p.participants.len());
    assert_eq!(q.tasks.len(), p.tasks.len());
    assert_eq!(q.tasks[0].name, "Dinner");
}

#[test]
fn corrupt_snapshot_is_rejected_and_state_kept() {
    let mut p = Payment::new();
    ok(&mut p, "add Alice");
    // A participant claiming a task that does not exist.
    let bad = Payment {
        participants: vec![Participant {
            name: String::from("Ghost"),
            tasks: vec![String::from("Nowhere")],
            paid_tasks: vec![],
            payments_made: vec![],
        }],
        tasks: vec![],
    };
    let r = p.install_snapshot(bad);
    assert!(matches!(r, Err(LedgerError::CorruptSnapshot)));
    assert!(p.find_participant("Alice").is_some());
    // A negative cost is also structural corruption.
    let bad2 = Payment {
        participants: vec![Participant {
            name: String::from("A"),
            tasks: vec![String::from("T")],
            paid_tasks: vec![String::from("T")],
            payments_made: vec![],
        }],
        tasks: vec![Task {
            name: String::from("T"),
            owner: String::from("A"),
            participants: vec![String::from("A")],
            cost: -5,
        }],
    };
    assert!(matches!(p.install_snapshot(bad2), Err(LedgerError::CorruptSnapshot)));
    assert!(p.check_wf());
}

#[test]
fn save_and_load_commands_hand_out_the_actions() {
    let mut p = Payment::new();
    ok(&mut p, "add Alice");
    match run(&mut p, "save ledger.json").unwrap() {
        Reply::SaveTo(Some(path), snap) => {
            assert_eq!(path, "ledger.json");
            assert_eq!(snap.participants.len(), 1);
        },
        other => panic!("expected a save action, got {:?}", reply_kind(&other)),
    }
    match run(&mut p, "save").unwrap() {
        Reply::SaveTo(None, _) => {},
        other => panic!("expected a console save, got {:?}", reply_kind(&other)),
    }
    match run(&mut p, "load ledger.json").unwrap() {
        Reply::LoadFrom(path) => assert_eq!(path, "ledger.json"),
        other => panic!("expected a load action, got {:?}", reply_kind(&other)),
    }
}

#[test]
fn transfer_to_oneself_changes_nothing() {
    let mut p = Payment::new();
    ok(&mut p, "add Alice");
    ok(&mut p, "payment Alice Alice 5.00");
    assert_eq!(balance(&p, "Alice"), 0);
    assert_eq!(p.participants[0].payments_made, vec![500, -500]);
}

#[test]
fn task_shares_cover_the_cost() {
    // Three members of a 10.01 task: the exact shares sum to the cost,
    // so after rounding each balance individually the total drifts by
    // less than one minor unit per participant.
    let mut p = Payment::new();
    ok(&mut p, "add A B C");
    ok(&mut p, "pay A T 10.01");
    ok(&mut p, "part T B C");
    assert_eq!(balance(&p, "B"), 334);
    assert_eq!(balance(&p, "C"), 334);
    assert_eq!(balance(&p, "A"), 334 - 1001);
    let total = balance(&p, "A") + balance(&p, "B") + balance(&p, "C");
    assert!(total.abs() <= 1, "rounding drift {} exceeds one minor unit", total);
    // An even split is exact.
    let mut q = Payment::new();
    ok(&mut q, "add A B");
    ok(&mut q, "pay A T 10.00");
    ok(&mut q, "part T B");
    assert_eq!(balance(&q, "A") + balance(&q, "B"), 0);
}
