use paxos::acceptor::{AcceptorReply, AcceptorState};
use paxos::leader::{commanders_for, max, update, CommanderAction, CommanderState, LeaderAction, LeaderState, ScoutAction, ScoutState};
use paxos::messages::{Acceptor, Ballot, Command, Commander, Leader, Proposal, Pvalue, PvalueSet, Replica, Scout};
use paxos::replica::{perform, propose, ReplicaState, WINDOW};
use paxos::sorted_set::SortedSet;
use std::collections::{BTreeMap, BTreeSet};
use std::sync::mpsc;

fn aids(n: u8) -> BTreeSet<u8> {
    (0..n).collect()
}

fn pset(ps: &[Pvalue]) -> PvalueSet {
    let mut s = SortedSet::new();
    for p in ps {
        s.insert(*p);
    }
    s
}

#[test]
fn acceptor_promises_higher_ballots_only() {
    let mut a = AcceptorState::new(2);
    let (tx, rx) = mpsc::channel();
    match a.step(Acceptor::P1A(tx.clone(), Ballot::N(1, 0))) {
        AcceptorReply::ToScout(t, m) => t.send(m).unwrap(),
        _ => panic!("expected an answer to the scout"),
    }
    let Scout::P1B(id, b, vs) = rx.recv().unwrap();
    assert_eq!((id, b, vs.len()), (2, Ballot::N(1, 0), 0));
    // A lower ballot does not lower the promise.
    match a.step(Acceptor::P1A(tx, Ballot::N(0, 5))) {
        AcceptorReply::ToScout(_, Scout::P1B(_, b, _)) => assert_eq!(b, Ballot::N(1, 0)),
        _ => panic!("expected an answer to the scout"),
    }
    assert_eq!(a.ballot_num, Ballot::N(1, 0));
}

#[test]
fn acceptor_accepts_only_in_the_promised_ballot() {
    let mut a = AcceptorState::new(0);
    let (stx, _srx) = mpsc::channel();
    let (ctx, _crx) = mpsc::channel();
    a.step(Acceptor::P1A(stx, Ballot::N(2, 1)));
    let good = Pvalue { b: Ballot::N(2, 1), s: 1, c: Command::make(7) };
    let stale = Pvalue { b: Ballot::N(1, 1), s: 2, c: Command::make(8) };
    match a.step(Acceptor::P2A(ctx.clone(), good)) {
        AcceptorReply::ToCommander(_, Commander::P2B(id, b)) => assert_eq!((id, b), (0, Ballot::N(2, 1))),
        _ => panic!("expected an answer to the commander"),
    }
    a.step(Acceptor::P2A(ctx, stale));
    assert_eq!(a.accepted.len(), 1);
    assert!(a.accepted.contains(&good));
    assert!(matches!(a.step(Acceptor::Test), AcceptorReply::Silent));
}

#[test]
fn commander_decides_once_enough_accept() {
    let pval = Pvalue { b: Ballot::N(0, 1), s: 3, c: Command::make(4) };
    let mut c = CommanderState::new(aids(3), pval);
    assert_eq!(c.len, 3);
    // len / 2 == 1: decide once fewer than one acceptor is awaited.
    assert!(matches!(c.step(Commander::P2B(0, Ballot::N(0, 1))), CommanderAction::Wait));
    assert!(matches!(c.step(Commander::P2B(1, Ballot::N(0, 1))), CommanderAction::Wait));
    match c.step(Commander::P2B(2, Ballot::N(0, 1))) {
        CommanderAction::ToReplicas(Replica::Decision(p)) => assert_eq!(p, Proposal { s: 3, c: Command::make(4) }),
        _ => panic!("expected a decision"),
    }
}

#[test]
fn commander_is_preempted_by_another_ballot() {
    let pval = Pvalue { b: Ballot::N(0, 1), s: 3, c: Command::make(4) };
    let mut c = CommanderState::new(aids(3), pval);
    match c.step(Commander::P2B(0, Ballot::N(5, 0))) {
        CommanderAction::ToLeader(Leader::Preempted(b)) => assert_eq!(b, Ballot::N(5, 0)),
        _ => panic!("expected a preemption"),
    }
    assert_eq!(c.waitfor.len(), 3);
}

#[test]
fn scout_adopts_once_enough_promise() {
    let b = Ballot::N(1, 2);
    let mut s = ScoutState::new(aids(4), b);
    let vs = pset(&[Pvalue { b: Ballot::N(0, 0), s: 1, c: Command::make(1) }]);
    assert!(matches!(s.step(Scout::P1B(0, b, vs)), ScoutAction::Wait));
    assert!(matches!(s.step(Scout::P1B(1, b, SortedSet::new())), ScoutAction::Wait));
    assert!(matches!(s.step(Scout::P1B(1, b, SortedSet::new())), ScoutAction::Wait));
    match s.step(Scout::P1B(2, b, SortedSet::new())) {
        ScoutAction::ToLeader(Leader::Adopted(ab, pv)) => {
            assert_eq!(ab, b);
            // The pvalues reported by the acceptors are not collected.
            assert_eq!(pv.len(), 0);
        },
        _ => panic!("expected an adoption"),
    }
}

#[test]
fn scout_is_preempted_with_its_own_ballot() {
    let b = Ballot::N(1, 2);
    let mut s = ScoutState::new(aids(3), b);
    match s.step(Scout::P1B(0, Ballot::N(4, 0), SortedSet::new())) {
        ScoutAction::ToLeader(Leader::Preempted(pb)) => assert_eq!(pb, b),
        _ => panic!("expected a preemption"),
    }
}

#[test]
fn max_keeps_the_highest_ballot_per_slot() {
    let ps = pset(&[
        Pvalue { b: Ballot::N(0, 0), s: 1, c: Command::make(10) },
        Pvalue { b: Ballot::N(2, 0), s: 1, c: Command::make(20) },
        Pvalue { b: Ballot::N(1, 5), s: 1, c: Command::make(30) },
        Pvalue { b: Ballot::N(1, 0), s: 4, c: Command::make(5) },
        Pvalue { b: Ballot::N(1, 0), s: 4, c: Command::make(-5) },
    ]);
    let m = max(ps);
    assert_eq!(m.len(), 2);
    assert_eq!(m.get(&1), Some(&Command::make(20)));
    // Among equal ballots the first command in order is kept.
    assert_eq!(m.get(&4), Some(&Command::make(-5)));
    assert!(max(SortedSet::new()).is_empty());
}

#[test]
fn update_overwrites_with_the_new_entries() {
    let mut cur = BTreeMap::new();
    cur.insert(1u8, Command::make(1));
    cur.insert(2u8, Command::make(2));
    let mut new = BTreeMap::new();
    new.insert(2u8, Command::make(20));
    new.insert(3u8, Command::make(30));
    update(&mut cur, new);
    assert_eq!(cur.len(), 3);
    assert_eq!(cur[&1], Command::make(1));
    assert_eq!(cur[&2], Command::make(20));
    assert_eq!(cur[&3], Command::make(30));
}

#[test]
fn commanders_for_lists_by_slot() {
    let mut ps = BTreeMap::new();
    ps.insert(9u8, Command::make(9));
    ps.insert(2u8, Command::make(2));
    let v = commanders_for(&ps, Ballot::N(1, 1));
    assert_eq!(
        v,
        vec![
            Pvalue { b: Ballot::N(1, 1), s: 2, c: Command::make(2) },
            Pvalue { b: Ballot::N(1, 1), s: 9, c: Command::make(9) },
        ]
    );
}

#[test]
fn leader_records_proposals_and_commands_when_active() {
    let mut l = LeaderState::new(1);
    assert_eq!(l.ballot_num, Ballot::N(0, 1));
    assert!(matches!(l.step(Leader::Propose(Proposal { s: 1, c: Command::make(3) })), LeaderAction::Nothing));
    assert_eq!(l.proposals.get(&1), Some(&Command::make(3)));
    // A second proposal for the same slot is ignored.
    assert!(matches!(l.step(Leader::Propose(Proposal { s: 1, c: Command::make(4) })), LeaderAction::Nothing));
    assert_eq!(l.proposals.get(&1), Some(&Command::make(3)));
    let adopted = pset(&[Pvalue { b: Ballot::N(0, 0), s: 2, c: Command::make(6) }]);
    match l.step(Leader::Adopted(Ballot::N(0, 1), adopted)) {
        LeaderAction::SpawnCommanders(v) => assert_eq!(
            v,
            vec![
                Pvalue { b: Ballot::N(0, 1), s: 1, c: Command::make(3) },
                Pvalue { b: Ballot::N(0, 1), s: 2, c: Command::make(6) },
            ]
        ),
        _ => panic!("expected commanders"),
    }
    assert!(l.active);
    match l.step(Leader::Propose(Proposal { s: 5, c: Command::make(8) })) {
        LeaderAction::SpawnCommanders(v) => assert_eq!(v, vec![Pvalue { b: Ballot::N(0, 1), s: 5, c: Command::make(8) }]),
        _ => panic!("expected a commander"),
    }
}

#[test]
fn leader_preempted_by_a_later_ballot_moves_on() {
    let mut l = LeaderState::new(1);
    l.active = true;
    assert!(matches!(l.step(Leader::Preempted(Ballot::N(0, 0))), LeaderAction::Nothing));
    assert!(l.active);
    match l.step(Leader::Preempted(Ballot::N(3, 2))) {
        LeaderAction::SpawnScout(b) => assert_eq!(b, Ballot::N(4, 1)),
        _ => panic!("expected a scout"),
    }
    assert!(!l.active);
    assert_eq!(l.ballot_num, Ballot::N(4, 1));
}

#[test]
fn propose_fills_free_slots_in_order() {
    let mut req = SortedSet::new();
    for i in [5i8, 1, 3].iter() {
        req.insert(Command::make(*i));
    }
    let mut proposals = BTreeMap::new();
    let mut decisions = BTreeMap::new();
    decisions.insert(2u8, Command::make(0));
    let slot_out = 1u8;
    let mut slot_in = 1u8;
    let sent = propose(&mut req, &mut proposals, &decisions, &slot_out, &mut slot_in);
    assert_eq!(
        sent,
        vec![
            Proposal { s: 1, c: Command::make(1) },
            Proposal { s: 3, c: Command::make(3) },
            Proposal { s: 4, c: Command::make(5) },
        ]
    );
    assert_eq!(slot_in, 5);
    assert!(req.is_empty());
    assert_eq!(proposals.len(), 3);
}

#[test]
fn propose_stops_at_the_window() {
    let mut req = SortedSet::new();
    for i in 0..10i8 {
        req.insert(Command::make(i));
    }
    let mut proposals = BTreeMap::new();
    let decisions = BTreeMap::new();
    let mut slot_in = 1u8;
    let sent = propose(&mut req, &mut proposals, &decisions, &1u8, &mut slot_in);
    assert_eq!(sent.len(), WINDOW as usize);
    assert_eq!(slot_in, 1 + WINDOW);
    assert_eq!(req.len(), 10 - WINDOW as usize);
}

#[test]
fn replica_requests_are_proposed() {
    let mut r = ReplicaState::new(0);
    let sent = r.step(Replica::request(3));
    assert_eq!(sent, vec![Proposal { s: 1, c: Command::make(3) }]);
    assert_eq!(r.slot_in, 2);
    assert!(r.req.is_empty());
    // The same command requested again is proposed for the next slot.
    let sent = r.step(Replica::request(3));
    assert_eq!(sent, vec![Proposal { s: 2, c: Command::make(3) }]);
}

#[test]
fn replica_takes_back_a_proposal_that_lost_its_slot() {
    let mut r = ReplicaState::new(0);
    r.step(Replica::request(3));
    let sent = r.step(Replica::Decision(Proposal { s: 1, c: Command::make(9) }));
    assert_eq!(r.decisions.get(&1), Some(&Command::make(9)));
    // Our command 3 lost slot 1, so it is proposed again for the next slot.
    assert_eq!(sent, vec![Proposal { s: 2, c: Command::make(3) }]);
    assert_eq!(r.slot_out, 1);
    perform();
}
