use paxos::acceptor::{AcceptorReply, AcceptorState};
use paxos::avl::{insert, search, AvlTree, Path};
use paxos::leader::{CommanderAction, CommanderState, LeaderAction, LeaderState, ScoutAction, ScoutState};
use paxos::messages::{Acceptor, Ballot, Command, Commander, Leader, Proposal, Pvalue, PvalueSet, Replica, Scout};
use paxos::replica::{ReplicaState, WINDOW};
use paxos::sorted_set::SortedSet;
use std::collections::BTreeSet;
use std::sync::mpsc;

#[test]
fn acceptor_answers_never_go_back() {
    let mut a = AcceptorState::new(1);
    let (stx, _srx) = mpsc::channel::<Scout>();
    let (ctx, _crx) = mpsc::channel::<Commander>();
    let msgs = vec![
        Acceptor::P1A(stx.clone(), Ballot::N(2, 0)),
        Acceptor::P2A(ctx.clone(), Pvalue { b: Ballot::N(2, 0), s: 1, c: Command::make(1) }),
        Acceptor::P1A(stx.clone(), Ballot::N(1, 5)),
        Acceptor::P2A(ctx.clone(), Pvalue { b: Ballot::N(1, 5), s: 2, c: Command::make(2) }),
        Acceptor::Test,
        Acceptor::P1A(stx.clone(), Ballot::N(3, 1)),
    ];
    let mut last = Ballot::Bot;
    for m in msgs {
        let reply = a.step(m);
        let b = match &reply {
            AcceptorReply::ToScout(_, Scout::P1B(_, b, vs)) => {
                for i in 0..vs.len() {
                    assert!(vs.get(i).b <= *b);
                }
                Some(*b)
            }
            AcceptorReply::ToCommander(_, Commander::P2B(_, b)) => Some(*b),
            AcceptorReply::Silent => None,
        };
        if let Some(b) = b {
            assert!(last <= b);
            last = b;
        }
    }
    assert_eq!(last, Ballot::N(3, 1));
    assert_eq!(a.accepted.len(), 1);
}

#[test]
fn leader_scouts_grow_and_stay_its_own() {
    let mut l = LeaderState::new(2);
    let mut scouts = vec![l.ballot_num];
    for b in [Ballot::N(1, 0), Ballot::N(0, 9), Ballot::N(4, 1), Ballot::N(3, 3)].iter() {
        if let LeaderAction::SpawnScout(nb) = l.step(Leader::Preempted(*b)) {
            scouts.push(nb);
        }
    }
    assert_eq!(scouts, vec![Ballot::N(0, 2), Ballot::N(2, 2), Ballot::N(5, 2)]);
    for w in scouts.windows(2) {
        assert!(w[0] < w[1]);
    }
    match l.step(Leader::Adopted(Ballot::N(5, 2), SortedSet::new())) {
        LeaderAction::SpawnCommanders(v) => assert!(v.is_empty()),
        _ => panic!("expected commanders"),
    }
    match l.step(Leader::Propose(Proposal { s: 1, c: Command::make(1) })) {
        LeaderAction::SpawnCommanders(v) => assert_eq!(v[0].b, Ballot::N(5, 2)),
        _ => panic!("expected a commander"),
    }
}

#[test]
fn commander_decides_with_a_strict_majority() {
    let aids: BTreeSet<u8> = (0..5).collect();
    let pval = Pvalue { b: Ballot::N(1, 1), s: 2, c: Command::make(3) };
    let mut c = CommanderState::new(aids, pval);
    let mut answered = 0;
    for id in 0..5u8 {
        answered += 1;
        match c.step(Commander::P2B(id, pval.b)) {
            CommanderAction::Wait => assert!(2 * answered <= 5 || c.waitfor.len() >= 5 / 2),
            CommanderAction::ToReplicas(_) => {
                assert!(2 * (5 - c.waitfor.len()) > 5);
                assert_eq!(answered, 4);
                return;
            }
            CommanderAction::ToLeader(_) => panic!("not preempted"),
        }
    }
    panic!("expected a decision");
}

#[test]
fn scout_adopts_with_a_strict_majority_and_reported_values_only() {
    let aids: BTreeSet<u8> = (0..3).collect();
    let b = Ballot::N(0, 0);
    let mut s = ScoutState::new(aids, b);
    let mut vs: PvalueSet = SortedSet::new();
    vs.insert(Pvalue { b: Ballot::Bot, s: 1, c: Command::make(1) });
    assert!(matches!(s.step(Scout::P1B(0, b, vs)), ScoutAction::Wait));
    assert!(matches!(s.step(Scout::P1B(1, b, SortedSet::new())), ScoutAction::Wait));
    match s.step(Scout::P1B(2, b, SortedSet::new())) {
        ScoutAction::ToLeader(Leader::Adopted(ab, pv)) => {
            assert_eq!(ab, b);
            assert!(2 * (3 - s.waitfor.len()) > 3);
            assert!(pv.is_empty());
        }
        _ => panic!("expected an adoption"),
    }
}

#[test]
fn replica_run_never_repeats_a_slot() {
    let mut r = ReplicaState::new(0);
    let msgs = vec![
        Replica::request(1),
        Replica::request(2),
        Replica::Decision(Proposal { s: 3, c: Command::make(9) }),
        Replica::request(3),
        Replica::Decision(Proposal { s: 1, c: Command::make(7) }),
        Replica::request(4),
        Replica::request(5),
        Replica::request(6),
    ];
    let mut seen: Vec<u8> = Vec::new();
    let mut requested: Vec<Command> = Vec::new();
    let mut decided: Vec<u8> = Vec::new();
    for m in msgs {
        match &m {
            Replica::Request(c) => requested.push(*c),
            Replica::Decision(p) => decided.push(p.s),
        }
        let sent = r.step(m);
        for p in sent {
            assert!(!seen.contains(&p.s));
            assert!(1 <= p.s && p.s < 1 + WINDOW);
            assert!(requested.contains(&p.c));
            assert!(!decided.contains(&p.s));
            seen.push(p.s);
        }
    }
    assert_eq!(seen, vec![1, 2, 4, 5]);
}

#[test]
fn propose_gives_least_requests_to_free_slots() {
    let mut r = ReplicaState::new(0);
    r.step(Replica::Decision(Proposal { s: 2, c: Command::make(0) }));
    for i in [9i8, -4, 6].iter() {
        r.req.insert(Command::make(*i));
    }
    let sent = r.step(Replica::request(1));
    assert_eq!(
        sent,
        vec![
            Proposal { s: 1, c: Command::make(-4) },
            Proposal { s: 3, c: Command::make(1) },
            Proposal { s: 4, c: Command::make(6) },
            Proposal { s: 5, c: Command::make(9) },
        ]
    );
    assert!(r.req.is_empty());
}

#[test]
fn inserting_distinct_keys_finds_each_and_the_last_as_a_leaf() {
    let pairs = [(40, 1), (10, 2), (70, 3), (25, 4), (55, 5), (5, 6)];
    let mut t: AvlTree<i32, i32> = None;
    for (k, v) in pairs.iter() {
        t = insert(*k, *v, t);
    }
    let last = 33;
    let t = insert(last, 7, t);
    let loc = search(&last, (t, Path::Top));
    {
        let n = loc.0.as_ref().unwrap();
        assert_eq!((n.key, n.v, n.balance), (last, 7, 0));
        assert!(n.left.is_none() && n.right.is_none());
    }
    let mut t = paxos::avl::zip(loc);
    for (k, v) in pairs.iter() {
        let loc = search(k, (t, Path::Top));
        assert_eq!(loc.0.as_ref().unwrap().key, *k);
        assert_eq!(loc.0.as_ref().unwrap().v, *v);
        t = paxos::avl::zip(loc);
    }
}

#[test]
fn commander_counts_each_acceptor_once() {
    let aids: BTreeSet<u8> = (0..5).collect();
    let pval = Pvalue { b: Ballot::N(2, 0), s: 1, c: Command::make(1) };
    let mut c = CommanderState::new(aids, pval);
    // 5 / 2 == 2: the decision comes once fewer than two are awaited,
    // that is after four distinct acceptors answered.
    for id in [0u8, 0, 1, 1, 2].iter() {
        assert!(matches!(c.step(Commander::P2B(*id, pval.b)), CommanderAction::Wait));
    }
    assert_eq!(c.waitfor.iter().copied().collect::<Vec<u8>>(), vec![3, 4]);
    assert!(matches!(c.step(Commander::P2B(3, pval.b)), CommanderAction::ToReplicas(_)));
}

#[test]
fn scout_counts_each_acceptor_once() {
    let aids: BTreeSet<u8> = (0..4).collect();
    let b = Ballot::N(0, 1);
    let mut s = ScoutState::new(aids, b);
    for id in [2u8, 2, 0].iter() {
        assert!(matches!(s.step(Scout::P1B(*id, b, SortedSet::new())), ScoutAction::Wait));
    }
    assert_eq!(s.waitfor.iter().copied().collect::<Vec<u8>>(), vec![1, 3]);
    assert!(matches!(s.step(Scout::P1B(3, b, SortedSet::new())), ScoutAction::ToLeader(Leader::Adopted(_, _))));
}
