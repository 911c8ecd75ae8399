use paxos::messages::{Ballot, Command, CommandSet, Op, Proposal, Pvalue, PvalueSet, Replica};
use paxos::sorted_set::{Ordered, SortedSet};
use std::cmp::Ordering;

fn ballots() -> Vec<Ballot> {
    vec![
        Ballot::Bot,
        Ballot::N(0, 0),
        Ballot::N(0, 3),
        Ballot::N(1, 0),
        Ballot::N(1, 2),
        Ballot::N(255, 255),
    ]
}

#[test]
fn ballot_make_is_round_zero() {
    assert_eq!(Ballot::make(4), Ballot::N(0, 4));
    assert!(Ballot::make(0) > Ballot::Bot);
}

#[test]
fn ballot_incr_moves_to_the_next_round() {
    let b = Ballot::N(3, 1);
    assert_eq!(b.incr(&7), Ballot::N(4, 7));
    assert!(b.incr(&0) > b);
}

#[test]
fn ballot_partial_cmp_agrees_with_cmp() {
    for a in ballots() {
        for b in ballots() {
            assert_eq!(a.partial_cmp(&b), Some(a.cmp(&b)));
        }
    }
    assert!(Ballot::Bot < Ballot::N(0, 0));
    assert!(Ballot::N(0, 9) < Ballot::N(1, 0));
    assert!(Ballot::N(2, 1) < Ballot::N(2, 3));
    assert_eq!(Ballot::N(2, 3).partial_cmp(&Ballot::N(2, 3)), Some(Ordering::Equal));
}

#[test]
fn command_make_has_client_zero() {
    let c = Command::make(-3);
    assert_eq!(c.client_id(), 0);
    assert_eq!(c.command_id(), 0);
    assert_eq!(c.o, Op::Step(-3));
}

#[test]
fn replica_request_wraps_a_command() {
    match Replica::request(2) {
        Replica::Request(c) => assert_eq!(c, Command::make(2)),
        Replica::Decision(_) => panic!("expected a request"),
    }
}

#[test]
fn command_before_agrees_with_ord() {
    let cs: Vec<Command> = vec![-128i8, -1, 0, 1, 5, 127].into_iter().map(Command::make).collect();
    for a in cs.iter() {
        for b in cs.iter() {
            assert_eq!(a.before(b), a < b);
        }
    }
}

#[test]
fn pvalue_before_agrees_with_ord() {
    let mut ps = Vec::new();
    for b in ballots() {
        for s in [0u8, 1, 7].iter() {
            for i in [-2i8, 0, 3].iter() {
                ps.push(Pvalue { b, s: *s, c: Command::make(*i) });
            }
        }
    }
    for a in ps.iter() {
        for b in ps.iter() {
            assert_eq!(a.before(b), a < b);
        }
    }
}

#[test]
fn sorted_set_lists_in_order_without_duplicates() {
    let mut s: CommandSet = SortedSet::new();
    assert!(s.is_empty());
    assert!(s.insert(Command::make(5)));
    assert!(s.insert(Command::make(-2)));
    assert!(s.insert(Command::make(9)));
    assert!(!s.insert(Command::make(5)));
    assert_eq!(s.len(), 3);
    assert_eq!(s.get(0), Command::make(-2));
    assert_eq!(s.get(1), Command::make(5));
    assert_eq!(s.get(2), Command::make(9));
    assert_eq!(s.first(), Some(Command::make(-2)));
    assert!(s.contains(&Command::make(9)));
    assert!(!s.contains(&Command::make(0)));
}

#[test]
fn sorted_set_remove_and_copy() {
    let mut s: PvalueSet = SortedSet::new();
    let p1 = Pvalue { b: Ballot::N(1, 0), s: 2, c: Command::make(1) };
    let p2 = Pvalue { b: Ballot::N(0, 0), s: 3, c: Command::make(1) };
    s.insert(p1);
    s.insert(p2);
    let c = s.copy();
    assert!(s.remove(&p2));
    assert!(!s.remove(&p2));
    assert_eq!(s.len(), 1);
    assert_eq!(s.first(), Some(p1));
    assert_eq!(c.len(), 2);
    assert_eq!(c.get(0), p2);
    assert_eq!(c.get(1), p1);
    let mut e: PvalueSet = SortedSet::new();
    assert!(e.first().is_none());
    assert!(!e.remove(&p1));
}

#[test]
fn proposal_fields() {
    let p = Proposal { s: 4, c: Command::make(1) };
    assert_eq!(p.s, 4);
    assert_eq!(p.c, Command::make(1));
}
