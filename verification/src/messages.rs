use std::cmp::Ordering;
use vstd::prelude::*;
use vstd::std_specs::cmp::{OrdSpec, PartialOrdSpec};

use crate::sorted_set::{Ordered, SortedSet};

verus! {

/// Identifier of a leader.
pub type LeaderId = u8;

/// A ballot: either the bottom ballot, below every other one, or a round
/// number paired with the leader that owns it.
#[derive(PartialEq, Eq, Structural, Ord, Copy, Clone, Debug)]
pub enum Ballot {
    Bot,
    N(u8, LeaderId),
}

/// The strict order on ballots: `Bot` comes first, then ballots ordered by
/// round and, within a round, by leader.
pub open spec fn ballot_lt(a: Ballot, b: Ballot) -> bool {
    match (a, b) {
        (Ballot::Bot, Ballot::N(_, _)) => true,
        (Ballot::N(i, l), Ballot::N(j, m)) => i < j || (i == j && l < m),
        _ => false,
    }
}

impl PartialOrd for Ballot {
    fn partial_cmp(&self, other: &Ballot) -> (r: Option<Ordering>) {
        match (self, other) {
            (Ballot::Bot, Ballot::Bot) => Some(Ordering::Equal),
            (Ballot::Bot, Ballot::N(_, _)) => Some(Ordering::Less),
            (Ballot::N(_, _), Ballot::Bot) => Some(Ordering::Greater),
            (Ballot::N(i, l), Ballot::N(j, m)) => {
                if *i < *j {
                    Some(Ordering::Less)
                } else if *i > *j {
                    Some(Ordering::Greater)
                } else if *l < *m {
                    Some(Ordering::Less)
                } else if *l > *m {
                    Some(Ordering::Greater)
                } else {
                    Some(Ordering::Equal)
                }
            },
        }
    }
}

impl vstd::std_specs::cmp::PartialOrdSpecImpl for Ballot {
    open spec fn obeys_partial_cmp_spec() -> bool {
        true
    }

    open spec fn partial_cmp_spec(&self, other: &Ballot) -> Option<Ordering> {
        if *self == *other {
            Some(Ordering::Equal)
        } else if ballot_lt(*self, *other) {
            Some(Ordering::Less)
        } else {
            Some(Ordering::Greater)
        }
    }
}

impl Ballot {
    /// The first ballot of leader `id`.
    pub fn make(id: u8) -> (b: Ballot)
        ensures
            b == Ballot::N(0, id),
    {
        Ballot::N(0, id)
    }

    /// The ballot of the next round, owned by leader `id`.
    pub fn incr(&self, id: &u8) -> (b: Ballot)
        requires
            self matches Ballot::N(i, _) && i < u8::MAX,
        ensures
            b == Ballot::N((self->0 + 1) as u8, *id),
    {
        match self {
            Ballot::N(i, _) => Ballot::N(*i + 1, *id),
            Ballot::Bot => {
                proof {
                    assert(false);
                }
                Ballot::Bot
            },
        }
    }
}


/// A ballot comes before another one: the order `partial_cmp` decides.
pub open spec fn ballot_le(a: Ballot, b: Ballot) -> bool {
    a == b || ballot_lt(a, b)
}

/// The order on ballots is a strict total order.
pub proof fn lemma_ballot_order(a: Ballot, b: Ballot, c: Ballot)
    ensures
        !ballot_lt(a, a),
        ballot_lt(a, b) && ballot_lt(b, c) ==> ballot_lt(a, c),
        ballot_lt(a, b) || a == b || ballot_lt(b, a),
{
}

/// Comparing ballots gives what std's derived order gives: `Bot` comes
/// before every other ballot, and two others compare as std compares the
/// pairs (round, leader): by round, and within a round by leader.
pub proof fn lemma_ballot_cmp_lexicographic(i: u8, l: u8, j: u8, m: u8)
    ensures
        Ballot::N(i, l).partial_cmp_spec(&Ballot::N(j, m)) == Some((i, l).cmp_spec(&(j, m))),
        Ballot::Bot.partial_cmp_spec(&Ballot::N(j, m)) == Some(Ordering::Less),
        Ballot::N(i, l).partial_cmp_spec(&Ballot::Bot) == Some(Ordering::Greater),
        Ballot::Bot.partial_cmp_spec(&Ballot::Bot) == Some(Ordering::Equal),
        ballot_lt(Ballot::N(i, l), Ballot::N(j, m)) <==> (i < j || (i == j && l < m)),
        i == j ==> (ballot_lt(Ballot::N(i, l), Ballot::N(j, m)) <==> l < m),
{
}

/// Every ballot of a leader comes after the bottom ballot, and the ballot of
/// the next round comes after the ballot it is made from, whoever owns it.
pub proof fn lemma_ballot_progress(b: Ballot, id: u8)
    ensures
        ballot_lt(Ballot::Bot, Ballot::N(0, id)),
        b matches Ballot::N(i, _) && i < u8::MAX ==> ballot_lt(b, Ballot::N((b->0 + 1) as u8, id)),
{
}

/// Identifier of a client.
pub type ClientId = u8;

/// Identifier of a command of a client.
pub type CommandId = u8;

/// A slot of the replicated log.
pub type Slot = u8;

/// Identifier of an acceptor.
pub type AcceptorId = u8;

/// An operation on the replicated state.
#[derive(Copy, Clone, PartialEq, Eq, Structural, PartialOrd, Ord, Debug)]
pub enum Op {
    Step(i8),
}

/// The amount that an operation steps by.
pub open spec fn op_step(o: Op) -> int {
    match o {
        Op::Step(i) => i as int,
    }
}

/// A client's command.
#[derive(Copy, Clone, PartialEq, Eq, Structural, PartialOrd, Ord, Debug)]
pub struct Command {
    k: ClientId,
    c: CommandId,
    pub o: Op,
}

impl Command {
    /// The client that issued the command.
    pub closed spec fn client(self) -> ClientId {
        self.k
    }

    /// The client's number for the command.
    pub closed spec fn number(self) -> CommandId {
        self.c
    }

    /// The operation of the command.
    pub closed spec fn op(self) -> Op {
        self.o
    }

    /// The command of client 0, numbered 0, that steps by `i`.
    pub fn make(i: i8) -> (r: Command)
        ensures
            r.client() == 0,
            r.number() == 0,
            r.op() == Op::Step(i),
    {
        Command { k: 0, c: 0, o: Op::Step(i) }
    }

    /// The client that issued the command.
    pub fn client_id(&self) -> (r: ClientId)
        ensures
            r == self.client(),
    {
        self.k
    }

    /// The client's number for the command.
    pub fn command_id(&self) -> (r: CommandId)
        ensures
            r == self.number(),
    {
        self.c
    }
}

/// The step of an operation.
pub open spec fn op_amount(o: Op) -> i8 {
    match o {
        Op::Step(i) => i,
    }
}

/// The order on commands is std's order on the triples (client, number,
/// step), the order that their derived `Ord` gives.
pub proof fn lemma_command_order(a: Command, b: Command)
    ensures
        command_lt(a, b) <==> (a.client(), a.number(), op_amount(a.op())).cmp_spec(
            &(b.client(), b.number(), op_amount(b.op())),
        ) == Ordering::Less,
        a == b <==> (a.client(), a.number(), op_amount(a.op())) == (b.client(), b.number(), op_amount(b.op())),
{
    lemma_command_eq(a, b);
}

/// Commands are ordered by client, then number, then step: the order of
/// their derived `Ord`.
pub open spec fn command_lt(a: Command, b: Command) -> bool {
    ||| a.client() < b.client()
    ||| a.client() == b.client() && a.number() < b.number()
    ||| a.client() == b.client() && a.number() == b.number() && op_step(a.op()) < op_step(b.op())
}

proof fn lemma_command_eq(a: Command, b: Command)
    ensures
        a.client() == b.client() && a.number() == b.number() && op_step(a.op()) == op_step(b.op()) ==> a == b,
{
}

impl Ordered for Command {
    open spec fn precedes(self, other: Command) -> bool {
        command_lt(self, other)
    }

    proof fn lemma_strict_total_order(a: Command, b: Command, c: Command) {
        lemma_command_eq(a, b);
    }

    fn before(&self, other: &Command) -> (r: bool) {
        let Op::Step(x) = self.o;
        let Op::Step(y) = other.o;
        self.k < other.k || (self.k == other.k && self.c < other.c) || (self.k == other.k && self.c
            == other.c && x < y)
    }
}

/// A command proposed for a slot.
#[derive(Copy, Clone, PartialEq, Eq, Structural, PartialOrd, Ord, Debug)]
pub struct Proposal {
    pub s: u8,
    pub c: Command,
}

/// A proposal together with the ballot it was made in.
#[derive(Copy, Clone, PartialEq, Eq, Structural, PartialOrd, Ord, Debug)]
pub struct Pvalue {
    pub b: Ballot,
    pub s: Slot,
    pub c: Command,
}

/// Pvalues are ordered by ballot, then slot, then command: the order of
/// their derived `Ord`.
pub open spec fn pvalue_lt(a: Pvalue, b: Pvalue) -> bool {
    ||| ballot_lt(a.b, b.b)
    ||| a.b == b.b && a.s < b.s
    ||| a.b == b.b && a.s == b.s && command_lt(a.c, b.c)
}

impl Ordered for Pvalue {
    open spec fn precedes(self, other: Pvalue) -> bool {
        pvalue_lt(self, other)
    }

    proof fn lemma_strict_total_order(a: Pvalue, b: Pvalue, c: Pvalue) {
        lemma_command_eq(a.c, b.c);
        lemma_command_eq(a.c, c.c);
        lemma_command_eq(b.c, c.c);
    }

    fn before(&self, other: &Pvalue) -> (r: bool) {
        if self.b < other.b {
            true
        } else if self.b == other.b {
            self.s < other.s || (self.s == other.s && self.c.before(&other.c))
        } else {
            false
        }
    }
}

/// A set of pvalues, listed in their order.
pub type PvalueSet = SortedSet<Pvalue>;

/// A set of commands, listed in their order.
pub type CommandSet = SortedSet<Command>;

/// Makes std's `std::sync::mpsc::Sender` known to the verifier as an opaque
/// type, so that the messages can carry the channel to answer on. Nothing is
/// claimed of what is inside a sender; it is only moved around.
#[verifier::external_type_specification]
#[verifier::external_body]
#[verifier::reject_recursive_types(T)]
pub struct ExSender<T>(std::sync::mpsc::Sender<T>);

/// Messages to a replica.
pub enum Replica {
    Request(Command),
    Decision(Proposal),
}

impl Replica {
    /// A request for the command of client 0, numbered 0, that steps by `i`.
    pub fn request(i: i8) -> (r: Replica)
        ensures
            r matches Replica::Request(c) && c.client() == 0 && c.number() == 0 && c.op() == Op::Step(i),
    {
        Replica::Request(Command::make(i))
    }
}

/// Messages to a leader.
pub enum Leader {
    Adopted(Ballot, PvalueSet),
    Preempted(Ballot),
    Propose(Proposal),
}

/// Messages to a commander.
pub enum Commander {
    P2B(AcceptorId, Ballot),
}

/// Messages to an acceptor; the first two carry the channel to answer on.
pub enum Acceptor {
    P1A(std::sync::mpsc::Sender<Scout>, Ballot),
    P2A(std::sync::mpsc::Sender<Commander>, Pvalue),
    Test,
}

/// Messages to a scout.
pub enum Scout {
    P1B(AcceptorId, Ballot, PvalueSet),
}

} // verus!
