use std::collections::BTreeMap;
use vstd::prelude::*;

use crate::messages::{command_lt, Command, CommandSet, Proposal, Replica, Slot};
use crate::sorted_set::{Ordered, SortedSet};

verus! {


/// How many slots past the first undecided one a replica may propose for.
pub const WINDOW: u8 = 5;

/// The first command of a set of commands in their order.
pub open spec fn least_command(req: Set<Command>) -> Command {
    choose|c: Command| req.contains(c) && forall|d: Command| #[trigger] req.contains(d) && d != c ==> command_lt(c, d)
}

/// What proposing does: starting at slot `slot_in` and while it is below
/// `bound` and requests remain, each slot without a decision gets the first
/// remaining request. Gives the remaining requests, the proposals, the next
/// slot to propose for, and the proposals made, in order.
pub open spec fn propose_run(
    req: Set<Command>,
    proposals: Map<Slot, Command>,
    decisions: Map<Slot, Command>,
    bound: int,
    slot_in: int,
) -> (Set<Command>, Map<Slot, Command>, int, Seq<Proposal>)
    decreases bound - slot_in,
{
    if slot_in < bound && req != Set::<Command>::empty() {
        if decisions.contains_key(slot_in as u8) {
            propose_run(req, proposals, decisions, bound, slot_in + 1)
        } else {
            let c = least_command(req);
            let r = propose_run(req.remove(c), proposals.insert(slot_in as u8, c), decisions, bound, slot_in + 1);
            (r.0, r.1, r.2, seq![Proposal { s: slot_in as u8, c }] + r.3)
        }
    } else {
        (req, proposals, slot_in, Seq::empty())
    }
}

/// A finite non-empty set of commands has a first command.
pub proof fn lemma_least_exists(req: Set<Command>)
    requires
        req.finite(),
        req != Set::<Command>::empty(),
    ensures
        req.contains(least_command(req)),
        forall|d: Command| #[trigger] req.contains(d) && d != least_command(req) ==> command_lt(least_command(req), d),
    decreases req.len(),
{
    let x = req.choose();
    assert(req.contains(x)) by {
        if !req.contains(x) {
            assert(req =~= Set::<Command>::empty());
        }
    }
    let rest = req.remove(x);
    if rest == Set::<Command>::empty() {
        assert forall|d: Command| #[trigger] req.contains(d) && d != x implies command_lt(x, d) by {
            assert(rest.contains(d));
        }
        lemma_least_command(req, x);
    } else {
        lemma_least_exists(rest);
        let y = least_command(rest);
        if command_lt(x, y) {
            assert forall|d: Command| #[trigger] req.contains(d) && d != x implies command_lt(x, d) by {
                if d != y {
                    assert(rest.contains(d));
                    Command::lemma_strict_total_order(x, y, d);
                }
            }
            lemma_least_command(req, x);
        } else {
            Command::lemma_strict_total_order(x, y, x);
            assert forall|d: Command| #[trigger] req.contains(d) && d != y implies command_lt(y, d) by {
                if d != x {
                    assert(rest.contains(d));
                }
            }
            lemma_least_command(req, y);
        }
    }
}

/// The least element that `first` reports is the one `least_command` names.
proof fn lemma_least_command(req: Set<Command>, x: Command)
    requires
        req.contains(x),
        forall|y: Command| #[trigger] req.contains(y) && y != x ==> command_lt(x, y),
    ensures
        least_command(req) == x,
{
    let c = least_command(req);
    assert(req.contains(c) && forall|d: Command| #[trigger] req.contains(d) && d != c ==> command_lt(c, d));
    if c != x {
        assert(command_lt(x, c));
        assert(command_lt(c, x));
        Command::lemma_strict_total_order(x, c, x);
    }
}

/// Proposing never moves backwards, proposes only for slots without a
/// decision between the start and the bound, records each proposal it makes,
/// and neither loses nor duplicates a request: the remaining requests and the
/// proposed commands together are the requests it started with.
pub proof fn lemma_propose_run(
    req: Set<Command>,
    proposals: Map<Slot, Command>,
    decisions: Map<Slot, Command>,
    bound: int,
    slot_in: int,
)
    requires
        req.finite(),
        0 <= slot_in,
        bound <= u8::MAX,
    ensures
        ({
            let r = propose_run(req, proposals, decisions, bound, slot_in);
            &&& slot_in <= r.2
            &&& r.0.subset_of(req)
            &&& forall|j: int| 0 <= j < r.3.len() ==> {
                &&& slot_in <= (#[trigger] r.3[j]).s < bound
                &&& !decisions.contains_key(r.3[j].s)
                &&& r.1.contains_key(r.3[j].s) && r.1[r.3[j].s] == r.3[j].c
                &&& req.contains(r.3[j].c) && !r.0.contains(r.3[j].c)
            }
            &&& forall|c: Command| #[trigger] req.contains(c) && !r.0.contains(c) ==> exists|j: int|
                0 <= j < r.3.len() && (#[trigger] r.3[j]).c == c
            &&& forall|s: Slot| #[trigger] proposals.contains_key(s) ==> r.1.contains_key(s)
            &&& forall|s: Slot| #[trigger] r.1.contains_key(s) && (s < slot_in || bound <= s || decisions.contains_key(s))
                ==> proposals.contains_key(s) && r.1[s] == proposals[s]
        }),
    decreases bound - slot_in,
{
    if slot_in < bound && req != Set::<Command>::empty() {
        if decisions.contains_key(slot_in as u8) {
            lemma_propose_run(req, proposals, decisions, bound, slot_in + 1);
        } else {
            let c = least_command(req);
            lemma_least_exists(req);
            let si = slot_in as u8;
            let p2 = proposals.insert(si, c);
            lemma_propose_run(req.remove(c), p2, decisions, bound, slot_in + 1);
            let r2 = propose_run(req.remove(c), p2, decisions, bound, slot_in + 1);
            let r = propose_run(req, proposals, decisions, bound, slot_in);
            assert(r.3 == seq![Proposal { s: si, c }] + r2.3);
            assert(p2.contains_key(si));
            assert(r2.1.contains_key(si));
            assert(r2.1[si] == c);
            assert forall|j: int| 1 <= j < r.3.len() implies #[trigger] r.3[j] == r2.3[j - 1] by {}
            assert forall|d: Command| #[trigger] req.contains(d) && !r.0.contains(d) implies exists|j: int|
                0 <= j < r.3.len() && (#[trigger] r.3[j]).c == d by {
                if d == c {
                    assert(r.3[0].c == d);
                } else {
                    assert(req.remove(c).contains(d));
                    let j2 = choose|j: int| 0 <= j < r2.3.len() && (#[trigger] r2.3[j]).c == d;
                    assert(r.3[j2 + 1] == r2.3[j2]);
                }
            }
            assert forall|s: Slot| #[trigger] proposals.contains_key(s) implies r.1.contains_key(s) by {
                assert(p2.contains_key(s));
            }
        }
    }
}


/// The direct form of proposing. The slots proposed for are exactly the slots
/// without a decision from the start up to the slot where proposing stopped,
/// in increasing order; their commands are the least requests, in increasing
/// order, and every request left over comes after each of them. Proposals
/// change only at the slots proposed for.
pub proof fn lemma_propose_run_order(
    req: Set<Command>,
    proposals: Map<Slot, Command>,
    decisions: Map<Slot, Command>,
    bound: int,
    slot_in: int,
)
    requires
        req.finite(),
        0 <= slot_in,
        bound <= u8::MAX,
    ensures
        ({
            let r = propose_run(req, proposals, decisions, bound, slot_in);
            &&& slot_in <= bound ==> r.2 <= bound
            &&& slot_in <= bound ==> (r.2 == bound || r.0 == Set::<Command>::empty())
            &&& forall|j: int| 0 <= j < r.3.len() ==> (#[trigger] r.3[j]).s < r.2
            &&& forall|i: int, j: int| 0 <= i < j < r.3.len() ==> (#[trigger] r.3[i]).s < (#[trigger] r.3[j]).s
                && command_lt(r.3[i].c, r.3[j].c)
            &&& forall|j: int, c: Command| 0 <= j < r.3.len() && #[trigger] r.0.contains(c) ==> command_lt(
                (#[trigger] r.3[j]).c,
                c,
            )
            &&& forall|s: Slot| slot_in <= s < r.2 ==> (!#[trigger] decisions.contains_key(s) <==> exists|j: int|
                0 <= j < r.3.len() && (#[trigger] r.3[j]).s == s)
            &&& forall|s: Slot| #[trigger] r.1.contains_key(s) ==> (proposals.contains_key(s) && r.1[s]
                == proposals[s]) || exists|j: int| 0 <= j < r.3.len() && (#[trigger] r.3[j]).s == s && r.1[s]
                == r.3[j].c
        }),
    decreases bound - slot_in,
{
    lemma_propose_run(req, proposals, decisions, bound, slot_in);
    if slot_in < bound && req != Set::<Command>::empty() {
        if decisions.contains_key(slot_in as u8) {
            lemma_propose_run_order(req, proposals, decisions, bound, slot_in + 1);
            lemma_propose_run(req, proposals, decisions, bound, slot_in + 1);
        } else {
            let c = least_command(req);
            lemma_least_exists(req);
            let si = slot_in as u8;
            let p2 = proposals.insert(si, c);
            lemma_propose_run(req.remove(c), p2, decisions, bound, slot_in + 1);
            lemma_propose_run_order(req.remove(c), p2, decisions, bound, slot_in + 1);
            let r2 = propose_run(req.remove(c), p2, decisions, bound, slot_in + 1);
            let r = propose_run(req, proposals, decisions, bound, slot_in);
            assert(r.3 == seq![Proposal { s: si, c }] + r2.3);
            assert forall|j: int| 1 <= j < r.3.len() implies #[trigger] r.3[j] == r2.3[j - 1] by {}
            assert forall|i: int, j: int| 0 <= i < j < r.3.len() implies (#[trigger] r.3[i]).s < (
            #[trigger] r.3[j]).s && command_lt(r.3[i].c, r.3[j].c) by {
                if i == 0 {
                    assert(r.3[j] == r2.3[j - 1]);
                    assert(req.remove(c).contains(r2.3[j - 1].c));
                } else {
                    assert(r.3[i] == r2.3[i - 1]);
                    assert(r.3[j] == r2.3[j - 1]);
                }
            }
            assert forall|j: int, d: Command| 0 <= j < r.3.len() && #[trigger] r.0.contains(d) implies command_lt(
                (#[trigger] r.3[j]).c,
                d,
            ) by {
                if j == 0 {
                    assert(req.remove(c).contains(d));
                } else {
                    assert(r.3[j] == r2.3[j - 1]);
                }
            }
            assert forall|s: Slot| slot_in <= s < r.2 implies (!#[trigger] decisions.contains_key(s) <==> exists|j: int|
                0 <= j < r.3.len() && (#[trigger] r.3[j]).s == s) by {
                if s == si {
                    assert(r.3[0].s == s);
                } else {
                    if !decisions.contains_key(s) {
                        let j2 = choose|j: int| 0 <= j < r2.3.len() && (#[trigger] r2.3[j]).s == s;
                        assert(r.3[j2 + 1] == r2.3[j2]);
                    }
                    if exists|j: int| 0 <= j < r.3.len() && (#[trigger] r.3[j]).s == s {
                        let j = choose|j: int| 0 <= j < r.3.len() && (#[trigger] r.3[j]).s == s;
                        assert(j != 0);
                        assert(r2.3[j - 1].s == s);
                    }
                }
            }
            assert forall|s: Slot| #[trigger] r.1.contains_key(s) implies (proposals.contains_key(s) && r.1[s]
                == proposals[s]) || exists|j: int| 0 <= j < r.3.len() && (#[trigger] r.3[j]).s == s && r.1[s]
                == r.3[j].c by {
                if s == si {
                    assert(r.3[0].s == s);
                    assert(r2.1[si] == c);
                } else if !(p2.contains_key(s) && r2.1[s] == p2[s]) {
                    let j2 = choose|j: int| 0 <= j < r2.3.len() && (#[trigger] r2.3[j]).s == s && r2.1[s] == r2.3[j].c;
                    assert(r.3[j2 + 1] == r2.3[j2]);
                }
            }
        }
    }
}


/// Proposes requests for slots from `slot_in` up to `WINDOW` slots past
/// `slot_out`: each slot without a decision gets the first remaining request,
/// which leaves the requests and is recorded in `proposals`. Stops at that
/// bound or when no request remains, and gives the proposals it made, in
/// order, for the leaders.
pub fn propose(
    req: &mut CommandSet,
    proposals: &mut BTreeMap<Slot, Command>,
    decisions: &BTreeMap<Slot, Command>,
    slot_out: &u8,
    slot_in: &mut u8,
) -> (sent: Vec<Proposal>)
    requires
        *slot_out + WINDOW <= u8::MAX,
    ensures
        ({
            let r = propose_run(old(req)@, old(proposals)@, decisions@, *slot_out + WINDOW, *old(slot_in) as int);
            &&& final(req)@ == r.0
            &&& final(proposals)@ == r.1
            &&& *final(slot_in) == r.2
            &&& sent@ == r.3
        }),
{
    let ghost start = propose_run(req@, proposals@, decisions@, *slot_out + WINDOW, *slot_in as int);
    let mut sent: Vec<Proposal> = Vec::new();
    let bound = *slot_out + WINDOW;
    while *slot_in < bound && !req.is_empty()
        invariant
            bound == *slot_out + WINDOW,
            bound <= u8::MAX,
            ({
                let r = propose_run(req@, proposals@, decisions@, bound as int, *slot_in as int);
                &&& r.0 == start.0
                &&& r.1 == start.1
                &&& r.2 == start.2
                &&& sent@ + r.3 == start.3
            }),
        decreases bound - *slot_in,
    {
        let ghost before = propose_run(req@, proposals@, decisions@, bound as int, *slot_in as int);
        let si = *slot_in;
        match decisions.get(&si) {
            Some(_) => {},
            None => {
                match req.first() {
                    Some(c) => {
                        proof {
                            lemma_least_command(req@, c);
                        }
                        req.remove(&c);
                        proposals.insert(si, c);
                        sent.push(Proposal { s: si, c: c });
                        proof {
                            let after = propose_run(req@, proposals@, decisions@, bound as int, si + 1);
                            assert(before.3 == seq![Proposal { s: si, c }] + after.3);
                            assert(sent@ + after.3 =~= sent@.drop_last() + before.3);
                        }
                    },
                    None => {
                        proof {
                            assert(false);
                        }
                    },
                }
            },
        }
        *slot_in = si + 1;
    }
    proof {
        let r = propose_run(req@, proposals@, decisions@, bound as int, *slot_in as int);
        assert(r.3 == Seq::<Proposal>::empty());
        assert(sent@ + r.3 =~= sent@);
    }
    sent
}

/// Carries out a decided command; there is no replicated state to change.
pub fn perform() {
}

/// What a replica remembers: the next slot to propose for, the first slot
/// without a decision, the requests not yet proposed, and the decisions and
/// proposals by slot.
pub struct ReplicaState {
    pub id: u8,
    pub slot_in: u8,
    pub slot_out: u8,
    pub req: CommandSet,
    pub decisions: BTreeMap<Slot, Command>,
    pub proposals: BTreeMap<Slot, Command>,
}

/// The requests after a message, before proposing: a request is added; a
/// decision for the first undecided slot that differs from this replica's
/// proposal there gives that proposal back to the requests.
pub open spec fn requests_after(req: Set<Command>, decisions: Map<Slot, Command>, proposals: Map<Slot, Command>, slot_out: Slot, m: Replica) -> Set<Command> {
    match m {
        Replica::Request(c) => req.insert(c),
        Replica::Decision(p) => {
            let d = decisions.insert(p.s, p.c);
            if d.contains_key(slot_out) && proposals.contains_key(slot_out) && d[slot_out] != proposals[slot_out] {
                req.insert(proposals[slot_out])
            } else {
                req
            }
        },
    }
}

/// The decisions after a message.
pub open spec fn decisions_after(decisions: Map<Slot, Command>, m: Replica) -> Map<Slot, Command> {
    match m {
        Replica::Request(_) => decisions,
        Replica::Decision(p) => decisions.insert(p.s, p.c),
    }
}

/// One step of a replica: the message is taken in, then proposing runs from
/// the requests and decisions it leaves.
pub open spec fn replica_step(old: ReplicaState, m: Replica, new: ReplicaState, sent: Seq<Proposal>) -> bool {
    let r = propose_run(
        requests_after(old.req@, old.decisions@, old.proposals@, old.slot_out, m),
        old.proposals@,
        decisions_after(old.decisions@, m),
        old.slot_out + WINDOW,
        old.slot_in as int,
    );
    &&& new.id == old.id
    &&& new.slot_out == old.slot_out
    &&& new.decisions@ == decisions_after(old.decisions@, m)
    &&& new.req@ == r.0
    &&& new.proposals@ == r.1
    &&& new.slot_in == r.2
    &&& sent == r.3
}

/// Every request and every proposal of a replica is a command of `pool`.
pub open spec fn drawn_from(s: ReplicaState, pool: Set<Command>) -> bool {
    &&& s.req@.subset_of(pool)
    &&& forall|t: Slot| #[trigger] s.proposals@.contains_key(t) ==> pool.contains(s.proposals@[t])
}

/// The commands that some message of `msgs` requests.
pub open spec fn requested(msgs: Seq<Replica>) -> Set<Command> {
    Set::new(|c: Command| exists|k: int| 0 <= k < msgs.len() && msgs[k] == Replica::Request(c))
}

/// What one step of a replica guarantees: the next slot to propose for never
/// moves back; the proposals it sends are for slots between the old and the
/// new next slot, in increasing order, inside the window and without a
/// decision; decisions only grow and hold the one just received; and if all
/// requests and proposals, and the request just received, come from `pool`,
/// so do the new requests and proposals and the proposals sent.
pub proof fn lemma_replica_step(old: ReplicaState, m: Replica, new: ReplicaState, sent: Seq<Proposal>, pool: Set<Command>)
    requires
        replica_step(old, m, new, sent),
        old.slot_out + WINDOW <= u8::MAX,
    ensures
        old.slot_in <= new.slot_in,
        forall|j: int| 0 <= j < sent.len() ==> {
            &&& old.slot_in <= (#[trigger] sent[j]).s < new.slot_in
            &&& sent[j].s < old.slot_out + WINDOW
            &&& !new.decisions@.contains_key(sent[j].s)
        },
        forall|i: int, j: int| 0 <= i < j < sent.len() ==> (#[trigger] sent[i]).s < (#[trigger] sent[j]).s,
        old.decisions@.dom().subset_of(new.decisions@.dom()),
        m matches Replica::Decision(p) ==> new.decisions@.contains_key(p.s),
        drawn_from(old, pool) && (m matches Replica::Request(c) ==> pool.contains(c)) ==> {
            &&& drawn_from(new, pool)
            &&& forall|j: int| 0 <= j < sent.len() ==> pool.contains((#[trigger] sent[j]).c)
        },
{
    let req1 = requests_after(old.req@, old.decisions@, old.proposals@, old.slot_out, m);
    let dec1 = decisions_after(old.decisions@, m);
    vstd::seq_lib::seq_to_set_is_finite(old.req.elems());
    assert(req1.finite());
    lemma_propose_run(req1, old.proposals@, dec1, old.slot_out + WINDOW, old.slot_in as int);
    lemma_propose_run_order(req1, old.proposals@, dec1, old.slot_out + WINDOW, old.slot_in as int);
    if drawn_from(old, pool) && (m matches Replica::Request(c) ==> pool.contains(c)) {
        assert(req1.subset_of(pool));
        assert forall|t: Slot| #[trigger] new.proposals@.contains_key(t) implies pool.contains(new.proposals@[t]) by {
            if !(old.proposals@.contains_key(t) && new.proposals@[t] == old.proposals@[t]) {
                let j = choose|j: int| 0 <= j < sent.len() && (#[trigger] sent[j]).s == t && new.proposals@[t] == sent[j].c;
                assert(req1.contains(sent[j].c));
            }
        }
        assert forall|j: int| 0 <= j < sent.len() implies pool.contains((#[trigger] sent[j]).c) by {
            assert(req1.contains(sent[j].c));
        }
    }
}

/// The commands that a list of proposals carries.
pub open spec fn commands_of(sent: Seq<Proposal>) -> Set<Command> {
    Set::new(|c: Command| exists|j: int| 0 <= j < sent.len() && (#[trigger] sent[j]).c == c)
}

/// After a decision, the replica's own proposal for the first undecided
/// slot goes back to the requests exactly when that slot is now decided for
/// a different command; otherwise the requests stay as they were.
proof fn lemma_decision_gives_back(req: Set<Command>, decisions: Map<Slot, Command>, proposals: Map<Slot, Command>, slot_out: Slot, p: Proposal)
    ensures
        ({
            let d = decisions.insert(p.s, p.c);
            let lost = d.contains_key(slot_out) && proposals.contains_key(slot_out) && d[slot_out] != proposals[slot_out];
            &&& lost ==> requests_after(req, decisions, proposals, slot_out, Replica::Decision(p)) == req.insert(proposals[slot_out])
            &&& !lost ==> requests_after(req, decisions, proposals, slot_out, Replica::Decision(p)) == req
        }),
{
}

/// A step neither loses nor invents a request. Afterwards the pending
/// requests and the commands just proposed are disjoint, each command is
/// proposed once, and every pending request comes after every command just
/// proposed. Together they are the requests from before, plus the command
/// of a request message; after a decision they are the requests from before,
/// plus the replica's own proposal for the first undecided slot exactly when
/// that slot is now decided for a different command. A decision that agrees
/// with the replica's own proposal there, or one for another slot, gives
/// nothing back.
pub proof fn lemma_replica_requests(old: ReplicaState, m: Replica, new: ReplicaState, sent: Seq<Proposal>)
    requires
        replica_step(old, m, new, sent),
        old.slot_out + WINDOW <= u8::MAX,
    ensures
        forall|j: int| 0 <= j < sent.len() ==> !new.req@.contains((#[trigger] sent[j]).c),
        forall|i: int, j: int| 0 <= i < j < sent.len() ==> (#[trigger] sent[i]).c != (#[trigger] sent[j]).c,
        forall|j: int, c: Command| 0 <= j < sent.len() && #[trigger] new.req@.contains(c) ==> command_lt(
            (#[trigger] sent[j]).c,
            c,
        ),
        m matches Replica::Request(c) ==> new.req@.union(commands_of(sent)) == old.req@.insert(c),
        m matches Replica::Decision(p) ==> {
            let d = old.decisions@.insert(p.s, p.c);
            let own = old.proposals@[old.slot_out];
            let lost = d.contains_key(old.slot_out) && old.proposals@.contains_key(old.slot_out) && d[old.slot_out] != own;
            &&& lost ==> new.req@.union(commands_of(sent)) == old.req@.insert(own)
            &&& !lost ==> new.req@.union(commands_of(sent)) == old.req@
        },
{
    let req1 = requests_after(old.req@, old.decisions@, old.proposals@, old.slot_out, m);
    let dec1 = decisions_after(old.decisions@, m);
    vstd::seq_lib::seq_to_set_is_finite(old.req.elems());
    lemma_propose_run(req1, old.proposals@, dec1, old.slot_out + WINDOW, old.slot_in as int);
    lemma_propose_run_order(req1, old.proposals@, dec1, old.slot_out + WINDOW, old.slot_in as int);
    assert forall|i: int, j: int| 0 <= i < j < sent.len() implies (#[trigger] sent[i]).c != (#[trigger] sent[j]).c by {
        Command::lemma_strict_total_order(sent[i].c, sent[j].c, sent[i].c);
    }
    if let Replica::Decision(p) = m {
        lemma_decision_gives_back(old.req@, old.decisions@, old.proposals@, old.slot_out, p);
    }
    assert(new.req@.union(commands_of(sent)) =~= req1) by {
        assert forall|c: Command| new.req@.union(commands_of(sent)).contains(c) <==> req1.contains(c) by {
            if commands_of(sent).contains(c) {
                let j = choose|j: int| 0 <= j < sent.len() && (#[trigger] sent[j]).c == c;
                assert(req1.contains(sent[j].c));
            }
            if req1.contains(c) && !new.req@.contains(c) {
                let j = choose|j: int| 0 <= j < sent.len() && (#[trigger] sent[j]).c == c;
                assert(commands_of(sent).contains(c));
            }
        }
    }
}

/// Where a step proposes: the decisions gain exactly a decision received; the
/// first undecided slot and the id stay; the slots proposed for are exactly
/// the slots without a decision from the old next slot up to the new one, in
/// increasing order, and each is recorded with its command while every other
/// proposal stays; proposing stops at the end of the window or when no
/// request is left.
pub proof fn lemma_replica_slots(old: ReplicaState, m: Replica, new: ReplicaState, sent: Seq<Proposal>)
    requires
        replica_step(old, m, new, sent),
        old.slot_out + WINDOW <= u8::MAX,
    ensures
        new.id == old.id,
        new.slot_out == old.slot_out,
        m matches Replica::Decision(p) ==> new.decisions@ == old.decisions@.insert(p.s, p.c),
        m is Request ==> new.decisions@ == old.decisions@,
        forall|t: Slot| old.slot_in <= t < new.slot_in ==> (!#[trigger] new.decisions@.contains_key(t) <==> exists|j: int|
            0 <= j < sent.len() && (#[trigger] sent[j]).s == t),
        forall|i: int, j: int| 0 <= i < j < sent.len() ==> (#[trigger] sent[i]).s < (#[trigger] sent[j]).s,
        forall|j: int| 0 <= j < sent.len() ==> new.proposals@.contains_key((#[trigger] sent[j]).s) && new.proposals@[sent[j].s]
            == sent[j].c,
        forall|t: Slot| #[trigger] new.proposals@.contains_key(t) && !(exists|j: int| 0 <= j < sent.len() && (#[trigger] sent[j]).s == t)
            ==> old.proposals@.contains_key(t) && new.proposals@[t] == old.proposals@[t],
        forall|t: Slot| #[trigger] old.proposals@.contains_key(t) ==> new.proposals@.contains_key(t),
        old.slot_in <= old.slot_out + WINDOW ==> (new.slot_in == old.slot_out + WINDOW || new.req@ == Set::<Command>::empty()),
{
    let req1 = requests_after(old.req@, old.decisions@, old.proposals@, old.slot_out, m);
    let dec1 = decisions_after(old.decisions@, m);
    vstd::seq_lib::seq_to_set_is_finite(old.req.elems());
    lemma_propose_run(req1, old.proposals@, dec1, old.slot_out + WINDOW, old.slot_in as int);
    lemma_propose_run_order(req1, old.proposals@, dec1, old.slot_out + WINDOW, old.slot_in as int);
}

/// The state just before message `t`: its slots relate to those of every
/// earlier state, and it has seen every decision and request before `t`.
proof fn lemma_replica_prefix(states: Seq<ReplicaState>, msgs: Seq<Replica>, sent: Seq<Seq<Proposal>>, t: int)
    requires
        states.len() == msgs.len() + 1,
        sent.len() == msgs.len(),
        0 <= t <= msgs.len(),
        states[0].slot_out + WINDOW <= u8::MAX,
        drawn_from(states[0], Set::empty()),
        forall|i: int| 0 <= i < msgs.len() ==> replica_step(states[i], #[trigger] msgs[i], states[i + 1], sent[i]),
    ensures
        states[t].slot_out == states[0].slot_out,
        forall|u: int| 0 <= u <= t ==> (#[trigger] states[u]).slot_in <= states[t].slot_in,
        forall|u: int| 0 <= u <= t ==> (#[trigger] states[u]).decisions@.dom().subset_of(states[t].decisions@.dom()),
        drawn_from(states[t], requested(msgs.take(t))),
    decreases t,
{
    if t == 0 {
        assert(requested(msgs.take(0)) =~= Set::<Command>::empty());
    } else {
        lemma_replica_prefix(states, msgs, sent, t - 1);
        let pool = requested(msgs.take(t));
        let prev = msgs.take(t - 1);
        let cur = msgs.take(t);
        assert(requested(prev).subset_of(pool)) by {
            assert forall|c: Command| requested(prev).contains(c) implies pool.contains(c) by {
                let k = choose|k: int| 0 <= k < prev.len() && prev[k] == Replica::Request(c);
                assert(cur[k] == Replica::Request(c));
            }
        }
        if let Replica::Request(c) = msgs[t - 1] {
            assert(msgs.take(t)[t - 1] == Replica::Request(c));
            assert(pool.contains(c));
        }
        assert(replica_step(states[t - 1], msgs[t - 1], states[t], sent[t - 1]));
        lemma_replica_step(states[t - 1], msgs[t - 1], states[t], sent[t - 1], pool);
    }
}

/// Over a run of a replica that starts with no requests and no proposals:
/// no slot is proposed twice, every slot proposed lies between the first
/// next slot and the end of the window, every command proposed was requested
/// by an earlier or the same message, and no slot is proposed after a
/// decision for it has been received.
pub proof fn lemma_replica_run(states: Seq<ReplicaState>, msgs: Seq<Replica>, sent: Seq<Seq<Proposal>>)
    requires
        states.len() == msgs.len() + 1,
        sent.len() == msgs.len(),
        states[0].slot_out + WINDOW <= u8::MAX,
        states[0].req@ == Set::<Command>::empty(),
        states[0].proposals@ == Map::<Slot, Command>::empty(),
        forall|i: int| 0 <= i < msgs.len() ==> replica_step(states[i], #[trigger] msgs[i], states[i + 1], sent[i]),
    ensures
        forall|i: int, a: int, j: int, b: int|
            0 <= i < j < sent.len() && 0 <= a < sent[i].len() && 0 <= b < sent[j].len() ==> (#[trigger] sent[i][a]).s
                < (#[trigger] sent[j][b]).s,
        forall|i: int, a: int, b: int|
            0 <= i < sent.len() && 0 <= a < b < sent[i].len() ==> (#[trigger] sent[i][a]).s < (#[trigger] sent[i][b]).s,
        forall|i: int, a: int|
            0 <= i < sent.len() && 0 <= a < sent[i].len() ==> states[0].slot_in <= (#[trigger] sent[i][a]).s
                < states[0].slot_out + WINDOW,
        forall|i: int, a: int|
            0 <= i < sent.len() && 0 <= a < sent[i].len() ==> requested(msgs.take(i + 1)).contains(
                (#[trigger] sent[i][a]).c,
            ),
        forall|k: int, i: int, a: int|
            0 <= k <= i < sent.len() && 0 <= a < sent[i].len() ==> ((#[trigger] msgs[k]) matches Replica::Decision(p)
                ==> (#[trigger] sent[i][a]).s != p.s),
{
    assert(drawn_from(states[0], Set::empty()));
    assert forall|i: int| #![trigger sent[i]] 0 <= i < sent.len() implies {
        &&& states[0].slot_in <= states[i].slot_in
        &&& forall|a: int| 0 <= a < sent[i].len() ==> {
            &&& states[i].slot_in <= (#[trigger] sent[i][a]).s < states[i + 1].slot_in
            &&& sent[i][a].s < states[0].slot_out + WINDOW
            &&& !states[i + 1].decisions@.contains_key(sent[i][a].s)
            &&& requested(msgs.take(i + 1)).contains(sent[i][a].c)
        }
        &&& forall|a: int, b: int| 0 <= a < b < sent[i].len() ==> (#[trigger] sent[i][a]).s < (#[trigger] sent[i][b]).s
    } by {
        lemma_replica_prefix(states, msgs, sent, i);
        lemma_replica_prefix(states, msgs, sent, i + 1);
        let pool = requested(msgs.take(i + 1));
        let prev = msgs.take(i);
        let cur = msgs.take(i + 1);
        assert(requested(prev).subset_of(pool)) by {
            assert forall|c: Command| requested(prev).contains(c) implies pool.contains(c) by {
                let k = choose|k: int| 0 <= k < prev.len() && prev[k] == Replica::Request(c);
                assert(cur[k] == Replica::Request(c));
            }
        }
        if let Replica::Request(c) = msgs[i] {
            assert(msgs.take(i + 1)[i] == Replica::Request(c));
        }
        assert(replica_step(states[i], msgs[i], states[i + 1], sent[i]));
        lemma_replica_step(states[i], msgs[i], states[i + 1], sent[i], pool);
    }
    assert forall|i: int, a: int, j: int, b: int|
        0 <= i < j < sent.len() && 0 <= a < sent[i].len() && 0 <= b < sent[j].len() implies (#[trigger] sent[i][a]).s
            < (#[trigger] sent[j][b]).s by {
        lemma_replica_prefix(states, msgs, sent, j);
        assert(states[i + 1].slot_in <= states[j].slot_in);
    }
    assert forall|k: int, i: int, a: int|
        0 <= k <= i < sent.len() && 0 <= a < sent[i].len() implies ((#[trigger] msgs[k]) matches Replica::Decision(p)
            ==> (#[trigger] sent[i][a]).s != p.s) by {
        if let Replica::Decision(p) = msgs[k] {
            lemma_replica_prefix(states, msgs, sent, k);
            assert(replica_step(states[k], msgs[k], states[k + 1], sent[k]));
            lemma_replica_step(states[k], msgs[k], states[k + 1], sent[k], Set::empty());
            lemma_replica_prefix(states, msgs, sent, i + 1);
            assert(states[k + 1].decisions@.contains_key(p.s));
            assert(states[i + 1].decisions@.contains_key(p.s));
        }
    }
}

impl ReplicaState {
    /// A fresh replica: both slots are the first one, and it knows of no
    /// request, decision or proposal.
    pub fn new(id: u8) -> (s: ReplicaState)
        ensures
            s.id == id,
            s.slot_in == 1,
            s.slot_out == 1,
            s.req@ == Set::<Command>::empty(),
            s.decisions@ == Map::<Slot, Command>::empty(),
            s.proposals@ == Map::<Slot, Command>::empty(),
    {
        ReplicaState {
            id,
            slot_in: 1,
            slot_out: 1,
            req: SortedSet::new(),
            decisions: BTreeMap::new(),
            proposals: BTreeMap::new(),
        }
    }

    /// Handles one message, then proposes; gives the proposals to send to
    /// every leader.
    pub fn step(&mut self, m: Replica) -> (sent: Vec<Proposal>)
        requires
            old(self).slot_out + WINDOW <= u8::MAX,
        ensures
            replica_step(*old(self), m, *final(self), sent@),
    {
        match m {
            Replica::Request(c) => {
                self.req.insert(c);
            },
            Replica::Decision(p) => {
                let Proposal { s, c } = p;
                self.decisions.insert(s, c);
                match self.decisions.get(&self.slot_out) {
                    Some(c0) => {
                        match self.proposals.get(&self.slot_out) {
                            Some(c1) => {
                                if *c0 != *c1 {
                                    self.req.insert(*c1);
                                }
                            },
                            None => {},
                        }
                        perform();
                    },
                    None => {},
                }
            },
        }
        propose(&mut self.req, &mut self.proposals, &self.decisions, &self.slot_out, &mut self.slot_in)
    }
}

} // verus!
