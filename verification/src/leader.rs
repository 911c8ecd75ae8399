use std::collections::{BTreeMap, BTreeSet};
use vstd::prelude::*;
use vstd::std_specs::cmp::OrdSpec;
use vstd::std_specs::iter::IteratorSpec;

use crate::messages::{
    ballot_le, ballot_lt, command_lt, lemma_ballot_order, pvalue_lt, AcceptorId, Ballot, Command, Commander, Leader,
    LeaderId, Proposal, Pvalue, PvalueSet, Replica, Scout, Slot,
};
use crate::sorted_set::{strictly_sorted, Ordered, SortedSet};

verus! {


// ---------------------------------------------------------------------------
// Commander
// ---------------------------------------------------------------------------

/// A commander drives one pvalue through phase two: it waits for the
/// acceptors of `waitfor` to accept it.
pub struct CommanderState {
    pub waitfor: BTreeSet<AcceptorId>,
    pub len: usize,
    pub pval: Pvalue,
}

/// What a commander does after an answer.
pub enum CommanderAction {
    /// Keep waiting for answers.
    Wait,
    /// Send this message to every replica, and stop.
    ToReplicas(Replica),
    /// Send this message to the leader, and stop.
    ToLeader(Leader),
}

/// One step of a commander: what the new state and the action are.
pub open spec fn commander_step(old: CommanderState, m: Commander, new: CommanderState, a: CommanderAction) -> bool {
    &&& new.len == old.len
    &&& new.pval == old.pval
    &&& match m {
            Commander::P2B(aid, b) => if b == old.pval.b {
                &&& new.waitfor@ == old.waitfor@.remove(aid)
                &&& if new.waitfor@.len() < old.len / 2 {
                    a == CommanderAction::ToReplicas(
                        Replica::Decision(Proposal { s: old.pval.s, c: old.pval.c }),
                    )
                } else {
                    a is Wait
                }
            } else {
                &&& new.waitfor@ == old.waitfor@
                &&& a == CommanderAction::ToLeader(Leader::Preempted(b))
            },
        }
}

impl CommanderState {
    /// A commander for `pval` that waits for the acceptors `aids`.
    pub fn new(aids: BTreeSet<AcceptorId>, pval: Pvalue) -> (s: CommanderState)
        ensures
            s.waitfor@ == aids@,
            s.len == aids@.len(),
            s.pval == pval,
    {
        let len = aids.len();
        CommanderState { waitfor: aids, len, pval }
    }

    /// Handles one phase-two answer.
    ///
    /// An answer in the commander's ballot strikes the acceptor off; once
    /// fewer than half of the acceptors are still awaited the proposal is
    /// decided and sent to the replicas. An answer in another ballot means
    /// the commander is preempted by that ballot.
    pub fn step(&mut self, m: Commander) -> (a: CommanderAction)
        ensures
            final(self).len == old(self).len,
            final(self).pval == old(self).pval,
            commander_step(*old(self), m, *final(self), a),
            a is ToReplicas ==> 2 * (old(self).len - final(self).waitfor@.len()) > old(self).len,
    {
        match m {
            Commander::P2B(aid, b) => {
                if self.pval.b == b {
                    self.waitfor.remove(&aid);
                    if self.waitfor.len() < self.len / 2 {
                        let Pvalue { b: _, s, c } = self.pval;
                        CommanderAction::ToReplicas(Replica::Decision(Proposal { s: s, c: c }))
                    } else {
                        CommanderAction::Wait
                    }
                } else {
                    CommanderAction::ToLeader(Leader::Preempted(b))
                }
            },
        }
    }
}

// ---------------------------------------------------------------------------
// Scout
// ---------------------------------------------------------------------------

/// A scout drives ballot `b` through phase one: it waits for the acceptors
/// of `waitfor` to promise it.
pub struct ScoutState {
    pub b: Ballot,
    pub waitfor: BTreeSet<AcceptorId>,
    pub len: usize,
    pub pvalues: PvalueSet,
}

/// What a scout does after an answer.
pub enum ScoutAction {
    /// Keep waiting for answers.
    Wait,
    /// Send this message to the leader, and stop.
    ToLeader(Leader),
}

/// One step of a scout: what the new state and the action are.
pub open spec fn scout_step(old: ScoutState, m: Scout, new: ScoutState, a: ScoutAction) -> bool {
    &&& new.b == old.b
    &&& new.len == old.len
    &&& new.pvalues@ == old.pvalues@
    &&& match m {
            Scout::P1B(id, b0, _) => if b0 == old.b {
                &&& new.waitfor@ == old.waitfor@.remove(id)
                &&& if new.waitfor@.len() < old.len / 2 {
                    a matches ScoutAction::ToLeader(Leader::Adopted(ab, pv)) && ab == old.b
                        && pv@ == old.pvalues@
                } else {
                    a is Wait
                }
            } else {
                &&& new.waitfor@ == old.waitfor@
                &&& a matches ScoutAction::ToLeader(Leader::Preempted(pb)) && pb == old.b
            },
        }
}

impl ScoutState {
    /// A scout for ballot `b` that waits for the acceptors `aids`, with no
    /// pvalues yet.
    pub fn new(aids: BTreeSet<AcceptorId>, b: Ballot) -> (s: ScoutState)
        ensures
            s.b == b,
            s.waitfor@ == aids@,
            s.len == aids@.len(),
            s.pvalues@ == Set::<Pvalue>::empty(),
    {
        let len = aids.len();
        ScoutState { b, waitfor: aids, len, pvalues: SortedSet::new() }
    }

    /// Handles one phase-one answer.
    ///
    /// An answer in the scout's ballot strikes the acceptor off; once fewer
    /// than half of the acceptors are still awaited the ballot is adopted and
    /// reported to the leader with the scout's pvalues. The pvalues that the
    /// answer carries are not added to them. An answer in another ballot
    /// means the scout's ballot is preempted.
    pub fn step(&mut self, m: Scout) -> (a: ScoutAction)
        ensures
            final(self).b == old(self).b,
            final(self).len == old(self).len,
            final(self).pvalues@ == old(self).pvalues@,
            scout_step(*old(self), m, *final(self), a),
            a matches ScoutAction::ToLeader(Leader::Adopted(_, _)) ==> 2 * (old(self).len - final(self).waitfor@.len())
                > old(self).len,
    {
        match m {
            Scout::P1B(id, b0, _vs) => {
                if b0 == self.b {
                    self.waitfor.remove(&id);
                    if self.waitfor.len() < self.len / 2 {
                        ScoutAction::ToLeader(Leader::Adopted(self.b, self.pvalues.copy()))
                    } else {
                        ScoutAction::Wait
                    }
                } else {
                    ScoutAction::ToLeader(Leader::Preempted(self.b))
                }
            },
        }
    }
}


/// What one answer does to a commander: it keeps its pvalue and count; it
/// awaits no acceptor it was not awaiting, and stops awaiting at most the one
/// that answered, which it strikes off when the answer is in its ballot. A
/// decision comes only for an answer in its ballot, with more than half of
/// its count no longer awaited, and is exactly the proposal of its pvalue:
/// its slot and its command. A preemption carries the answer's ballot, which
/// is not the commander's.
pub proof fn lemma_commander_answer(old: CommanderState, m: Commander, new: CommanderState, a: CommanderAction)
    requires
        commander_step(old, m, new, a),
    ensures
        new.pval == old.pval,
        new.len == old.len,
        new.waitfor@.subset_of(old.waitfor@),
        forall|x: AcceptorId| #[trigger] old.waitfor@.contains(x) && !new.waitfor@.contains(x) ==> m == Commander::P2B(x, old.pval.b),
        answer_ballot(m) == old.pval.b ==> !new.waitfor@.contains(answer_from(m)),
        a is ToReplicas ==> a == CommanderAction::ToReplicas(Replica::Decision(Proposal { s: old.pval.s, c: old.pval.c })),
        a is ToReplicas ==> answer_ballot(m) == old.pval.b && 2 * (old.len - new.waitfor@.len()) > old.len,
        a is Wait ==> answer_ballot(m) == old.pval.b && new.waitfor@.len() >= old.len / 2,
        answer_ballot(m) == old.pval.b ==> (a is ToReplicas <==> new.waitfor@.len() < old.len / 2),
        a is ToLeader ==> a == CommanderAction::ToLeader(Leader::Preempted(answer_ballot(m))) && answer_ballot(m) != old.pval.b,
{
}

/// What one answer does to a scout: it keeps its ballot, count and pvalues;
/// it awaits no acceptor it was not awaiting, and stops awaiting at most the
/// one that answered, which it strikes off when the answer is in its ballot.
/// An adoption comes only for an answer in its ballot, with more than half
/// of its count no longer awaited, and reports its own ballot and its own
/// pvalues. A preemption comes for an answer in another ballot and reports
/// the scout's own ballot.
pub proof fn lemma_scout_answer(old: ScoutState, m: Scout, new: ScoutState, a: ScoutAction)
    requires
        scout_step(old, m, new, a),
    ensures
        new.b == old.b,
        new.len == old.len,
        new.pvalues@ == old.pvalues@,
        new.waitfor@.subset_of(old.waitfor@),
        forall|x: AcceptorId| #[trigger] old.waitfor@.contains(x) && !new.waitfor@.contains(x) ==> promise_from(m) == x
            && promise_ballot(m) == old.b,
        promise_ballot(m) == old.b ==> !new.waitfor@.contains(promise_from(m)),
        is_adoption(a) ==> promise_ballot(m) == old.b && 2 * (old.len - new.waitfor@.len()) > old.len,
        a matches ScoutAction::ToLeader(Leader::Adopted(ab, pv)) ==> ab == old.b && pv@ == old.pvalues@,
        is_preemption(a) <==> promise_ballot(m) != old.b,
        a matches ScoutAction::ToLeader(Leader::Preempted(pb)) ==> pb == old.b,
        a is Wait ==> promise_ballot(m) == old.b && new.waitfor@.len() >= old.len / 2,
        promise_ballot(m) == old.b ==> (is_adoption(a) <==> new.waitfor@.len() < old.len / 2),
{
}

// ---------------------------------------------------------------------------
// Runs of a commander and of a scout
// ---------------------------------------------------------------------------

/// The ballot of a phase-two answer.
pub open spec fn answer_ballot(m: Commander) -> Ballot {
    match m {
        Commander::P2B(_, b) => b,
    }
}

/// The acceptor a phase-two answer comes from.
pub open spec fn answer_from(m: Commander) -> AcceptorId {
    match m {
        Commander::P2B(x, _) => x,
    }
}

/// The ballot of a phase-one answer.
pub open spec fn promise_ballot(m: Scout) -> Ballot {
    match m {
        Scout::P1B(_, b, _) => b,
    }
}

/// The pvalues a phase-one answer reports.
pub open spec fn promised_values(m: Scout) -> Set<Pvalue> {
    match m {
        Scout::P1B(_, _, vs) => vs@,
    }
}

/// Acceptor `x` answered some message of `replies` in phase two in ballot `b`.
pub open spec fn p2b_from(replies: Seq<Commander>, b: Ballot, x: AcceptorId) -> bool {
    exists|k: int| 0 <= k < replies.len() && replies[k] == Commander::P2B(x, b)
}

/// Over a run of a commander started for the acceptors `aids`, which stops
/// at its first action other than waiting: it only ever awaits acceptors of
/// `aids`, and each one no longer awaited has answered in its ballot. It
/// sends a decision to the replicas only when every answer so far is in its
/// ballot and more than half of `aids` have answered, and only at the first
/// answer after which fewer than half of them are awaited.
pub proof fn lemma_commander_run(
    aids: Set<AcceptorId>,
    states: Seq<CommanderState>,
    replies: Seq<Commander>,
    acts: Seq<CommanderAction>,
)
    requires
        aids.finite(),
        states.len() == replies.len() + 1,
        acts.len() == replies.len(),
        states[0].waitfor@ == aids,
        states[0].len == aids.len(),
        forall|i: int| 0 <= i < replies.len() ==> commander_step(states[i], #[trigger] replies[i], states[i + 1], acts[i]),
        forall|i: int| 0 <= i < acts.len() - 1 ==> (#[trigger] acts[i]) is Wait,
    ensures
        forall|t: int| 0 <= t < states.len() ==> {
            &&& (#[trigger] states[t]).waitfor@.subset_of(aids)
            &&& states[t].len == aids.len()
            &&& states[t].pval == states[0].pval
            &&& forall|x: AcceptorId| aids.contains(x) && !states[t].waitfor@.contains(x) ==> p2b_from(
                replies.take(t),
                states[0].pval.b,
                x,
            )
        },
        forall|i: int| 0 <= i < acts.len() ==> ((#[trigger] acts[i]) is ToReplicas ==> {
            &&& forall|k: int| 0 <= k <= i ==> answer_ballot(#[trigger] replies[k]) == states[0].pval.b
            &&& 2 * aids.difference(states[i + 1].waitfor@).len() > aids.len()
            &&& states[i + 1].waitfor@.len() < aids.len() / 2
            &&& forall|j: int| 0 <= j < i ==> (#[trigger] states[j + 1]).waitfor@.len() >= aids.len() / 2
        }),
    decreases replies.len(),
{
    let n: int = replies.len() as int;
    if n > 0 {
        let ps = states.take(n);
        let pr = replies.take(n - 1);
        let pa = acts.take(n - 1);
        assert forall|i: int| 0 <= i < pr.len() implies commander_step(ps[i], #[trigger] pr[i], ps[i + 1], pa[i]) by {
            assert(commander_step(states[i], replies[i], states[i + 1], acts[i]));
        }
        assert forall|i: int| 0 <= i < pa.len() - 1 implies (#[trigger] pa[i]) is Wait by {
            assert(acts[i] is Wait);
        }
        lemma_commander_run(aids, ps, pr, pa);
        let last = n - 1;
        assert(commander_step(states[last], replies[last], states[n], acts[last]));
        let o = states[last];
        let w = states[n];
        assert(ps[last] == o);
        assert(replies.take(n - 1) =~= pr);
        assert forall|t: int| 0 <= t < states.len() implies {
            &&& (#[trigger] states[t]).waitfor@.subset_of(aids)
            &&& states[t].len == aids.len()
            &&& states[t].pval == states[0].pval
            &&& forall|x: AcceptorId| aids.contains(x) && !states[t].waitfor@.contains(x) ==> p2b_from(
                replies.take(t),
                states[0].pval.b,
                x,
            )
        } by {
            if t < n {
                assert(ps[t] == states[t]);
                assert(replies.take(t) =~= pr.take(t));
            } else {
                assert forall|x: AcceptorId| aids.contains(x) && !w.waitfor@.contains(x) implies p2b_from(
                    replies.take(n),
                    states[0].pval.b,
                    x,
                ) by {
                    let rn = replies.take(n);
                    if !o.waitfor@.contains(x) {
                        assert(p2b_from(pr, states[0].pval.b, x));
                        let k = choose|k: int| 0 <= k < pr.len() && pr[k] == Commander::P2B(x, states[0].pval.b);
                        assert(rn[k] == pr[k]);
                    } else {
                        assert(rn[last] == replies[last]);
                    }
                }
            }
        }
        assert forall|i: int| 0 <= i < acts.len() && (#[trigger] acts[i]) is ToReplicas implies {
            &&& forall|k: int| 0 <= k <= i ==> answer_ballot(#[trigger] replies[k]) == states[0].pval.b
            &&& 2 * aids.difference(states[i + 1].waitfor@).len() > aids.len()
            &&& states[i + 1].waitfor@.len() < aids.len() / 2
            &&& forall|j: int| 0 <= j < i ==> (#[trigger] states[j + 1]).waitfor@.len() >= aids.len() / 2
        } by {
            if acts[i] is ToReplicas {
                assert(i == last);
                assert forall|k: int| 0 <= k <= i implies answer_ballot(#[trigger] replies[k]) == states[0].pval.b by {
                    assert(commander_step(states[k], replies[k], states[k + 1], acts[k]));
                    assert(states[k].pval == states[0].pval) by {
                        if k < n {
                            assert(ps[k] == states[k]);
                        }
                    }
                }
                assert forall|j: int| 0 <= j < i implies (#[trigger] states[j + 1]).waitfor@.len() >= aids.len() / 2 by {
                    assert(commander_step(states[j], replies[j], states[j + 1], acts[j]));
                    assert(acts[j] is Wait);
                    assert(ps[j] == states[j]);
                }
                vstd::set_lib::lemma_set_difference_len(aids, w.waitfor@);
                assert(aids.intersect(w.waitfor@) =~= w.waitfor@);
            }
        }
    }
}

/// The acceptors that answered some message of `replies` in phase two in
/// ballot `b`.
pub open spec fn answered(replies: Seq<Commander>, b: Ballot) -> Set<AcceptorId> {
    Set::new(|x: AcceptorId| p2b_from(replies, b, x))
}

/// A commander keeps its pvalue and count throughout a run.
proof fn lemma_commander_keeps(states: Seq<CommanderState>, replies: Seq<Commander>, acts: Seq<CommanderAction>, t: int)
    requires
        states.len() == replies.len() + 1,
        acts.len() == replies.len(),
        forall|i: int| 0 <= i < replies.len() ==> commander_step(states[i], #[trigger] replies[i], states[i + 1], acts[i]),
        0 <= t <= replies.len(),
    ensures
        states[t].pval == states[0].pval,
        states[t].len == states[0].len,
    decreases t,
{
    if t > 0 {
        lemma_commander_keeps(states, replies, acts, t - 1);
        assert(commander_step(states[t - 1], replies[t - 1], states[t], acts[t - 1]));
    }
}

/// While every answer so far is in the commander's ballot, the acceptors it
/// still awaits are exactly those it started with that have not answered.
proof fn lemma_commander_waitfor(
    states: Seq<CommanderState>,
    replies: Seq<Commander>,
    acts: Seq<CommanderAction>,
    t: int,
)
    requires
        states.len() == replies.len() + 1,
        acts.len() == replies.len(),
        forall|i: int| 0 <= i < replies.len() ==> commander_step(states[i], #[trigger] replies[i], states[i + 1], acts[i]),
        0 <= t <= replies.len(),
        forall|k: int| 0 <= k < t ==> answer_ballot(#[trigger] replies[k]) == states[0].pval.b,
    ensures
        states[t].pval == states[0].pval,
        states[t].len == states[0].len,
        states[t].waitfor@ == states[0].waitfor@.difference(answered(replies.take(t), states[0].pval.b)),
    decreases t,
{
    let b = states[0].pval.b;
    if t == 0 {
        assert(states[0].waitfor@.difference(answered(replies.take(0), b)) =~= states[0].waitfor@);
    } else {
        lemma_commander_waitfor(states, replies, acts, t - 1);
        assert(commander_step(states[t - 1], replies[t - 1], states[t], acts[t - 1]));
        assert(answer_ballot(replies[t - 1]) == b);
        let x = match replies[t - 1] {
            Commander::P2B(x, _) => x,
        };
        assert(replies[t - 1] == Commander::P2B(x, b));
        let prev = replies.take(t - 1);
        let cur = replies.take(t);
        assert(answered(cur, b) =~= answered(prev, b).insert(x)) by {
            assert forall|y: AcceptorId| answered(cur, b).contains(y) <==> answered(prev, b).insert(x).contains(y) by {
                if p2b_from(cur, b, y) && y != x {
                    let k = choose|k: int| 0 <= k < cur.len() && cur[k] == Commander::P2B(y, b);
                    assert(k != t - 1);
                    assert(prev[k] == cur[k]);
                }
                if p2b_from(prev, b, y) {
                    let k = choose|k: int| 0 <= k < prev.len() && prev[k] == Commander::P2B(y, b);
                    assert(cur[k] == prev[k]);
                }
                if y == x {
                    assert(cur[t - 1] == Commander::P2B(x, b));
                }
            }
        }
        assert(states[t].waitfor@ =~= states[0].waitfor@.difference(answered(cur, b)));
    }
}

/// Over a run of a commander, as in `lemma_commander_run`: while every
/// answer so far is in its ballot, it awaits exactly the acceptors of `aids`
/// that have not answered. It is preempted exactly at an answer in another
/// ballot, and it decides exactly at an answer in its ballot after which
/// fewer than half of `aids` have not answered, so at the first such answer;
/// when it decides, more than half of `aids` have answered.
pub proof fn lemma_commander_decision(
    aids: Set<AcceptorId>,
    states: Seq<CommanderState>,
    replies: Seq<Commander>,
    acts: Seq<CommanderAction>,
)
    requires
        aids.finite(),
        states.len() == replies.len() + 1,
        acts.len() == replies.len(),
        states[0].waitfor@ == aids,
        states[0].len == aids.len(),
        forall|i: int| 0 <= i < replies.len() ==> commander_step(states[i], #[trigger] replies[i], states[i + 1], acts[i]),
        forall|i: int| 0 <= i < acts.len() - 1 ==> (#[trigger] acts[i]) is Wait,
    ensures
        forall|t: int|
            #![trigger states[t]]
            0 <= t < states.len() && (forall|k: int| 0 <= k < t ==> answer_ballot(#[trigger] replies[k]) == states[0].pval.b)
                ==> states[t].waitfor@ == aids.difference(answered(replies.take(t), states[0].pval.b)),
        forall|i: int| 0 <= i < acts.len() ==> ((#[trigger] acts[i]) is ToLeader <==> answer_ballot(replies[i]) != states[0].pval.b),
        forall|i: int| 0 <= i < acts.len() ==> ((#[trigger] acts[i]) is ToReplicas <==> (answer_ballot(replies[i])
            == states[0].pval.b && aids.difference(answered(replies.take(i + 1), states[0].pval.b)).len() < aids.len()
            / 2)),
        forall|i: int| 0 <= i < acts.len() && (#[trigger] acts[i]) is ToReplicas ==> {
            &&& 2 * aids.intersect(answered(replies.take(i + 1), states[0].pval.b)).len() > aids.len()
            &&& forall|j: int| 0 <= j < i ==> aids.difference(answered(#[trigger] replies.take(j + 1), states[0].pval.b)).len()
                >= aids.len() / 2
        },
{
    let b = states[0].pval.b;
    // Every answer before the last is in the commander's ballot.
    assert forall|k: int| 0 <= k < replies.len() - 1 implies answer_ballot(#[trigger] replies[k]) == b by {
        assert(acts[k] is Wait);
        assert(commander_step(states[k], replies[k], states[k + 1], acts[k]));
        lemma_commander_keeps(states, replies, acts, k);
    }
    assert forall|t: int|
        #![trigger states[t]]
        0 <= t < states.len() && (forall|k: int| 0 <= k < t ==> answer_ballot(#[trigger] replies[k]) == b)
            implies states[t].waitfor@ == aids.difference(answered(replies.take(t), b)) by {
        lemma_commander_waitfor(states, replies, acts, t);
    }
    assert forall|i: int| 0 <= i < acts.len() implies {
        &&& ((#[trigger] acts[i]) is ToLeader <==> answer_ballot(replies[i]) != b)
        &&& (acts[i] is ToReplicas <==> (answer_ballot(replies[i]) == b && aids.difference(
            answered(replies.take(i + 1), b),
        ).len() < aids.len() / 2))
    } by {
        lemma_commander_waitfor(states, replies, acts, i);
        assert(commander_step(states[i], replies[i], states[i + 1], acts[i]));
        if answer_ballot(replies[i]) == b {
            lemma_commander_waitfor(states, replies, acts, i + 1);
        }
    }
    assert forall|i: int| 0 <= i < acts.len() && (#[trigger] acts[i]) is ToReplicas implies {
        &&& 2 * aids.intersect(answered(replies.take(i + 1), b)).len() > aids.len()
        &&& forall|j: int| 0 <= j < i ==> aids.difference(answered(#[trigger] replies.take(j + 1), b)).len() >= aids.len() / 2
    } by {
        let a = answered(replies.take(i + 1), b);
        let ia = aids.intersect(a);
        vstd::set_lib::lemma_len_subset(ia, aids);
        vstd::set_lib::lemma_set_difference_len(aids, ia);
        assert(aids.intersect(ia) =~= ia);
        assert(aids.difference(ia) =~= aids.difference(a));
        assert forall|j: int| 0 <= j < i implies aids.difference(answered(#[trigger] replies.take(j + 1), b)).len() >= aids.len() / 2 by {
            assert(acts[j] is Wait);
        }
    }
}

/// The acceptors that answered some message of `replies` in phase one in
/// ballot `b`.
pub open spec fn promised(replies: Seq<Scout>, b: Ballot) -> Set<AcceptorId> {
    Set::new(|x: AcceptorId| exists|k: int| 0 <= k < replies.len() && promise_ballot(#[trigger] replies[k]) == b && promise_from(replies[k]) == x)
}

/// The acceptor a phase-one answer comes from.
pub open spec fn promise_from(m: Scout) -> AcceptorId {
    match m {
        Scout::P1B(x, _, _) => x,
    }
}

/// A scout keeps its ballot, count and pvalues throughout a run.
proof fn lemma_scout_keeps(states: Seq<ScoutState>, replies: Seq<Scout>, acts: Seq<ScoutAction>, t: int)
    requires
        states.len() == replies.len() + 1,
        acts.len() == replies.len(),
        forall|i: int| 0 <= i < replies.len() ==> scout_step(states[i], #[trigger] replies[i], states[i + 1], acts[i]),
        0 <= t <= replies.len(),
    ensures
        states[t].b == states[0].b,
        states[t].len == states[0].len,
        states[t].pvalues@ == states[0].pvalues@,
    decreases t,
{
    if t > 0 {
        lemma_scout_keeps(states, replies, acts, t - 1);
        assert(scout_step(states[t - 1], replies[t - 1], states[t], acts[t - 1]));
    }
}

/// While every answer so far is in the scout's ballot, the acceptors it
/// still awaits are exactly those it started with that have not answered.
proof fn lemma_scout_waitfor(states: Seq<ScoutState>, replies: Seq<Scout>, acts: Seq<ScoutAction>, t: int)
    requires
        states.len() == replies.len() + 1,
        acts.len() == replies.len(),
        forall|i: int| 0 <= i < replies.len() ==> scout_step(states[i], #[trigger] replies[i], states[i + 1], acts[i]),
        0 <= t <= replies.len(),
        forall|k: int| 0 <= k < t ==> promise_ballot(#[trigger] replies[k]) == states[0].b,
    ensures
        states[t].b == states[0].b,
        states[t].len == states[0].len,
        states[t].pvalues@ == states[0].pvalues@,
        states[t].waitfor@ == states[0].waitfor@.difference(promised(replies.take(t), states[0].b)),
    decreases t,
{
    let b = states[0].b;
    if t == 0 {
        assert(states[0].waitfor@.difference(promised(replies.take(0), b)) =~= states[0].waitfor@);
    } else {
        lemma_scout_waitfor(states, replies, acts, t - 1);
        assert(scout_step(states[t - 1], replies[t - 1], states[t], acts[t - 1]));
        assert(promise_ballot(replies[t - 1]) == b);
        let x = promise_from(replies[t - 1]);
        let prev = replies.take(t - 1);
        let cur = replies.take(t);
        assert(promised(cur, b) =~= promised(prev, b).insert(x)) by {
            assert forall|y: AcceptorId| promised(cur, b).contains(y) <==> promised(prev, b).insert(x).contains(y) by {
                if promised(cur, b).contains(y) && y != x {
                    let k = choose|k: int| 0 <= k < cur.len() && promise_ballot(#[trigger] cur[k]) == b && promise_from(cur[k]) == y;
                    assert(k != t - 1);
                    assert(prev[k] == cur[k]);
                }
                if promised(prev, b).contains(y) {
                    let k = choose|k: int| 0 <= k < prev.len() && promise_ballot(#[trigger] prev[k]) == b && promise_from(prev[k]) == y;
                    assert(cur[k] == prev[k]);
                }
                if y == x {
                    assert(cur[t - 1] == replies[t - 1]);
                }
            }
        }
        assert(states[t].waitfor@ =~= states[0].waitfor@.difference(promised(cur, b)));
    }
}

/// The scout reports an adoption.
pub open spec fn is_adoption(a: ScoutAction) -> bool {
    a matches ScoutAction::ToLeader(Leader::Adopted(_, _))
}

/// The scout reports a preemption.
pub open spec fn is_preemption(a: ScoutAction) -> bool {
    a matches ScoutAction::ToLeader(Leader::Preempted(_))
}

/// Over a run of a scout, as in `lemma_scout_run`: while every answer so
/// far is in its ballot, it awaits exactly the acceptors of `aids` that have
/// not answered. It reports a preemption exactly at an answer in another
/// ballot, and an adoption exactly at an answer in its ballot after which
/// fewer than half of `aids` have not answered, so at the first such answer;
/// when it adopts, more than half of `aids` have answered.
#[verifier::rlimit(40)]
pub proof fn lemma_scout_decision(aids: Set<AcceptorId>, states: Seq<ScoutState>, replies: Seq<Scout>, acts: Seq<ScoutAction>)
    requires
        aids.finite(),
        states.len() == replies.len() + 1,
        acts.len() == replies.len(),
        states[0].waitfor@ == aids,
        states[0].len == aids.len(),
        forall|i: int| 0 <= i < replies.len() ==> scout_step(states[i], #[trigger] replies[i], states[i + 1], acts[i]),
        forall|i: int| 0 <= i < acts.len() - 1 ==> (#[trigger] acts[i]) is Wait,
    ensures
        forall|t: int|
            #![trigger states[t]]
            0 <= t < states.len() && (forall|k: int| 0 <= k < t ==> promise_ballot(#[trigger] replies[k]) == states[0].b)
                ==> states[t].waitfor@ == aids.difference(promised(replies.take(t), states[0].b)),
        forall|i: int| 0 <= i < acts.len() ==> (is_preemption(#[trigger] acts[i])
            <==> promise_ballot(replies[i]) != states[0].b),
        forall|i: int| 0 <= i < acts.len() ==> (is_adoption(#[trigger] acts[i])
            <==> (promise_ballot(replies[i]) == states[0].b && aids.difference(promised(replies.take(i + 1), states[0].b)).len()
            < aids.len() / 2)),
        forall|i: int|
            0 <= i < acts.len() && is_adoption(#[trigger] acts[i]) ==> {
                &&& 2 * aids.intersect(promised(replies.take(i + 1), states[0].b)).len() > aids.len()
                &&& forall|j: int| 0 <= j < i ==> aids.difference(promised(#[trigger] replies.take(j + 1), states[0].b)).len()
                    >= aids.len() / 2
            },
{
    let b = states[0].b;
    assert forall|k: int| 0 <= k < replies.len() - 1 implies promise_ballot(#[trigger] replies[k]) == b by {
        assert(acts[k] is Wait);
        assert(scout_step(states[k], replies[k], states[k + 1], acts[k]));
        lemma_scout_keeps(states, replies, acts, k);
    }
    assert forall|t: int|
        #![trigger states[t]]
        0 <= t < states.len() && (forall|k: int| 0 <= k < t ==> promise_ballot(#[trigger] replies[k]) == b)
            implies states[t].waitfor@ == aids.difference(promised(replies.take(t), b)) by {
        lemma_scout_waitfor(states, replies, acts, t);
    }
    assert forall|i: int| 0 <= i < acts.len() implies {
        &&& (is_preemption(#[trigger] acts[i]) <==> promise_ballot(replies[i]) != b)
        &&& (is_adoption(acts[i]) <==> (promise_ballot(replies[i]) == b
            && aids.difference(promised(replies.take(i + 1), b)).len() < aids.len() / 2))
    } by {
        lemma_scout_waitfor(states, replies, acts, i);
        assert(scout_step(states[i], replies[i], states[i + 1], acts[i]));
        if promise_ballot(replies[i]) == b {
            lemma_scout_waitfor(states, replies, acts, i + 1);
        }
    }
    assert forall|i: int|
        0 <= i < acts.len() && is_adoption(#[trigger] acts[i]) implies {
            &&& 2 * aids.intersect(promised(replies.take(i + 1), b)).len() > aids.len()
            &&& forall|j: int| 0 <= j < i ==> aids.difference(promised(#[trigger] replies.take(j + 1), b)).len() >= aids.len() / 2
        } by {
        let a = promised(replies.take(i + 1), b);
        let ia = aids.intersect(a);
        vstd::set_lib::lemma_len_subset(ia, aids);
        vstd::set_lib::lemma_set_difference_len(aids, ia);
        assert(aids.intersect(ia) =~= ia);
        assert(aids.difference(ia) =~= aids.difference(a));
        assert forall|j: int| 0 <= j < i implies aids.difference(promised(#[trigger] replies.take(j + 1), b)).len() >= aids.len() / 2 by {
            assert(acts[j] is Wait);
        }
    }
}

/// The pvalues that the answers of `replies` report.
pub open spec fn reported(replies: Seq<Scout>) -> Set<Pvalue> {
    Set::new(|p: Pvalue| exists|k: int| 0 <= k < replies.len() && promised_values(#[trigger] replies[k]).contains(p))
}

/// Over a run of a scout started for ballot `b` and the acceptors `aids`
/// with no pvalues, which stops at its first action other than waiting: it
/// reports an adoption only for its own ballot, when every answer so far is
/// in that ballot and more than half of `aids` have answered, and the set it
/// reports holds only pvalues that the answers reported (it is in fact
/// always empty).
pub proof fn lemma_scout_run(aids: Set<AcceptorId>, states: Seq<ScoutState>, replies: Seq<Scout>, acts: Seq<ScoutAction>)
    requires
        aids.finite(),
        states.len() == replies.len() + 1,
        acts.len() == replies.len(),
        states[0].waitfor@ == aids,
        states[0].len == aids.len(),
        states[0].pvalues@ == Set::<Pvalue>::empty(),
        forall|i: int| 0 <= i < replies.len() ==> scout_step(states[i], #[trigger] replies[i], states[i + 1], acts[i]),
        forall|i: int| 0 <= i < acts.len() - 1 ==> (#[trigger] acts[i]) is Wait,
    ensures
        forall|t: int| 0 <= t < states.len() ==> {
            &&& (#[trigger] states[t]).waitfor@.subset_of(aids)
            &&& states[t].b == states[0].b
            &&& states[t].len == aids.len()
            &&& states[t].pvalues@ == Set::<Pvalue>::empty()
        },
        forall|i: int| 0 <= i < acts.len() ==> ((#[trigger] acts[i]) matches ScoutAction::ToLeader(Leader::Adopted(ab, pv)) ==> {
            &&& ab == states[0].b
            &&& forall|k: int| 0 <= k <= i ==> promise_ballot(#[trigger] replies[k]) == states[0].b
            &&& 2 * aids.difference(states[i + 1].waitfor@).len() > aids.len()
            &&& pv@.subset_of(reported(replies.take(i + 1)))
        }),
    decreases replies.len(),
{
    let n: int = replies.len() as int;
    if n > 0 {
        let ps = states.take(n);
        let pr = replies.take(n - 1);
        let pa = acts.take(n - 1);
        assert forall|i: int| 0 <= i < pr.len() implies scout_step(ps[i], #[trigger] pr[i], ps[i + 1], pa[i]) by {
            assert(scout_step(states[i], replies[i], states[i + 1], acts[i]));
        }
        assert forall|i: int| 0 <= i < pa.len() - 1 implies (#[trigger] pa[i]) is Wait by {
            assert(acts[i] is Wait);
        }
        lemma_scout_run(aids, ps, pr, pa);
        let last = n - 1;
        assert(scout_step(states[last], replies[last], states[n], acts[last]));
        let o = states[last];
        let w = states[n];
        assert(ps[last] == o);
        assert forall|t: int| 0 <= t < states.len() implies {
            &&& (#[trigger] states[t]).waitfor@.subset_of(aids)
            &&& states[t].b == states[0].b
            &&& states[t].len == aids.len()
            &&& states[t].pvalues@ == Set::<Pvalue>::empty()
        } by {
            if t < n {
                assert(ps[t] == states[t]);
            }
        }
        assert forall|i: int| 0 <= i < acts.len() implies ((#[trigger] acts[i]) matches ScoutAction::ToLeader(Leader::Adopted(ab, pv)) ==> {
            &&& ab == states[0].b
            &&& forall|k: int| 0 <= k <= i ==> promise_ballot(#[trigger] replies[k]) == states[0].b
            &&& 2 * aids.difference(states[i + 1].waitfor@).len() > aids.len()
            &&& pv@.subset_of(reported(replies.take(i + 1)))
        }) by {
            if let ScoutAction::ToLeader(Leader::Adopted(ab, pv)) = acts[i] {
                assert(i == last);
                assert forall|k: int| 0 <= k <= i implies promise_ballot(#[trigger] replies[k]) == states[0].b by {
                    assert(scout_step(states[k], replies[k], states[k + 1], acts[k]));
                    if k < n {
                        assert(ps[k] == states[k]);
                    }
                }
                vstd::set_lib::lemma_set_difference_len(aids, w.waitfor@);
                assert(aids.intersect(w.waitfor@) =~= w.waitfor@);
            }
        }
    }
}

// ---------------------------------------------------------------------------
// Choosing among adopted pvalues
// ---------------------------------------------------------------------------

/// `c` is the command chosen for slot `s` among `pvals`: it comes with the
/// highest ballot of the slot and, among the commands of that ballot, is the
/// first one.
pub open spec fn chosen(pvals: Set<Pvalue>, s: Slot, c: Command) -> bool {
    exists|b: Ballot|
        {
            &&& #[trigger] pvals.contains(Pvalue { b, s, c })
            &&& forall|p: Pvalue|
                #[trigger] pvals.contains(p) && p.s == s ==> ballot_le(p.b, b) && (p.b == b ==> p.c
                    == c || command_lt(c, p.c))
        }
}

/// Some pvalue of `pvals` is for slot `s`.
pub open spec fn has_slot(pvals: Set<Pvalue>, s: Slot) -> bool {
    exists|p: Pvalue| #[trigger] pvals.contains(p) && p.s == s
}

/// The slots that some pvalue of `pvals` is for, each mapped to its chosen
/// command.
pub open spec fn max_choice(pvals: Set<Pvalue>) -> Map<Slot, Command> {
    Map::new(|s: Slot| has_slot(pvals, s), |s: Slot| choose|c: Command| chosen(pvals, s, c))
}

/// Some command is chosen for every slot that a finite set of pvalues has.
pub proof fn lemma_chosen_exists(pvals: Set<Pvalue>, s: Slot)
    requires
        pvals.finite(),
        has_slot(pvals, s),
    ensures
        exists|c: Command| chosen(pvals, s, c),
    decreases pvals.len(),
{
    let x = choose|p: Pvalue| #[trigger] pvals.contains(p) && p.s == s;
    let rest = pvals.remove(x);
    assert(pvals =~= rest.insert(x));
    if has_slot(rest, s) {
        lemma_chosen_exists(rest, s);
        let c0 = choose|c: Command| chosen(rest, s, c);
        let b0 = choose|b: Ballot|
            {
                &&& #[trigger] rest.contains(Pvalue { b, s, c: c0 })
                &&& forall|p: Pvalue|
                    #[trigger] rest.contains(p) && p.s == s ==> ballot_le(p.b, b) && (p.b == b ==> p.c
                        == c0 || command_lt(c0, p.c))
            };
        lemma_ballot_order(b0, x.b, b0);
        <Command as Ordered>::lemma_strict_total_order(c0, x.c, c0);
        if ballot_lt(b0, x.b) || (b0 == x.b && command_lt(x.c, c0)) {
            assert(x == Pvalue { b: x.b, s, c: x.c });
            assert forall|p: Pvalue| #[trigger] pvals.contains(p) && p.s == s implies ballot_le(p.b, x.b) && (p.b == x.b
                ==> p.c == x.c || command_lt(x.c, p.c)) by {
                if p != x {
                    assert(rest.contains(p));
                    lemma_ballot_order(p.b, b0, x.b);
                    <Command as Ordered>::lemma_strict_total_order(x.c, c0, p.c);
                }
            }
            assert(chosen(pvals, s, x.c));
        } else {
            assert forall|p: Pvalue| #[trigger] pvals.contains(p) && p.s == s implies ballot_le(p.b, b0) && (p.b == b0
                ==> p.c == c0 || command_lt(c0, p.c)) by {
                if p != x {
                    assert(rest.contains(p));
                } else {
                    assert(p == Pvalue { b: x.b, s, c: x.c });
                    if p.b == b0 && p.c != c0 {
                        assert(!command_lt(x.c, c0));
                    }
                }
            }
            assert(pvals.contains(Pvalue { b: b0, s, c: c0 }));
            assert(chosen(pvals, s, c0));
        }
    } else {
        assert forall|p: Pvalue| #[trigger] pvals.contains(p) && p.s == s implies p == x by {
            if p != x {
                assert(rest.contains(p));
            }
        }
        assert(x == Pvalue { b: x.b, s, c: x.c });
        assert(chosen(pvals, s, x.c));
    }
}

/// At most one command is chosen for a slot.
pub proof fn lemma_chosen_unique(pvals: Set<Pvalue>, s: Slot, c1: Command, c2: Command)
    requires
        chosen(pvals, s, c1),
        chosen(pvals, s, c2),
    ensures
        c1 == c2,
{
    let b1 = choose|b: Ballot|
        {
            &&& #[trigger] pvals.contains(Pvalue { b, s, c: c1 })
            &&& forall|p: Pvalue|
                #[trigger] pvals.contains(p) && p.s == s ==> ballot_le(p.b, b) && (p.b == b ==> p.c
                    == c1 || command_lt(c1, p.c))
        };
    let b2 = choose|b: Ballot|
        {
            &&& #[trigger] pvals.contains(Pvalue { b, s, c: c2 })
            &&& forall|p: Pvalue|
                #[trigger] pvals.contains(p) && p.s == s ==> ballot_le(p.b, b) && (p.b == b ==> p.c
                    == c2 || command_lt(c2, p.c))
        };
    assert(pvals.contains(Pvalue { b: b1, s, c: c1 }));
    assert(pvals.contains(Pvalue { b: b2, s, c: c2 }));
    lemma_ballot_order(b1, b2, b1);
    Command::lemma_strict_total_order(c1, c2, c1);
}

/// For each slot that some pvalue is for, the command of the pvalue with the
/// highest ballot (the first such command where several share that ballot).
pub fn max(pvals: PvalueSet) -> (r: BTreeMap<Slot, Command>)
    ensures
        forall|s: Slot| #[trigger] r@.contains_key(s) <==> has_slot(pvals@, s),
        forall|s: Slot| #[trigger] r@.contains_key(s) ==> chosen(pvals@, s, r@[s]),
        r@ == max_choice(pvals@),
{
    let mut m: BTreeMap<Slot, Ballot> = BTreeMap::new();
    let mut n: BTreeMap<Slot, Command> = BTreeMap::new();
    let len = pvals.len();
    let ghost elems = pvals.elems();
    let mut i: usize = 0;
    while i < len
        invariant
            len == elems.len(),
            elems == pvals.elems(),
            strictly_sorted(elems),
            i <= len,
            m@.dom() == n@.dom(),
            forall|s: Slot| #[trigger] n@.contains_key(s) <==> has_slot(elems.take(i as int).to_set(), s),
            forall|s: Slot| #[trigger] n@.contains_key(s) ==> {
                let q = Pvalue { b: m@[s], s, c: n@[s] };
                &&& elems.take(i as int).to_set().contains(q)
                &&& forall|p: Pvalue| #[trigger] elems.take(i as int).to_set().contains(p) && p.s == s
                    ==> ballot_le(p.b, q.b) && (p.b == q.b ==> p.c == q.c || command_lt(q.c, p.c))
            },
        decreases len - i,
    {
        let pval = pvals.get(i);
        let Pvalue { b, s, c } = pval;
        let ghost ip1: int = i + 1;
        let ghost pre = elems.take(i as int).to_set();
        let ghost post = elems.take(ip1).to_set();
        proof {
            assert(post =~= pre.insert(pval)) by {
                assert(elems.take(ip1) =~= elems.take(i as int).push(pval));
                assert forall|x: Pvalue| post.contains(x) <==> pre.insert(pval).contains(x) by {
                    if post.contains(x) {
                        let j = choose|j: int| 0 <= j < ip1 && elems.take(ip1)[j] == x;
                        if j < i {
                            assert(elems.take(i as int)[j] == x);
                        }
                    }
                    if pre.contains(x) {
                        let j = choose|j: int| 0 <= j < i && elems.take(i as int)[j] == x;
                        assert(elems.take(ip1)[j] == x);
                    }
                    if x == pval {
                        assert(elems.take(ip1)[i as int] == x);
                    }
                }
            }
            // Every pvalue seen so far comes before this one.
            assert forall|p: Pvalue| pre.contains(p) implies pvalue_lt(p, pval) by {
                let j = choose|j: int| 0 <= j < i && elems.take(i as int)[j] == p;
                assert(elems[j] == p);
            }
        }
        let ghost old_n = n@;
        match m.get(&s) {
            Some(b0) => {
                let b0 = *b0;
                if b > b0 {
                    m.insert(s, b);
                    n.insert(s, c);
                }
            },
            None => {
                m.insert(s, b);
                n.insert(s, c);
            },
        }
        proof {
            assert forall|t: Slot| #[trigger] n@.contains_key(t) <==> has_slot(post, t) by {
                if t == s {
                    assert(post.contains(pval));
                } else {
                    assert(n@.contains_key(t) == old_n.contains_key(t));
                    if has_slot(post, t) {
                        let p = choose|p: Pvalue| #[trigger] post.contains(p) && p.s == t;
                        assert(pre.contains(p));
                    }
                    if has_slot(pre, t) {
                        let p = choose|p: Pvalue| #[trigger] pre.contains(p) && p.s == t;
                        assert(post.contains(p));
                    }
                }
            }
            assert forall|t: Slot| #[trigger] n@.contains_key(t) implies {
                let q = Pvalue { b: m@[t], s: t, c: n@[t] };
                &&& post.contains(q)
                &&& forall|p: Pvalue| #[trigger] post.contains(p) && p.s == t
                    ==> ballot_le(p.b, q.b) && (p.b == q.b ==> p.c == q.c || command_lt(q.c, p.c))
            } by {
                let q = Pvalue { b: m@[t], s: t, c: n@[t] };
                assert forall|p: Pvalue| #[trigger] post.contains(p) && p.s == t
                    implies ballot_le(p.b, q.b) && (p.b == q.b ==> p.c == q.c || command_lt(q.c, p.c)) by {
                    if p != pval {
                        assert(pre.contains(p));
                    }
                    if t == s && p != pval && q == pval {
                        assert(pvalue_lt(p, pval));
                    }
                    if t == s && p == pval && q != pval {
                        assert(pre.contains(q));
                        assert(pvalue_lt(q, pval));
                    }
                }
            }
        }
        i = i + 1;
    }
    proof {
        assert(elems.take(len as int) =~= elems);
        assert(pvals@ == elems.to_set());
        assert forall|s: Slot| #[trigger] n@.contains_key(s) implies n@[s] == max_choice(pvals@)[s] by {
            let c = choose|c: Command| chosen(pvals@, s, c);
            assert(chosen(pvals@, s, n@[s]));
            lemma_chosen_unique(pvals@, s, c, n@[s]);
        }
        assert(n@ =~= max_choice(pvals@));
    }
    n
}


/// The slot `k` is among the first `n` entries of a listing.
pub open spec fn listed(entries: Seq<(&Slot, &Command)>, n: int, k: Slot) -> bool {
    exists|j: int| 0 <= j < n && *(#[trigger] entries[j]).0 == k
}

/// Writes every entry of `new` into `current`, overwriting what `current`
/// held for the same slot.
pub fn update(current: &mut BTreeMap<Slot, Command>, new: BTreeMap<Slot, Command>)
    ensures
        final(current)@ == old(current)@.union_prefer_right(new@),
{
    let ghost start = current@;
    let ghost entries = new.iter().remaining();
    for (s, c) in it: new.iter()
        invariant
            it.seq() == entries,
            forall|j: int| 0 <= j < entries.len() ==> new@.contains_key(*(#[trigger] entries[j]).0) && new@[*entries[j].0] == *entries[j].1,
            forall|k: Slot| #[trigger] new@.contains_key(k) ==> exists|j: int| 0 <= j < entries.len() && *(#[trigger] entries[j]).0 == k,
            forall|k: Slot| #[trigger] current@.contains_key(k) <==> start.contains_key(k) || listed(entries, it.index(), k),
            forall|k: Slot| #[trigger] current@.contains_key(k) ==> current@[k] == if listed(entries, it.index(), k) {
                new@[k]
            } else {
                start[k]
            },
    {
        current.insert(*s, *c);
    }
    proof {
        assert forall|k: Slot| #[trigger] new@.contains_key(k) implies listed(entries, entries.len() as int, k) by {
            let j = choose|j: int| 0 <= j < entries.len() && *(#[trigger] entries[j]).0 == k;
        }
        assert forall|k: Slot| listed(entries, entries.len() as int, k) implies #[trigger] new@.contains_key(k) by {
            let j = choose|j: int| 0 <= j < entries.len() && *(#[trigger] entries[j]).0 == k;
        }
        assert(current@ =~= start.union_prefer_right(new@));
    }
}


// ---------------------------------------------------------------------------
// Leader
// ---------------------------------------------------------------------------

/// `v` lists every proposal of `proposals`, by increasing slot, as a pvalue
/// in ballot `b`.
pub open spec fn lists_proposals(v: Seq<Pvalue>, proposals: Map<Slot, Command>, b: Ballot) -> bool {
    &&& v.len() == proposals.dom().len()
    &&& forall|j: int| 0 <= j < v.len() ==> (#[trigger] v[j]).b == b && proposals.contains_key(v[j].s)
        && proposals[v[j].s] == v[j].c
    &&& forall|i: int, j: int| 0 <= i < j < v.len() ==> (#[trigger] v[i]).s < (#[trigger] v[j]).s
}

/// The pvalues, in ballot `b`, of all the proposals, by increasing slot.
pub fn commanders_for(proposals: &BTreeMap<Slot, Command>, b: Ballot) -> (v: Vec<Pvalue>)
    ensures
        lists_proposals(v@, proposals@, b),
{
    let mut v: Vec<Pvalue> = Vec::new();
    let iter = proposals.iter();
    let ghost entries = iter.remaining();
    proof {
        let ks = entries.map_values(|kv: (&Slot, &Command)| *kv.0);
        assert(vstd::std_specs::btree::increasing_seq(ks));
        assert forall|i: int, j: int| 0 <= i < j < entries.len() implies *(#[trigger] entries[i]).0 < *(#[trigger] entries[j]).0 by {
            assert(ks[i] == *entries[i].0);
            assert(ks[j] == *entries[j].0);
            assert(ks[i].cmp_spec(&ks[j]) is Less);
        }
    }
    for (s, c) in it: iter
        invariant
            it.seq() == entries,
            entries.len() == proposals@.dom().len(),
            forall|j: int| 0 <= j < entries.len() ==> proposals@.contains_key(*(#[trigger] entries[j]).0)
                && proposals@[*entries[j].0] == *entries[j].1,
            forall|i: int, j: int| 0 <= i < j < entries.len() ==> *(#[trigger] entries[i]).0 < *(#[trigger] entries[j]).0,
            v@.len() == it.index(),
            forall|j: int| 0 <= j < v@.len() ==> #[trigger] v@[j] == (Pvalue { b, s: *entries[j].0, c: *entries[j].1 }),
    {
        v.push(Pvalue { b, s: *s, c: *c });
    }
    v
}

/// What a leader remembers: whether its ballot is adopted, its ballot, and
/// the command it proposes for each slot.
pub struct LeaderState {
    pub id: LeaderId,
    pub active: bool,
    pub ballot_num: Ballot,
    pub proposals: BTreeMap<Slot, Command>,
}

/// What a leader does after a message.
pub enum LeaderAction {
    /// Nothing.
    Nothing,
    /// Start a scout for this ballot.
    SpawnScout(Ballot),
    /// Start one commander for each of these pvalues.
    SpawnCommanders(Vec<Pvalue>),
}

/// One step of a leader, by message: what the new state and the action are.
pub open spec fn leader_step(old: LeaderState, m: Leader, new: LeaderState, a: LeaderAction) -> bool {
    &&& new.id == old.id
    &&& match m {
            Leader::Propose(p) => {
                &&& new.active == old.active
                &&& new.ballot_num == old.ballot_num
                &&& if old.proposals@.contains_key(p.s) {
                    &&& new.proposals@ == old.proposals@
                    &&& a is Nothing
                } else {
                    &&& new.proposals@ == old.proposals@.insert(p.s, p.c)
                    &&& if old.active {
                        a matches LeaderAction::SpawnCommanders(v) && v@ == seq![Pvalue { b: old.ballot_num, s: p.s, c: p.c }]
                    } else {
                        a is Nothing
                    }
                }
            },
            Leader::Adopted(_, pvals) => {
                &&& new.active
                &&& new.ballot_num == old.ballot_num
                &&& new.proposals@ == old.proposals@.union_prefer_right(max_choice(pvals@))
                &&& a matches LeaderAction::SpawnCommanders(v) && lists_proposals(v@, new.proposals@, old.ballot_num)
            },
            Leader::Preempted(b0) => if ballot_lt(old.ballot_num, b0) {
                &&& !new.active
                &&& new.ballot_num == Ballot::N((b0->0 + 1) as u8, old.id)
                &&& new.proposals@ == old.proposals@
                &&& a == LeaderAction::SpawnScout(new.ballot_num)
            } else {
                &&& new.active == old.active
                &&& new.ballot_num == old.ballot_num
                &&& new.proposals@ == old.proposals@
                &&& a is Nothing
            },
        }
}

impl LeaderState {
    /// The leader's ballot is one of its own.
    pub open spec fn owns_ballot(&self) -> bool {
        self.ballot_num matches Ballot::N(_, l) && l == self.id
    }

    /// A fresh leader: not active, in its first ballot, with no proposals.
    /// It starts by running a scout for that ballot.
    pub fn new(id: LeaderId) -> (s: LeaderState)
        ensures
            s.id == id,
            !s.active,
            s.ballot_num == Ballot::N(0, id),
            s.proposals@ == Map::<Slot, Command>::empty(),
            s.owns_ballot(),
    {
        LeaderState { id, active: false, ballot_num: Ballot::make(id), proposals: BTreeMap::new() }
    }

    /// Handles one message.
    ///
    /// A proposal for a free slot is recorded and, while the leader is
    /// active, handed to a commander. An adoption overwrites the proposals
    /// with the commands chosen among the adopted pvalues, hands every
    /// proposal to a commander and makes the leader active. A preemption by
    /// a later ballot makes the leader inactive and starts a scout for the
    /// next round; any other preemption is ignored.
    pub fn step(&mut self, m: Leader) -> (a: LeaderAction)
        requires
            m matches Leader::Preempted(b0) ==> (ballot_lt(old(self).ballot_num, b0) ==> b0->0 < u8::MAX),
        ensures
            final(self).id == old(self).id,
            ballot_le(old(self).ballot_num, final(self).ballot_num),
            old(self).proposals@.dom().subset_of(final(self).proposals@.dom()),
            old(self).owns_ballot() ==> final(self).owns_ballot(),
            a matches LeaderAction::SpawnScout(b) ==> ballot_lt(old(self).ballot_num, b),
            leader_step(*old(self), m, *final(self), a),
    {
        match m {
            Leader::Propose(Proposal { s, c }) => {
                if self.proposals.contains_key(&s) {
                    LeaderAction::Nothing
                } else {
                    self.proposals.insert(s, c);
                    if self.active {
                        let v = Pvalue { b: self.ballot_num, s: s, c: c };
                        let mut cmds: Vec<Pvalue> = Vec::new();
                        cmds.push(v);
                        LeaderAction::SpawnCommanders(cmds)
                    } else {
                        LeaderAction::Nothing
                    }
                }
            },
            Leader::Adopted(_b, pvals) => {
                let new = max(pvals);
                update(&mut self.proposals, new);
                let cmds = commanders_for(&self.proposals, self.ballot_num);
                self.active = true;
                LeaderAction::SpawnCommanders(cmds)
            },
            Leader::Preempted(b0) => {
                if b0 > self.ballot_num {
                    self.active = false;
                    self.ballot_num = b0.incr(&self.id);
                    LeaderAction::SpawnScout(self.ballot_num)
                } else {
                    LeaderAction::Nothing
                }
            },
        }
    }
}


/// A leader's activity changes only by an adoption, which makes it active,
/// or by a preemption with a later ballot, which makes it inactive; and its
/// ballot changes only by such a preemption, to a ballot of its own that
/// comes after the preempting one.
pub proof fn lemma_leader_changes(old: LeaderState, m: Leader, new: LeaderState, a: LeaderAction)
    requires
        leader_step(old, m, new, a),
        m matches Leader::Preempted(b0) ==> (ballot_lt(old.ballot_num, b0) ==> b0->0 < u8::MAX),
    ensures
        new.id == old.id,
        new.active != old.active ==> ((m is Adopted && new.active) || (m matches Leader::Preempted(b0) && ballot_lt(
            old.ballot_num,
            b0,
        ) && !new.active)),
        new.ballot_num != old.ballot_num ==> (m matches Leader::Preempted(b0) && ballot_lt(old.ballot_num, b0)
            && ballot_lt(b0, new.ballot_num)),
        new.ballot_num != old.ballot_num ==> (new.ballot_num matches Ballot::N(_, l) && l == old.id),
        a is SpawnScout ==> m is Preempted && !new.active,
{
    if let Leader::Preempted(b0) = m {
        if ballot_lt(old.ballot_num, b0) {
            crate::messages::lemma_ballot_progress(b0, old.id);
        }
    }
}

/// A preemption by a ballot that is not later than the leader's changes
/// nothing and does nothing.
pub proof fn lemma_leader_stale_preemption(old: LeaderState, b0: Ballot, new: LeaderState, a: LeaderAction)
    requires
        leader_step(old, Leader::Preempted(b0), new, a),
        !ballot_lt(old.ballot_num, b0),
    ensures
        new.id == old.id,
        new.active == old.active,
        new.ballot_num == old.ballot_num,
        new.proposals@ == old.proposals@,
        a is Nothing,
{
}

/// A proposal is recorded only for a slot without one, leaving every other
/// slot, the ballot and the activity as they were; a commander is started,
/// for the leader's ballot and exactly that proposal, exactly when the slot
/// was free and the leader is active.
pub proof fn lemma_leader_propose(old: LeaderState, p: Proposal, new: LeaderState, a: LeaderAction)
    requires
        leader_step(old, Leader::Propose(p), new, a),
    ensures
        new.active == old.active,
        new.ballot_num == old.ballot_num,
        new.proposals@.contains_key(p.s),
        new.proposals@[p.s] == (if old.proposals@.contains_key(p.s) { old.proposals@[p.s] } else { p.c }),
        forall|s: Slot| s != p.s ==> (#[trigger] new.proposals@.contains_key(s) <==> old.proposals@.contains_key(s)),
        forall|s: Slot| s != p.s && #[trigger] new.proposals@.contains_key(s) ==> new.proposals@[s] == old.proposals@[s],
        (a is SpawnCommanders) <==> (old.active && !old.proposals@.contains_key(p.s)),
        a matches LeaderAction::SpawnCommanders(v) ==> v@.len() == 1 && v@[0] == (Pvalue { b: old.ballot_num, s: p.s, c: p.c }),
{
}

/// An adoption makes the leader active and keeps its ballot; for every slot
/// that an adopted pvalue is for, the proposal becomes the command of the
/// highest-ballot pvalue for it (the first such command among equal
/// ballots); every other proposal stays; and a commander is started for
/// every proposal, in the leader's ballot.
pub proof fn lemma_leader_adopted(old: LeaderState, b: Ballot, pvals: PvalueSet, new: LeaderState, a: LeaderAction)
    requires
        leader_step(old, Leader::Adopted(b, pvals), new, a),
    ensures
        new.active,
        new.ballot_num == old.ballot_num,
        forall|s: Slot| #[trigger] new.proposals@.contains_key(s) <==> (old.proposals@.contains_key(s) || has_slot(pvals@, s)),
        forall|s: Slot| has_slot(pvals@, s) ==> exists|hb: Ballot| {
            &&& #[trigger] pvals@.contains(Pvalue { b: hb, s, c: new.proposals@[s] })
            &&& forall|p: Pvalue| #[trigger] pvals@.contains(p) && p.s == s ==> (p.b == hb || ballot_lt(p.b, hb)) && (p.b == hb
                ==> p.c == new.proposals@[s] || command_lt(new.proposals@[s], p.c))
        },
        forall|s: Slot| !has_slot(pvals@, s) && #[trigger] old.proposals@.contains_key(s) ==> new.proposals@[s] == old.proposals@[s],
        a matches LeaderAction::SpawnCommanders(v) && v@.len() == new.proposals@.dom().len() && forall|j: int|
            0 <= j < v@.len() ==> (#[trigger] v@[j]).b == old.ballot_num && new.proposals@.contains_key(v@[j].s)
                && new.proposals@[v@[j].s] == v@[j].c,
{
    assert forall|s: Slot| has_slot(pvals@, s) implies exists|hb: Ballot| {
            &&& #[trigger] pvals@.contains(Pvalue { b: hb, s, c: new.proposals@[s] })
            &&& forall|p: Pvalue| #[trigger] pvals@.contains(p) && p.s == s ==> (p.b == hb || ballot_lt(p.b, hb)) && (p.b == hb
                ==> p.c == new.proposals@[s] || command_lt(new.proposals@[s], p.c))
        } by {
        vstd::seq_lib::seq_to_set_is_finite(pvals.elems());
        lemma_chosen_exists(pvals@, s);
        assert(chosen(pvals@, s, new.proposals@[s]));
    }
}

/// Over a run of a leader that starts with a ballot of its own (as `new`
/// makes it), when no preemption asks for a round past the last one: every
/// ballot stays its own; every scout it starts is for a ballot of its own,
/// later than the first one and later than every scout started before it;
/// and every commander it starts carries the leader's ballot of the moment.
pub proof fn lemma_leader_run(states: Seq<LeaderState>, msgs: Seq<Leader>, acts: Seq<LeaderAction>)
    requires
        states.len() == msgs.len() + 1,
        acts.len() == msgs.len(),
        states[0].owns_ballot(),
        forall|i: int| 0 <= i < msgs.len() ==> leader_step(states[i], #[trigger] msgs[i], states[i + 1], acts[i]),
        forall|i: int| 0 <= i < msgs.len() ==> ((#[trigger] msgs[i]) matches Leader::Preempted(b0) ==> (ballot_lt(
            states[i].ballot_num,
            b0,
        ) ==> b0->0 < u8::MAX)),
    ensures
        forall|i: int| 0 <= i < states.len() ==> (#[trigger] states[i]).id == states[0].id && states[i].owns_ballot(),
        forall|i: int, j: int| 0 <= i <= j < states.len() ==> ballot_le((#[trigger] states[i]).ballot_num, (#[trigger] states[j]).ballot_num),
        forall|i: int| 0 <= i < acts.len() ==> ((#[trigger] acts[i]) matches LeaderAction::SpawnScout(b) ==> (b matches Ballot::N(_, l)
            && l == states[0].id && ballot_lt(states[0].ballot_num, b) && b == states[i + 1].ballot_num)),
        forall|i: int, j: int| 0 <= i < j < acts.len() ==> ((#[trigger] acts[i]) matches LeaderAction::SpawnScout(b1) ==> ((
            #[trigger] acts[j]) matches LeaderAction::SpawnScout(b2) ==> ballot_lt(b1, b2))),
        forall|i: int| 0 <= i < acts.len() ==> ((#[trigger] acts[i]) matches LeaderAction::SpawnCommanders(v) ==> forall|k: int|
            0 <= k < v@.len() ==> (#[trigger] v@[k]).b == states[i].ballot_num),
    decreases msgs.len(),
{
    let n: int = msgs.len() as int;
    if n > 0 {
        let ps = states.take(n);
        let pm = msgs.take(n - 1);
        let pa = acts.take(n - 1);
        assert forall|i: int| 0 <= i < pm.len() implies leader_step(ps[i], #[trigger] pm[i], ps[i + 1], pa[i]) by {
            assert(leader_step(states[i], msgs[i], states[i + 1], acts[i]));
        }
        assert forall|i: int| 0 <= i < pm.len() implies ((#[trigger] pm[i]) matches Leader::Preempted(b0) ==> (ballot_lt(
            ps[i].ballot_num,
            b0,
        ) ==> b0->0 < u8::MAX)) by {
            assert(msgs[i] == pm[i]);
        }
        lemma_leader_run(ps, pm, pa);
        let last = n - 1;
        assert(leader_step(states[last], msgs[last], states[n], acts[last]));
        let o = states[last];
        let w = states[n];
        assert(ps[last] == o);
        assert(o.owns_ballot() && o.id == states[0].id);
        assert(w.owns_ballot() && w.id == o.id && ballot_le(o.ballot_num, w.ballot_num)) by {
            if let Leader::Preempted(b0) = msgs[last] {
                if ballot_lt(o.ballot_num, b0) {
                    lemma_ballot_order(o.ballot_num, b0, w.ballot_num);
                }
            }
        }
        assert(acts[last] matches LeaderAction::SpawnScout(b) ==> b == w.ballot_num && ballot_lt(o.ballot_num, b)) by {
            if let Leader::Preempted(b0) = msgs[last] {
                if ballot_lt(o.ballot_num, b0) {
                    lemma_ballot_order(o.ballot_num, b0, w.ballot_num);
                }
            }
        }
        assert forall|i: int| 0 <= i < states.len() implies (#[trigger] states[i]).id == states[0].id && states[i].owns_ballot() by {
            if i < n {
                assert(ps[i] == states[i]);
            }
        }
        assert forall|i: int, j: int| 0 <= i <= j < states.len() implies ballot_le((#[trigger] states[i]).ballot_num, (#[trigger] states[j]).ballot_num) by {
            if j < n {
                assert(ps[i] == states[i] && ps[j] == states[j]);
            } else if i < n {
                assert(ps[i] == states[i]);
                assert(ballot_le(states[i].ballot_num, o.ballot_num));
                lemma_ballot_order(states[i].ballot_num, o.ballot_num, w.ballot_num);
            }
        }
        assert forall|i: int| 0 <= i < acts.len() implies ((#[trigger] acts[i]) matches LeaderAction::SpawnScout(b) ==> (b matches Ballot::N(_, l)
            && l == states[0].id && ballot_lt(states[0].ballot_num, b) && b == states[i + 1].ballot_num)) by {
            if i < last {
                assert(pa[i] == acts[i] && ps[i + 1] == states[i + 1]);
            } else if let LeaderAction::SpawnScout(b) = acts[i] {
                assert(ballot_le(states[0].ballot_num, o.ballot_num));
                lemma_ballot_order(states[0].ballot_num, o.ballot_num, b);
            }
        }
        assert forall|i: int, j: int| 0 <= i < j < acts.len() implies ((#[trigger] acts[i]) matches LeaderAction::SpawnScout(b1) ==> ((
            #[trigger] acts[j]) matches LeaderAction::SpawnScout(b2) ==> ballot_lt(b1, b2))) by {
            if j < last {
                assert(pa[i] == acts[i] && pa[j] == acts[j]);
            } else if let LeaderAction::SpawnScout(b1) = acts[i] {
                if let LeaderAction::SpawnScout(b2) = acts[j] {
                    assert(pa[i] == acts[i] && ps[i + 1] == states[i + 1]);
                    assert(b1 == states[i + 1].ballot_num);
                    assert(ballot_le(states[i + 1].ballot_num, o.ballot_num));
                    lemma_ballot_order(b1, o.ballot_num, b2);
                }
            }
        }
        assert forall|i: int| 0 <= i < acts.len() implies ((#[trigger] acts[i]) matches LeaderAction::SpawnCommanders(v) ==> forall|k: int|
            0 <= k < v@.len() ==> (#[trigger] v@[k]).b == states[i].ballot_num) by {
            if i < last {
                assert(pa[i] == acts[i] && ps[i] == states[i]);
            } else if let LeaderAction::SpawnCommanders(v) = acts[i] {
                assert forall|k: int| 0 <= k < v@.len() implies (#[trigger] v@[k]).b == states[i].ballot_num by {
                    if let Leader::Propose(p) = msgs[last] {
                        assert(v@[k] == v@[0]);
                    }
                }
            }
        }
    }
}

} // verus!
