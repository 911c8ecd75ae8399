use std::sync::mpsc::Sender;
use vstd::prelude::*;

use crate::messages::{ballot_le, ballot_lt, lemma_ballot_order, Acceptor, AcceptorId, Ballot, Commander, Pvalue, PvalueSet, Scout};
use crate::sorted_set::SortedSet;

verus! {

/// What an acceptor remembers: the highest ballot it has promised and the
/// pvalues it has accepted.
pub struct AcceptorState {
    pub id: AcceptorId,
    pub ballot_num: Ballot,
    pub accepted: PvalueSet,
}

/// What an acceptor answers with.
pub enum AcceptorReply {
    /// Send this phase-one answer to the scout on this channel.
    ToScout(Sender<Scout>, Scout),
    /// Send this phase-two answer to the commander on this channel.
    ToCommander(Sender<Commander>, Commander),
    /// Nothing to send.
    Silent,
}

/// One step of an acceptor, by message: what the new state and the answer
/// are.
pub open spec fn acceptor_step(old: AcceptorState, m: Acceptor, new: AcceptorState, reply: AcceptorReply) -> bool {
    &&& new.id == old.id
    &&& match m {
            Acceptor::P1A(tx, b) => {
                &&& new.ballot_num == (if ballot_lt(old.ballot_num, b) {
                    b
                } else {
                    old.ballot_num
                })
                &&& new.accepted@ == old.accepted@
                &&& reply matches AcceptorReply::ToScout(t, Scout::P1B(i, nb, vs))
                &&& t == tx
                &&& i == old.id
                &&& nb == new.ballot_num
                &&& vs@ == new.accepted@
            },
            Acceptor::P2A(tx, pval) => {
                &&& new.ballot_num == old.ballot_num
                &&& new.accepted@ == (if pval.b == old.ballot_num {
                    old.accepted@.insert(pval)
                } else {
                    old.accepted@
                })
                &&& reply matches AcceptorReply::ToCommander(t, Commander::P2B(i, nb))
                &&& t == tx
                &&& i == old.id
                &&& nb == old.ballot_num
            },
            Acceptor::Test => {
                &&& new.ballot_num == old.ballot_num
                &&& new.accepted@ == old.accepted@
                &&& reply is Silent
            },
        }
}

impl AcceptorState {
    /// Every accepted pvalue was accepted in a ballot no later than the
    /// promised one.
    pub open spec fn inv(&self) -> bool {
        forall|p: Pvalue| #[trigger] self.accepted@.contains(p) ==> ballot_le(p.b, self.ballot_num)
    }

    /// A fresh acceptor: it has promised nothing and accepted nothing.
    pub fn new(id: AcceptorId) -> (s: AcceptorState)
        ensures
            s.id == id,
            s.ballot_num == Ballot::Bot,
            s.accepted@ == Set::<Pvalue>::empty(),
            s.inv(),
    {
        AcceptorState { id, ballot_num: Ballot::Bot, accepted: SortedSet::new() }
    }

    /// Handles one message.
    ///
    /// A phase-one request raises the promise to its ballot when that ballot
    /// is later, and is answered with the promise and the accepted pvalues.
    /// A phase-two request is accepted when its ballot is the promised one,
    /// and is answered with the promise. A test message changes nothing.
    pub fn step(&mut self, m: Acceptor) -> (reply: AcceptorReply)
        ensures
            final(self).id == old(self).id,
            old(self).inv() ==> final(self).inv(),
            ballot_le(old(self).ballot_num, final(self).ballot_num),
            old(self).accepted@.subset_of(final(self).accepted@),
            acceptor_step(*old(self), m, *final(self), reply),
    {
        match m {
            Acceptor::P1A(tx, b) => {
                if b > self.ballot_num {
                    self.ballot_num = b;
                }
                AcceptorReply::ToScout(tx, Scout::P1B(self.id, self.ballot_num, self.accepted.copy()))
            },
            Acceptor::P2A(tx, pval) => {
                if pval.b == self.ballot_num {
                    self.accepted.insert(pval);
                }
                AcceptorReply::ToCommander(tx, Commander::P2B(self.id, self.ballot_num))
            },
            Acceptor::Test => AcceptorReply::Silent,
        }
    }
}


/// What a phase-two request does to an acceptor: its promise never changes,
/// the pvalue is accepted exactly when its ballot is the promised one,
/// nothing else is accepted, and the answer carries the acceptor's id and the
/// promise it had before the request.
pub proof fn lemma_acceptor_phase_two(old: AcceptorState, tx: Sender<Commander>, pval: Pvalue, new: AcceptorState, reply: AcceptorReply)
    requires
        acceptor_step(old, Acceptor::P2A(tx, pval), new, reply),
    ensures
        new.ballot_num == old.ballot_num,
        new.accepted@.contains(pval) <==> (pval.b == old.ballot_num || old.accepted@.contains(pval)),
        forall|p: Pvalue| p != pval ==> (#[trigger] new.accepted@.contains(p) <==> old.accepted@.contains(p)),
        reply_ballot(reply) == Some(old.ballot_num),
        reply matches AcceptorReply::ToCommander(t, Commander::P2B(i, _)) && t == tx && i == old.id,
{
}

/// What a phase-one request does to an acceptor: the promise becomes the
/// later of the old promise and the request's ballot, nothing is accepted,
/// and the answer carries the acceptor's id, the new promise and exactly the
/// accepted pvalues.
pub proof fn lemma_acceptor_phase_one(old: AcceptorState, tx: Sender<Scout>, b: Ballot, new: AcceptorState, reply: AcceptorReply)
    requires
        acceptor_step(old, Acceptor::P1A(tx, b), new, reply),
    ensures
        ballot_le(old.ballot_num, new.ballot_num),
        ballot_le(b, new.ballot_num),
        new.ballot_num == old.ballot_num || new.ballot_num == b,
        new.accepted@ == old.accepted@,
        reply_ballot(reply) == Some(new.ballot_num),
        reply matches AcceptorReply::ToScout(t, Scout::P1B(i, _, vs)) && t == tx && i == old.id && vs@ == old.accepted@,
{
    lemma_ballot_order(old.ballot_num, b, old.ballot_num);
}

/// A test message changes nothing and is not answered.
pub proof fn lemma_acceptor_test(old: AcceptorState, new: AcceptorState, reply: AcceptorReply)
    requires
        acceptor_step(old, Acceptor::Test, new, reply),
    ensures
        new.id == old.id,
        new.ballot_num == old.ballot_num,
        new.accepted@ == old.accepted@,
        reply_ballot(reply) is None,
{
}

/// The ballot an answer carries, if it is one.
pub open spec fn reply_ballot(reply: AcceptorReply) -> Option<Ballot> {
    match reply {
        AcceptorReply::ToScout(_, Scout::P1B(_, b, _)) => Some(b),
        AcceptorReply::ToCommander(_, Commander::P2B(_, b)) => Some(b),
        AcceptorReply::Silent => None,
    }
}

/// Over a run of an acceptor that starts in its invariant: every state keeps
/// the invariant and no earlier promise; the ballots its successive answers
/// carry never decrease; and every phase-one answer lists only pvalues
/// accepted in ballots no later than the promise it carries.
pub proof fn lemma_acceptor_run(states: Seq<AcceptorState>, msgs: Seq<Acceptor>, replies: Seq<AcceptorReply>)
    requires
        states.len() == msgs.len() + 1,
        replies.len() == msgs.len(),
        states[0].inv(),
        forall|i: int| 0 <= i < msgs.len() ==> acceptor_step(states[i], #[trigger] msgs[i], states[i + 1], replies[i]),
    ensures
        forall|i: int| 0 <= i < states.len() ==> (#[trigger] states[i]).inv(),
        forall|i: int, j: int| 0 <= i <= j < states.len() ==> ballot_le((#[trigger] states[i]).ballot_num, (#[trigger] states[j]).ballot_num),
        forall|i: int, j: int|
            0 <= i < j < replies.len() && (#[trigger] reply_ballot(replies[i])) is Some && (#[trigger] reply_ballot(replies[j])) is Some
                ==> ballot_le(reply_ballot(replies[i])->0, reply_ballot(replies[j])->0),
        forall|i: int| 0 <= i < replies.len() ==> (#[trigger] replies[i] matches AcceptorReply::ToScout(_, Scout::P1B(_, nb, vs))
            ==> forall|p: Pvalue| #[trigger] vs@.contains(p) ==> ballot_le(p.b, nb)),
    decreases msgs.len(),
{
    let n: int = msgs.len() as int;
    if n > 0 {
        let ps = states.take(n);
        let pm = msgs.take(n - 1);
        let pr = replies.take(n - 1);
        assert forall|i: int| 0 <= i < pm.len() implies acceptor_step(ps[i], #[trigger] pm[i], ps[i + 1], pr[i]) by {
            assert(acceptor_step(states[i], msgs[i], states[i + 1], replies[i]));
        }
        lemma_acceptor_run(ps, pm, pr);
        let last = n - 1;
        assert(acceptor_step(states[last], msgs[last], states[n], replies[last]));
        let o = states[last];
        let w = states[n];
        assert(ps[last] == o);
        assert(o.inv());
        // One step keeps the invariant and the promise only grows.
        assert(w.inv() && ballot_le(o.ballot_num, w.ballot_num)) by {
            match msgs[last] {
                Acceptor::P1A(_, b) => {
                    lemma_ballot_order(o.ballot_num, b, o.ballot_num);
                    assert forall|p: Pvalue| #[trigger] w.accepted@.contains(p) implies ballot_le(p.b, w.ballot_num) by {
                        assert(o.accepted@.contains(p));
                        lemma_ballot_order(p.b, o.ballot_num, w.ballot_num);
                    }
                },
                Acceptor::P2A(_, pval) => {
                    assert forall|p: Pvalue| #[trigger] w.accepted@.contains(p) implies ballot_le(p.b, w.ballot_num) by {
                        if p != pval {
                            assert(o.accepted@.contains(p));
                        }
                    }
                },
                Acceptor::Test => {},
            }
        }
        assert(reply_ballot(replies[last]) is Some ==> reply_ballot(replies[last])->0 == w.ballot_num);
        assert forall|i: int| 0 <= i < states.len() implies (#[trigger] states[i]).inv() by {
            if i < n {
                assert(ps[i] == states[i]);
            }
        }
        assert forall|i: int, j: int| 0 <= i <= j < states.len() implies ballot_le((#[trigger] states[i]).ballot_num, (#[trigger] states[j]).ballot_num) by {
            if j < n {
                assert(ps[i] == states[i] && ps[j] == states[j]);
            } else if i < n {
                assert(ps[i] == states[i] && ps[last] == o);
                assert(ballot_le(states[i].ballot_num, o.ballot_num));
                lemma_ballot_order(states[i].ballot_num, o.ballot_num, w.ballot_num);
            }
        }
        assert forall|i: int| 0 <= i < replies.len() && (#[trigger] reply_ballot(replies[i])) is Some implies reply_ballot(replies[i])->0 == states[i + 1].ballot_num by {
            assert(acceptor_step(states[i], msgs[i], states[i + 1], replies[i]));
        }
        assert forall|i: int, j: int|
            0 <= i < j < replies.len() && (#[trigger] reply_ballot(replies[i])) is Some && (#[trigger] reply_ballot(replies[j])) is Some
                implies ballot_le(reply_ballot(replies[i])->0, reply_ballot(replies[j])->0) by {
            assert(ballot_le(states[i + 1].ballot_num, states[j + 1].ballot_num));
        }
        assert forall|i: int| 0 <= i < replies.len() implies (#[trigger] replies[i] matches AcceptorReply::ToScout(_, Scout::P1B(_, nb, vs))
            ==> forall|p: Pvalue| #[trigger] vs@.contains(p) ==> ballot_le(p.b, nb)) by {
            assert(acceptor_step(states[i], msgs[i], states[i + 1], replies[i]));
            assert(states[i + 1].inv());
        }
    }
}

} // verus!
