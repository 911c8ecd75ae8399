//! The decision logic of a multi-slot Paxos (acceptor, scout, commander,
//! leader and replica steps) and a zipper-based binary search tree.
//!
//! `messages` and `sorted_set` come first: the other modules rely on the
//! order implementations they hold.

pub mod messages;
pub mod sorted_set;
pub mod acceptor;
pub mod avl;
pub mod leader;
pub mod replica;
