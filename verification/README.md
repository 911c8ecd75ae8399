# paxos

A verified core for a small multi-slot Paxos and a zipper-based binary search
tree, written in Verus.

- `src/messages.rs`: ballots, commands, pvalues and the messages between the
  processes, with the orders they are compared by.
- `src/sorted_set.rs`: a set kept as an increasing list.
- `src/acceptor.rs`, `src/leader.rs`, `src/replica.rs`: each process as a
  verified step from a state and a message to the new state and what to send
  or start.
- `src/avl.rs`: the tree, its zipper (locations, moves, search, insert) and
  rotations.
- `app/`: the program that runs the processes as threads over channels, and
  prints a small tree with `avl` as its first argument.
