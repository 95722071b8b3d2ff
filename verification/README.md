# coalitions

Coalition formation games over 100 agents, with their rules verified by Verus.

- `src/models/coalition.rs`: states are coalition structures; a move merges one
  coalition into an earlier one.
- `src/models/coalitionsB.rs`: the same with a locked prefix; a move either locks
  the current coalition or merges a later one into it.
- `src/models/coalitionPerm.rs`: every agent has a coalition index; a move takes
  one agent to another (or a new) coalition. Random restarts and the candidates
  that a greedy step evaluates are here too.
- `src/valuation.rs`: the integer seed from which a coalition's value is drawn.
- `src/grouping.rs`: counting agents over coalitions, and the partition laws.
- `src/randomness.rs`: the draws from `rand` that the models make.
- `src/text.rs`: decimal text of indices.

`app/` holds what works on floating-point values (coalition values, scores,
the greedy choice, hill climbing, statistics) and the program's `main`.
