# np_reactor

Switch-flipping puzzles built on Boolean satisfiability. A board is a set of
clauses over numbered switches; the player flips switches until every clause
holds. The puzzles are drawn at random in several terrains (random 3-SAT,
planted XOR systems, gate circuits, parity systems, Lights Out), and some
boards show the exact number of solutions.

The library in `src/` is written in Verus and verified:

- `cnf` — clauses, assignments, and what it means for one to satisfy the other;
  marking false clauses; ordering literals.
- `count` — exact model counting by backtracking with pruning, and the bit-mask
  satisfiability search, both proved against a plain enumeration of assignments.
- `encode`, `planted` — the clause encodings of XOR triplets, gates, locks and
  parity constraints, and the planted puzzles built from a hidden solution, with
  proofs that each encoding says exactly what it encodes.
- `random` — the calls into `rand`, with what they promise.
- `visits` — the tally of visited assignments.
- `reactor`, `aes`, `grid`, `lights_out`, `coop` — the game state and rules of
  each board.
- `labels` — switch names and captions.

The visit tally and the duplicate checks use vectors (a list of distinct
entries, a linear search) rather than `HashMap` and `HashSet`: vstd gives a
usable specification for hash maps only with simple keys, and these keys are
whole assignments and clauses (`Vec<bool>`, `Vec<(usize, bool)>`). The vectors
carry the invariant that no key occurs twice, so they count and find exactly
what the hash maps did.

`app/` holds the windows (macroquad), the co-op server and node (TCP, JSON,
threads) and the floating-point settings; it calls the library for every rule.
Run it with `reactor`, `aes`, `lights`, `grid`, `coop` or `coop server` as its
first argument.
