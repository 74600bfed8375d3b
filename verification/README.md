# tipjar

Funding rounds for a tip jar contract, verified with Verus.

- `src/quadratic_funding.rs`: rounds that match contributions out of a pool. A project weighs
  `(Σ√contribution)²`, so many small contributions count for more than one large one. When a round
  is paid out, the projects get the pool and the contributors get their contributions back.
- `src/retroactive_funding.rs`: rounds that reward nominated projects in proportion to the votes
  cast for them during a voting window.

Each of the two has the same parts:

- `model.rs`: every operation as a function from what is stored to what is stored afterwards and
  what is asked of the host, or to the error with which it is refused. The contracts of the
  executable operations refer to it.
- `laws.rs`: what every sequence of operations keeps.
- `payout_laws.rs`: how a pool is split, and that what came in goes out.
- `solvency.rs`: the contract always has the tokens that it holds for its rounds.
- `keys.rs`: which stored entries an operation reads and writes.
- `checked.rs`: the operations for callers who cannot tell whether what the contracts require holds.

The rest of `src/` is shared: addresses and lists of them, saturating sums, shares of a pool,
integer square roots, wide integers, small tables, and the environment of an invocation. Lists of
addresses are kept in `soroban_sdk::Vec`; `src/host_list.rs` states what is relied on there.

`app/` runs the operations on a Soroban host: it reads and writes the ledger entries, transfers
the tokens and publishes the events. `tests/` runs the library.
