# kunveno

Three contracts of a decentralized work platform, as a verified Verus library:

- `calendar`: workers declare their weekly availability; queries list available
  workers sorted by hours.
- `ratings`: accounts collect ratings from 0 to 100 with a category; averages.
- `projects`: a client's project goes through coordinator and team assignment,
  iterative scope proposals and approvals, task completion with dependencies,
  and completion with team ratings and payments.

`src/` holds the logic with its contracts and laws; each contract is a state
with operations that take the caller (and, where needed, the block number and
the contract's address) and return the events to emit. `src/projects/model.rs`
states what each project operation does over mathematical values, and
`src/projects/cycles.rs` finds circular dependencies among tasks.

`app/` wraps the library in ink! contracts: it reads the environment, keeps the
state in contract storage, makes the cross-contract calls to the calendar and
emits the events.
