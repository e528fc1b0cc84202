# rust_projects

A verified library for four small projects:

- `fast_vec`: a vector that tracks its own capacity and grows by doubling.
- `chatbot`: the naming of per-user conversation files and the history a user sees.
- `analytics`: tables of rows, queries (filter, group, aggregate), running a query, and
  parsing a query from text.
- `tic_tac_toe`: a timed alpha-beta agent for tic-tac-toe boards with walls (lines of
  three score, lines of four guide the evaluation), with Zobrist hashing and a
  transposition table.

`src/` holds the library; every function there is verified by Verus against its
contract. `app/` holds what talks to the outside world: standard input and output, the
clock, the language model and the game framework.
