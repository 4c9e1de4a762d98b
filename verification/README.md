# fastris

A server for two-player Tetris matches, and example players, with the game's
rules verified by Verus.

## Layout

- `src/` — the verified library.
  - `messages.rs`: piece kinds, action kinds, player actions and what the
    server tells a player, with their wire bytes.
  - `mino.rs`: orientations, pieces, the Super Rotation System shapes and the
    bitmask of the cells a piece covers.
  - `board.rs`, `rows.rs`: the board, its well-formedness, line clears and the
    row lemmas behind them.
  - `actions.rs`: what each action does to a board (turns with wall kicks,
    hold, hard and soft drops, moves) and the penalties for bad actions.
  - `ascii.rs`, `render.rs`: reading a board from a drawing and drawing it;
    drawing a board without a falling piece (1 to 16 columns, nothing past
    its width, no empty row below a non-empty one, a top row that is empty, known
    held and queued pieces, a queue no longer than the drawing) and reading
    the drawing gives the board back.
  - `versus.rs`: a match — the shared 7-bag piece stream, garbage sent between
    the two players, the messages for the players, and the server's
    bookkeeping of connections and the winner.
  - `client_examples.rs`, `example_client.rs`, `client.rs`: example players.
- `tests/` — tests run against the compiled library.
- `app/` — the programs: the match server and the example player, with the
  network connections, the flatbuffers wire format and the async plumbing.

The random number generators (rand, rand_chacha, rand_xorshift) are called
from the library through a few trusted wrappers; everything the library does
with their results is verified for every possible outcome.
