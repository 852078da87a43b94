# Not Asteroids

A small multiplayer game: ships of several teams fly over a square field whose opposite edges
meet, and shoot at each other. A server runs the world at sixty ticks a second and tells its
clients what happens; clients show it and report the controls of their players.

- `src/` is the library: the rules of the game, verified with Verus.
  - `world.rs` is the state of the server and what always holds of it. `spawn.rs`, `steering.rs`,
    `battle.rs`, `motion.rs`, `lobby.rs` and `report.rs` are the steps of a tick, and `tick.rs` is
    their order. `history.rs` is what holds over any number of steps. `hits.rs`, `graveyard.rs`
    and `teams.rs` are what these steps rest on.
  - `client.rs` is what a client shows.
  - `controller.rs`, `entity.rs` and `packets.rs` are controls, ships and bullets, and messages.
  - `nonce.rs` and `transport.rs` are the rules of the connections, `pace.rs` those of the clock,
    `options.rs` those of the command line.
  - `double.rs` is the order of double-precision numbers; the arithmetic on them is in `app/`.
  - `retain.rs`, `unzip.rs`, `lists.rs`, `ids.rs` and `interpolation.rs` are tools.
- `app/` is the program around it: sockets, window, clock, random numbers, and all floating-point
  arithmetic.
- `tests/` runs the library on examples.
