# map_tester

A server for testing Wyvern maps: clients log in with the Wyvern client,
walk the maps made with the map editor by clicking, change their skin and
talk. The game logic is a Verus library whose functions carry contracts
that Verus proves.

## Layout

- `src/` — the verified library
  - `conn/` — the client protocol: the login record, command frames and
    every message the server writes (`api.rs`), and the messages passed
    between connections and the game (`mod.rs`).
  - `game/` — the game: logins and characters (`mod.rs`), commands
    (`command.rs`), map files (`mapfile.rs`), maps and their tick
    (`gamemap.rs`, `map.rs`), views (`camera.rs`), path finding
    (`pathing.rs`), the per-map loop (`gameloop.rs`) and the objects on a
    map (`characters/`).
  - `strmap.rs`, `text.rs` — a string-keyed map and the text operations the
    rest uses, each with its contract.
- `tests/` — tests of the library on concrete values.
- `app/` — the program: sockets, timers, threads and files around the
  library.
