# direlera_rs

A Kaillera 0.83 server library, verified with Verus: message framing and
parsing, the per-client packet generators, the game synchronisation engines
with their 256-slot input/output caches, the server state, and a handler for
every client message. Each handler takes the state, the datagrams produced so
far and the message, and its contract says exactly which state and datagrams
result.

Layout:

- `src/` — the verified library. `kaillera/` frames messages, `packet_util`
  parses datagrams and builds message bodies, `simplest_game_sync`,
  `simple_game_sync` and `game_sync` are the synchronisation engines,
  `state` holds clients and games, `handlers/` answers messages, and
  `session_manager` decides which messages of a datagram are handled.
  `protocol`, `room`, `service_server`, `service_game` and `service_lobby`
  hold the first server generation: its message records, users and rooms,
  and the steps that take a datagram to the message to handle and answer
  every message (login, quit, acknowledgements and pings, lobby and room
  chat, create, join, start, ready, game data and cache references, drop,
  kick and leaving a room), plus the keepalive sweep and the server status
  list. Each step lists the messages to send; `User::make_send_packet`
  frames each for its user.
- `app/` — the server program: sockets, one task per client session, the
  cleanup timer, configuration and logging. It calls the library for every
  decision. By default the game port is 8080 and the port for the first
  connection and ping 27888. `first_server` runs the first generation's
  steps on one socket with its keepalive timer.
- `tests/` — scenario and unit tests.
