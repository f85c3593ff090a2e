# Commeatus

A proxy core built around flows: a listener turns a request into a target, the
policy decides what becomes of it, and an endpoint carries it. The decisions, the
wire formats and the state machines are a library whose contracts Verus proves;
the daemon around it opens sockets and does what the library asks for.

## Layout

- `src/` is the library.
  - `flow`, `plan`, `policy`, `runtime`: flows, rules, and the plan they lead to.
  - `domain_set`, `blocklist`, `cidr`, `net`: names, addresses, lists of them.
  - `dns`: hosts table, cache, wire format, DNS-over-TLS exchanges, the engine.
  - `config`: the configuration language and the store of the active one.
  - `socks5`, `http_connect`, `transparent`: the listeners' side.
  - `protocol`, `trojan`, `outbound`, `proxy`: the proxies' side.
  - `datagram`, `trojan_datagram`, `idle`: datagrams and their tables.
  - `transport`, `dispatch`, `server`, `platform`, `cli`: carriers and the rest.
- `app/` is the daemon: sockets, TLS sessions, files, threads.
- `tests/` runs the library on concrete values.

## What is proved

Every function of `src/` states in its contract what it returns or changes, over
spec functions that say what a message, a rule or a state means. Properties that
span functions are proof functions whose names begin with `law_`: a written frame
is read back, a stronger tier of rules prevails, a table never outgrows its bound,
an answer never outlives its records.

A state machine takes an event and gives the next action. The daemon performs the
action and hands back the event, so that the order of reads, writes and connects
is the library's, and proved there.

What is trusted rather than proved stands behind items with a comment of their own:
the digest of `sha2`, the server names and client settings of `rustls` with the
roots of `webpki-roots`, and a few functions of the standard library.
