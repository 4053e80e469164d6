# realm_web

A TCP/UDP port-forwarding panel built on `realm_core`. The crate is split in
two:

- `src/` is the verified library (Verus). It holds the decisions of the
  panel, each with a contract:
  - `rule`: quota periods and their names, port assignment modes, and the
    `host:port` target lines (`ForwardRule::parse`);
  - `ports`: choosing local ports for a batch of rules (automatic, from a
    start port, or a manual list), never a used or reserved port;
  - `traffic`: per-port counters, the quota check that trips once per
    relay session, dashboard statistics and quota-period resets;
  - `rate_limit`: login throttling by client (IPv4 address or IPv6 /64),
    with bans that double up to a ceiling;
  - `batch`: grouping received UDP datagrams by sender;
  - `service`, `api`, `config`, `socket`: what an update writes, the add
    request's parsing, settings read from the environment, TCP keepalive;
  - `text`: the string helpers the parsers are proved with.
- `app/` is the program around it: the HTTP API (axum), the SQLite store
  (sqlx), the relays (tokio and `realm_core`), and configuration from the
  environment. It converts between the library's plain values and the
  outside crates' types, and holds what Verus cannot (I/O, async code,
  floating-point quotas).

`tests/` exercises the library from outside.
