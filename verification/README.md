# waterci-core

The core of a small continuous-integration service. Sources of jobs (web UI, web
hooks, repository watchers) send build requests; the core queues them and hands
them out to the executors that report themselves available.

Layout:

- `src/` — the verified library (Verus):
  - `lib.rs`: the configuration, its defaults, and the `host:port` addresses;
  - `net.rs`: the messages of both protocols;
  - `scheduler.rs`: the scheduler as a state machine (`Core`) with its abstract
    state (`CoreView`), its invariant, and one transition per kind of event;
  - `jobs.rs`: what becomes of the jobs — none is lost by a dispatch or a
    requeue, and the dispatch hands them out in arrival order;
  - `history.rs`: laws over whole runs of events — no build request is written
    twice, each job written comes directly after a status query, and a status
    query is pending after the last job written;
  - `transfer.rs`: reading a message off a non-blocking socket (the bytes received do not
    depend on how the reads split them), what the bytes mean, and judging a write.
- `app/` — the program: command line, configuration file, the `mio` event loop,
  and the YAML wire form of the messages.
- `tests/` — tests of the library.

Dependencies: `uuid` gives each newly registered executor its random id in app/;
it stands in for the id generator of the water-ci protocol library, which is not
a dependency here. The same holds for the wire form of the messages: app/
encodes them as YAML.
