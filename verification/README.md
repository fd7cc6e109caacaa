# tierstore

A storage-tier router: register tiers (anything that can look up, insert and
remove entries) and route reads and writes through them with explicit policy.
The first-class use is a tiered rollover cache, hot over warm over cold, but the
router does not know that it is a cache; that is just one policy.

The library under `src/` is verified with Verus: every executable function has a
contract, and what holds across functions is stated and proved as public proof
functions whose names begin with `law_`.

## Layout of the library

- `tier`, `policy`, `error`, `report`, `text`: capability traits, routing
  policy, errors and per-key reports.
- `read`: the read flow, a state machine that makes every decision of a read.
- `stack`, `router`, `store`: an ordered stack of tiers, the router over it and
  the authoritative store preset.
- `replay`: what a router asks of its tiers, as a function of their answers.
- `laws`, `conduct`: what follows for well-behaved tiers, and for all tiers.
- `codec`, `verified`, `limited`: middleware tiers.
- `single_flight`, `offload`, `wake`: gates, worker handoff and waiting tasks.
- `names`, `disk`, `mapped`, `slot`, `table`, `remote`: keys as file names, the
  books of file-backed tiers, the slot store, and an in-process remote.
- `feed`: write feeds that keep caches on several nodes coherent.

A tier's answers are its own business. Every tier keeps a ghost history of the
calls it served, a router keeps the trace of everything that it asked, and the
contracts relate a result to the calls that led to it.

## What is trusted

Each item that is believed without proof carries a comment that says what is
believed: three methods of `bytes::Bytes`, `String::from_utf8`,
`slice::from_ref`, and `Waker::will_wake` and `Waker::clone` (of which nothing
is assumed).

## Around the library

`app/` is a demonstration program and the drivers that do I/O: files, memory
maps, worker threads, moka caches, and waiting. Its `sync` module runs the write
feed over a gossip group; any fabric that offers the calls of its `Fabric` trait
will do.
