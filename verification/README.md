# kv_router

`kv_router` is a verified library for routing requests to inference workers by what
their key-value caches hold. It is written in Verus: the functions of `src/` carry
contracts, and the verifier proves all but those of the calls into other crates, which are
listed below.

## What is in it

- `src/indexer/` keeps which worker holds which block sequences: a compressed radix tree
  for device memory, chains of blocks for the slower tiers, and the state machines of a
  single indexer and of a pool of threads.
- `src/scheduling/` holds the configuration and its checks, a queue of requests that
  wait for workers with room, fair queues of policy classes, and the admission and
  booking of requests.
- `src/sequences.rs` tracks the requests that workers are busy with, and what they add
  to the load.
- `src/services/` is the logic of the servers: the index with its listeners, the slot
  tracker, the shared cache, the synchronisation of replicas, the access log and the
  selection service.
- `src/zmq_wire/` turns the events of engines into the router's own.
- `src/hashing.rs`, `src/text.rs`, `src/sorting.rs`, `src/seqs.rs` and
  `src/collections.rs` are what the others rest on.
- `app/` is ordinary Rust around the library: HTTP servers, channels, threads, sockets,
  the environment, log files and the formulas that need floating point.
- `tests/` runs the library from outside.

## What is proved

Contracts speak of models: a tree is a sequence of nodes, and what a worker *holds* is a
set of block sequences; a queue is a sequence of entries in the order in which they are
served; a tracker is a list of active requests. Besides the contracts of single
functions there are laws that relate several, as public proof functions. Some of them:

- what was stored is found, and what was removed is not;
- storing blocks for one worker changes no other worker's score;
- a run of new blocks lies on one edge, and removal cuts an edge at the first block
  removed; storing new hashes keeps each of them in the tree once;
- the answer to a query is the only one;
- a dump of a tree brings the tree back, and snapshots of one state are equal;
- sweeping a tree changes nothing of what workers hold, and the places of swept nodes
  are used again;
- while some policy class can be served, one is served, a class that is not asked has no
  say in which, and the counters of a class stay exact;
- freeing a request undoes adding it, and unregistering a worker undoes registering it;
- a replay that is not reported as incomplete has every batch that was asked for.

## What is trusted

Calls into other crates stand behind small functions marked
`#[verifier::external_body]`, each with a comment that says which function is called and
what is believed of it: the hash maps of `rustc_hash` and `dashmap`, the hash function of
`xxhash_rust`, random numbers, random identifiers, header names, and how std quotes a
text. Floating-point settings are carried as their bit patterns.
