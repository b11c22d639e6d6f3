# rust-quepaxa

QuePaxa consensus with its rules stated as contracts and proved with Verus.

- `src/` is the verified library: interval summary registers, recorders,
  proposers, replicas, hedging schedules and their tuner, the local runtime, the
  networked node, durable snapshots and files, batches, submissions, wire
  messages and reproducible faults. The modules whose names end in `_laws`,
  `agreement`, `contest` and `commit_prefix` hold the properties that span
  several operations: decisions agree, were proposed, stay decided and survive
  restarts, whatever proposers compete for a slot, and replicas commit the
  longest prefix that they have accepted. `tuner_course` and `save_course` state
  what holds over any course of calls: replicas that commit alike schedule alike,
  and a save that is stopped anywhere leaves the old state or the new one.
  `runtime_course` and `network::node_course` say in which order an operation
  turns to the store, the state machine, the listener and the recorders, and what
  it makes of each answer.
- `tests/` runs the library on concrete values.
- `app/` is ordinary Rust around it: clocks, files, randomness, threads, tokio
  and TLS. It takes no decision of its own.

The library trusts three calls into other crates: SHA-256 from `sha2`, and
writing and reading a storage envelope with `postcard`. Each stands in a wrapper
whose contract says what is believed of the call.
