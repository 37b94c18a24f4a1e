# raft-kv

A replicated key-value store in Verus: the Raft consensus algorithm over a
log-structured merge tree, with the proofs that go with it.

- `src/` is the library. Every function in it is verified, but for nine short
  ones that call outside crates.
  - `node`, `node_state`: one node, and its mathematical model.
  - `cluster`, `cluster_state`, `traffic`: a simulated cluster whose runs end.
  - `safety`: one leader per term, matching logs, agreement on what is
    committed, and reads that are not stale, over every run with lost messages,
    partitions, stopped and restarted nodes.
  - `state_machine`, `storage`: what a node applies its log to, and what it saves.
  - `lsm`: records, tables, filters, the write-ahead log and the tree. A crash
    between two actions on disk loses nothing (`lsm::store_laws`), and a tree
    stays like a machine in memory that is fed the same (`lsm::machine_laws`).
    Opened again, it is what it was (`lsm::reopen_laws`).
  - `server`, `net`, `client`, `config`, `observability`: the exchanges of a
    running node, as decisions over plain values.
  - `demo`, `charts`, `picture`, `posters`, `sections`: pictures and tables of
    simulated runs.
- `app/` is the program around it: sockets, files, threads, logs.
- `tests/` runs the library.

The library calls two outside crates, through those nine functions, whose
contracts are believed rather than proved: `bincode` for the codes of records
(`src/lsm/codec.rs`) and `prometheus` for the text of metrics
(`src/observability.rs`).
