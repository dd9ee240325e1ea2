# pmxcfs

The core of a cluster configuration filesystem, written in Verus: every function of
`src/` carries a contract that Verus proves.

- `src/` — the verified library:
  - `wire`, `digest`, `clock`, `text`, `errno`: byte-level helpers, SHA-256 and time;
  - `api_types`, `config`: shared types, error numbers, host name rules;
  - `logger`: cluster log entries, their binary format, the ring buffer and the
    deduplicating, merging cluster log;
  - `memdb`: the in-memory configuration database (tree, paths, locks, index, guest
    list, corosync configuration synchronization) with the laws of its tree and of its
    change journal (replaying the journaled changes gives the entries in memory, and
    loading stored rows gives them back);
  - `dfsm`: protocol messages of the distributed state machine and its decision core;
  - `ipc`: handshake and request structures, connection decisions and ring-buffer
    arithmetic of the local IPC server.
- `app/` — ordinary Rust around it: SQLite persistence, Corosync CPG transport, the
  tokio IPC server with its shared-memory ring buffers, JSON export, configuration.
- `tests/` — tests of the library.
