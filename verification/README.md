# alefsdb

A typed structure database with a hierarchical namespace: directories hold
scalars (null, bool, int, float, string, bytes) and structures (hash, list,
set, tree). The namespace lives in a key-value store; a write-ahead log with
checkpoints makes it durable, a small daemon serves it over a Unix socket,
AlefQL queries it, and a FUSE view shows it as files.

## Layout

- `src/` is the library, verified with Verus. Every function carries a
  contract over mathematical models (`Seq`, `Map`, `int`) of the values,
  paths, keys and stores it handles; proof functions state the laws that
  relate operations (a read gives back what a write wrote, decoding inverts
  encoding, replaying the log rebuilds the store, reading a written document
  gives it back, canonical forms ignore insertion order, decoding yields
  canonical values, a torn commit is not applied, paths and nodes
  correspond one to one, setting a new path and deleting it restores what
  `get`, `exists`, `list` and `paths_with_type` give for every path, a
  transaction asks the store for one commit at most, the type index matches the
  namespace on a fresh store and after every `mkdir`, `set`, `delete`,
  update and transaction, and where it does, `paths_with_type` and typed
  queries find exactly the entries of the type).
  - values and their encoding: `value`, `order`, `bytes`, `codec`,
    `roundtrip`, `decodecanon`, `canon`
  - the namespace: `path`, `keys`, `storage`, `overlay`, `db`, `txn`, `laws`,
    `nodes`, `typeindex`, `indexkeep`
  - JSON export and import: `json`, `jsonlaw`, `hex`, `export`, `exportlaw`
  - queries: `query`, `eval`
  - the daemon's protocol and framing: `server`, `wire`
  - durability: `wal`
  - the file-system view: `fsview`
  - the load generator's input checks and arithmetic: `bench`
- `tests/` exercises the library on concrete values.
- `app/` is the program around it: the command line, file and socket I/O,
  the FUSE mount, and the conversions between floats and their text, which
  the library receives as tables.
