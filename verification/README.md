# snapshot_store

A verified library for snapshot files, the files in which a page server keeps the
versions of PostgreSQL pages, and for a registry of connections.

A snapshot file holds the versions of all pages of one segment of a relish (a relation, or
another file that is stored like one) in a range of log positions, and the sizes of the
segment. Its name says what it holds:

    rel_<spcnode>_<dbnode>_<relnode>_<forknum>_<segno>_<start LSN>_<end LSN>

- `src/` is the library. Its functions are verified with Verus against the contracts that
  stand above them. What it takes from `bookfile`, `bincode` and `parking_lot` goes through
  small functions whose contracts are believed; each names the function that it calls.
- `app/` is the `dump_snapfile` tool, and what reads and writes files, logs, and unregisters
  connections on drop.
- `tests/` runs the library on concrete values.

The functions whose names begin with `law_` state what holds of several functions together.
