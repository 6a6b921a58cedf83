# hazır

A test asks for a Postgres database and is given one that already exists.

The migrations run once. The result is kept as a snapshot addressed by the
hash of the files that produced it, and a pool of schemas is built from it
ahead of the run. A test leases one of them, and it comes back emptied rather
than dropped. The pool's books are kept in the database, so they outlive every
process that uses them.

## Layout

- `src/` is the library, verified with Verus. It never talks to anything: each
  function takes what was said last and returns what is to be said or done
  next, and its contract says exactly what that is.
  - `pool`, `capture`, `agent` and `cli` are the decisions: claiming, building,
    returning, reclaiming and forgetting schemas; taking a snapshot; serving
    the requests of a process; warming up and reporting.
  - `statement` is what is said to the database, and how it is written.
  - `books` models the pool's tables, and proves what every operation keeps.
  - `sources`, `path`, `snapshot`, `name`, `holder`, `url`, `lease`, `place`
    and `error` are the rules that those rest on.
  - `text` and `number` hold what is needed of strings and numerals.
  - `outside` holds the calls into SHA-256 and lossy UTF-8 decoding, with what
    is taken to be true of them.
- `app/` is the program around it: the command line, the connection, the thread
  that keeps it, files and processes.
- `tests/` runs the library on concrete values.

The laws are the public proof functions whose names begin with `law_`.
