# merk-migrations

Schema migration runner for SurrealDB. Its logic is a library verified with Verus.

Migration files live in `migrations/up/` and `migrations/down/` as paired
`<name>.surql` files. They are sorted by name, so use a zero-padded numeric prefix
(`0001_`, `0002_`, ...) to control the order. The runner keeps track of the applied
migrations in a `_migrations` table.

| Command   | What it does                                                        |
|-----------|---------------------------------------------------------------------|
| `up`      | applies pending migrations, all or the next `steps`, in one batch   |
| `down`    | rolls back the `steps` migrations applied last (default: 1)         |
| `fresh`   | drops every table and applies all migrations; needs no `down` files |
| `refresh` | rolls back every applied migration, then applies all                |
| `status`  | lists every migration with its state and batch                      |

## Layout

- `src/` is the verified library. `text`, `surql` and `tables` read SurrealQL; `files`
  and `history` hold what is there and what was applied; `plan`, `protocol` and
  `migrator` make up a run, which says what it asks of the database and goes on with the
  reply. `conversation`, `splitting`, `rereading`, `laws`, `causes`, `markers`, `undo` and
  `batches` state and prove what holds of the library as a whole.
- `app/` is the `migrate` program around it: arguments, embedded files and the
  connection to the database. Its modules are also a library, with an async `Migrator`
  for use from other programs.
- `tests/` runs the library.
