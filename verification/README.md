# versioning

Version control for relational tables: content-addressed commits, branches and tags,
three-way merges of rows and schemas, cherry-pick, revert and rebase, constraint checks,
garbage collection, and synchronisation with remotes.

`src/` is the library. Every function in it is verified with Verus against a contract
over mathematical models; what holds of several functions together stands in public proof
functions named `law_...`.

- `model`, `values`, `text`, `octets`, `digest`, `names`, `sorting`, `assoc`, `reach`,
  `walk`, `reader`: ids, errors, cells and the small vocabulary of the rest
- `chunk`, `commit`, `refs`, `session`: nodes and chunks, commits, references, the branch
  of a connection
- `staging`, `conflicts`, `gc`, `orm`: the repository, its conflicts, its collector, and
  typed rows on top of it
- `merge`, `merge_schema`, `table_merge`, `replay`, `replay_state`: merges and replays
- `sql`, `checks`, `constraints`: reading schemas and judging rows
- `remote_wire`, `remote_transport`, `remote_files`, `remote`, `source`, `sync`: remotes
- `operations`, `func_args`, `funcs`, `connection`, `vtab`, `vtab_plan`, `vtab_rows`: the SQL
  functions and virtual tables

`app/` is ordinary Rust around it: files, the clock, the shared hub and credentials, and
the SQL engine's side of a connection. `tests/` runs the library.
