# rust_scanner

Disk usage of directory trees, measured by parallel walks and offered to Python as the
module `fast_scanner`.

- `src/` is the library, in Verus. It takes in what a walk reports and decides where the
  walk goes on and what counts (`dir_scan`, `group_scan`); it groups the paths of a larger
  scan into walks (`grouping`), estimates their cost (`weight`) and divides the worker
  threads among them (`threads`, `jobs`); it collects the results (`results`, `delivery`,
  `worker`).
- `accounting`, `parts`, `sharing` and `whole_scan` prove what walks amount to as a whole.
  Hard links count once. The order of a walk's reports does not matter. Sharing a walk
  changes no target's bytes; a report without a path counts for every target of the walk.
  A directory shows no less than one under it. Asking for the paths in another order only
  reorders the rows, and the number of workers never changes one. All but the first hold
  as long as the walks meet the same entries, the reports of one file agree on its size,
  no directory is reached by two paths, and no counter wraps around.
- `delivery` records the results of a job and tells them to the caller one by one, up to
  the first that the caller refuses. A caller that refuses none is told of each path once,
  and of a path before those under it on its device.
- `src/keyset.rs` holds what is taken on trust: two calls into `dashmap`.
- `app/` does the walks with `ignore`, runs the workers, and holds the Python functions.
- `tests/` runs the library on concrete values.
