# rank

The Banker's algorithm for deadlock avoidance, verified with Verus, and the
bookkeeping of the resource table that a small gpui application shows.

- `src/algo.rs`: the safety check. `check_safety` returns `true` exactly when
  some order lets every process run to completion, and then leaves the
  processes in such an order.
- `src/table.rs`: processes, the table of processes and resources, admission
  (`push_proc`), one step of a run (`step`), resetting and changing the
  resources, and random processes.
- `src/run.rs`: what the operations keep: every operation keeps the books,
  admissions before a run leave the table ready to run, each step finishes a
  process that the available resources cover, and a full run finishes every
  process and gives back everything they held.
- `src/sorting.rs`: sorting the rows by a column, stable and by rank.
- `src/form.rs`: reading the counts and the new process typed in the forms.
- `app/`: the gpui views (window, table, forms, dialog), which call the library.
