# Trellis

Trellis keeps derived tables in Postgres up to date. A definition says how a
target table follows from a source table, one to one or as an aggregate, and may
read related tables. Changes of the source tables are staged in a ring of
segments; a worker claims segments, folds their changes, evaluates the
definitions that read them, and applies the result in one transaction, which also
stages what follows for the next hop.

- `src/` is the logic, verified with Verus and free of I/O:
  - `staging`: sorting a batch, planning it, spelling its statements, stepping
    through its application, retries, completion and retirement;
  - `defs`: checks of definitions and relationships, the dependency graph, and
    reading definitions back;
  - `metrics`, `rollup`: recording metrics, reading their text exposition back,
    and the rows of their history;
  - `numeric`, `integer`: Postgres's exact number types;
  - `intake`, `blocking`, `surface`: smaller rules.
- `app/` is what surrounds it: queries, the process-wide metrics registry, the
  blocking facade, tracing export.
- `tests/` runs the library, with the real crates that it calls.

Functions whose names begin with `law_` are proofs of what holds across
functions. The few items that are believed rather than proved are marked
`external_body`, `assume_specification` or `uninterp`; each names the function
that it speaks of.
