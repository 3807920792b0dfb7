# egglog backends

Two execution backends for egglog programs, with their logic verified in Verus.

* `src/feldera/` is the incremental-dataflow backend. Rule bodies are planned as joins for a
  dataflow circuit; a round of rules begins, says what the circuit is to be fed, and ends with the
  bindings that the circuit gave. Rebuilds run over an in-core union-find, or as a circuit of their
  own whose congruences go back to its input until there are no new ones.
* `src/duckdb/` is the relational backend. Tables, rules and passes are rendered as SQL; an
  iteration is a machine that says which statement comes next and takes how many rows it affected.
* `src/backend.rs` has the identifiers, schemas and merge functions of both.
* `src/collections.rs` has the hash tables, and `src/duckdb/integer.rs` and
  `src/duckdb/rational.rs` the numbers of any size. Their contracts are trusted: they say what
  `hashbrown` and `num` do.

What is proved: every function of the library meets its contract, and the public proof functions
state what holds across functions. Among them:

* the atoms and guards of a join plan give exactly the matches of a rule's body, and a round runs
  heads on exactly the matches that are new;
* the leader that the rebuild circuit computes is the union-find's, the classes that it ends with are
  those of the smallest equivalence that is closed under congruence, and a second rebuild changes
  nothing;
* looking up terms makes each of them once, and a rule is refused with the error of the first call
  that it cannot hold;
* quoted names stay apart however the database compares case, interned values of any type are read
  back, and a rule that is skipped has no new row to look at.

`tests/` runs the library. `app/` holds the connection to DuckDB, the scalar functions it calls
back for, and the DBSP circuits.
