# videre_core

The core of the videre photo library, with its rules proved by Verus.

- `src/` is the verified library: file and log naming, the log-line parser
  and run scanner, disk-usage reports, basemap download bookkeeping, person
  identities and the one-time label migration plan, embedding-store naming and
  listing, change detection and stored modification times, which hashes
  classification takes, and the rules of face
  learning (event validation and the learning state machine, identity-balanced
  pair sampling, identity-held-out folds, training triage, evaluation counts,
  promotion gates, model shape checks, question revisions, clustering labels
  and one-to-one face matching). Every public function states what it returns
  in its contract; laws that relate calls are public proof functions.
- `app/` is the code around it that Verus does not read: reading and
  writing the SQLite tables, files, the network, logging, serialization,
  and the floating-point parts of face learning (feature statistics,
  logistic fitting, calibration, rate gates). Question ranking and additive
  model fitting are not part of this crate.
- `tests/` exercises the library on concrete values.

Calls into outside crates that the library makes (`serde_json`, `chrono`,
`blake3`, the error text of `rusqlite` and `serde_json`, and std's
`char::is_uppercase`) go through small
trusted wrappers whose contracts say what the library relies on.
