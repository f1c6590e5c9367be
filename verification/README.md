# iceberg_transaction

The decisions behind two transactions on an Iceberg table, verified with Verus:

- replacing one set of files with another, as a rewrite or as an overwrite
  (`src/replace_files.rs`), with the check that no concurrent deletes get lost
  (`src/snapshot.rs`);
- rewriting the manifests of a snapshot without changing its files
  (`src/rewrite_manifests.rs`), by clustering their entries (`src/clustering.rs`).

`src/manifest.rs`, `src/table.rs` and `src/properties.rs` hold the data that both work on;
`src/text.rs` reads and writes numbers; `src/identity.rs` declares the UUIDs of commits.
What holds of the transactions as a whole is stated in `src/replace_laws.rs` and
`src/rewrite_laws.rs`, and at the end of `src/clustering.rs`.

`app/` loads and writes manifests around these decisions, and keeps what an attempt to
commit has written for the attempts that follow.
