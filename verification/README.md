# ledger

The rules of a personal spend ledger: Chase statement exports (CSV) are
imported, spend is grouped by named filters into a tab-separated report for a
spreadsheet, and the whole database can be backed up and restored.

- `src/` is the library, verified with Verus: statement reading
  (`statement`), import planning and repeat detection (`import`), report
  grouping and text (`report`), filter outcomes (`filters`), the split count
  setting (`settings`), backups and restores (`backup`), stored
  transactions (`transactions`), the error type (`error`) and the text
  helpers they share (`text`). Amounts are carried as a type parameter: the
  library never looks at them.
- `app/` is the program around it: the SQLite database (sqlx), files, JSON
  (serde), the floating point amount arithmetic and a command-line front end.
- `tests/` exercises the library on concrete values.
