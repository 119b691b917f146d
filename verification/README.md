# csvm

A command-line tool that filters, reshapes, sorts, groups, joins, profiles, colours
and charts CSV and Parquet files, with its logic verified by Verus.

- `src/` is the library. Every function in it has a contract, and Verus proves each
  but those of the next point: reading and writing CSV (`csv`), running a plan over
  rows (`exec`, `value`, `stages`, `sort`, `group`, `join`), splitting the work over
  chunks, threads and byte ranges (`stream`, `parallel`), resolving columns
  (`resolve`, `prepare`), building a plan from the calls of a script (`compile`), drawing tables
  and charts (`render`, `collect`, `chart`, `graph`, `canvas`), and the command line
  around them (`cli`, `console`, `pager`, `help`, `highlight`). The functions named
  `law_...` state what holds of several of them together.
- `src/outside.rs` holds what is taken from other crates and from the standard
  library without proof, but for `String::push`, which `src/text.rs` declares.
- `app/` is the program: files, threads, the terminal, the interpreter that runs a
  script, and floating-point arithmetic. The library holds a number as its bits and
  the text it prints as.
- `tests/` runs the library.
