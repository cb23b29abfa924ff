# The One Billion Row Challenge, verified

A library that aggregates `station;temperature` records into the minimum, mean and maximum of each
station, and generates such data. The library is written in Verus: what each function does is stated
in its contract and proved.

- `src/bench/` tells stations apart by a fingerprint of the name. It has three readers
  (`decode_lines_a`, `decode_lines_b`, `decode_lines_c`) that find the delimiters eight or sixteen
  bytes at a time.
- `src/exact/` tells stations apart by the whole name.
- `src/scanner.rs` cuts the data into pieces that end with a record; `src/table.rs` keeps stations in
  order and merges tables.
- `src/generate.rs` makes the records of a data file from a template; `src/mapping.rs` says which part
  of a file is mapped, and what goes where.
- `src/swar.rs`, `src/bytes.rs`, `src/text.rs`, `src/stats.rs` and `src/probe.rs` hold what these
  share.
- `app/` is the program: command line, files, memory maps, processes and threads.

Laws that relate several functions are proof functions whose names start with `law_`. Where a piece
cannot be read or a count or sum would not fit, the functions in `check.rs` say so before.
