# trash_cli

A command-line tool for the native macOS trash (`trash put`, `list`,
`restore`, `empty`, `rm`), built around a library whose behaviour is stated in
contracts and proved with Verus.

## Layout

- `src/` — the verified library.
  - `args.rs` — the command line: commands, options, `parse_from`.
  - `path.rs` — Unix paths on strings: components, normalisation, joining,
    prefix tests, component order.
  - `trash/ds_store/` — the `.DS_Store` format: `read.rs` (parsing, with the
    format as a specification), `write.rs` (encoding), `roundtrip.rs` (what is
    written reads back; recording and forgetting a trashed file).
  - `trash/scan.rs`, `trash/dirs.rs`, `trash/date.rs`, `trash/model.rs` —
    trash roots, matching files with their records, showing times.
  - `list.rs`, `empty.rs`, `put.rs`, `restore/`, `rm.rs` — the decisions of
    each command.
  - `text.rs`, `unicode.rs`, `order.rs`, `error.rs` — strings, UTF-16/UTF-8,
    sorting and byte order, errors.
- `app/main.rs` — the program: file system, terminal, clock and process
  access, calling the library for every decision.
- `tests/` — tests of the library.

Times are nanoseconds since the Unix epoch; paths are strings.
