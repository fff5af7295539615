# dtcore

The logic of three command-line tools for tabular data files (CSV, TSV,
Parquet, Arrow IPC, JSON, NDJSON, Excel): `dtcat` views a file, `dtfilter`
filters it, `dtdiff` compares two files. The library is written in Verus, and
every function carries a contract that Verus proves.

- `src/format.rs`: format names, extensions, magic bytes, detection priority
  and delimiter sniffing.
- `src/metadata.rs`: file sizes for display, format names, the file header.
- `src/reader.rs`, `src/writer.rs`: which reader or writer a format takes,
  and the settings they use.
- `src/excel.rs`: sheet resolution, turning a range of cells into named
  columns, and column type inference.
- `src/diff.rs`: the result of a comparison and its text and CSV reports,
  and how a written CSV record reads back.
- `src/json.rs`: the JSON document that describes a comparison, and its
  pretty-printed text through `serde_json`.
- `src/cli.rs`: argument checks, the format-family check of `dtdiff`, display
  choices, lists given on the command line, and exit codes.
- `src/text.rs`: character-level helpers with their specifications.
- `app/`: reading and writing files through polars and calamine, and format
  detection from files on disk.
