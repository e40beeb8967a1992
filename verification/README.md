# criterion_report

The reporting side of a benchmark harness, written in Verus: benchmark
identifiers with their titles and directory names, the text that the
command-line reports write, the comparison of the benchmarks of a group
(changes table and ranking), and the iteration counts written for people.

Layout:

- `src/` — the verified library.
  - `report.rs`: `BenchmarkId`, file-name safety, report paths, and the
    command-line reports (`CliReport`, `CliReportIntraGroup`, `CliReports`,
    `BencherReport`), each returning the text it writes.
  - `report_table.rs`: scores and ranking of the benchmarks of a group, the
    rows of the changes and ranking tables, and the merge of equal cells of
    the first column of a table.
  - `format.rs`: `iter_count`, proved equal to an integer model of the
    floating-point division and fixed-precision formatting it stands for; that
    the model matches the real `f64` formatting is tested in
    `tests/format_tests.rs`, not proved.
  - `path.rs`, `number_syntax.rs`, `text.rs`, `color.rs`: directory names,
    the syntax of numbers, strings over their characters, ANSI escapes.
- `tests/` — tests of the library.
- `app/` — what stays outside the proofs: floating-point formatting, the
  tables drawn with `tabled`, and the writing to stderr.
