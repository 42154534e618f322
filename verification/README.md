# bridge_wrangler

Operations on bridge PBN (Portable Bridge Notation) files — rotating deals to
a dealer pattern, filtering boards by a regular expression, replicating boards
into blocks for multi-table play, and choosing what a PDF or a double-dummy
report is made of — written in Verus, with each operation's result stated in
its contract and proved.

## Layout

- `src/text.rs` — characters and lines: trimming, splitting, decimal numbers,
  `str::lines` as a specification.
- `src/bridge.rs` — seats, vulnerability, strains, deals, boards and
  double-dummy tables, and how a quarter turn of the table moves each of them.
- `src/pbn.rs` — finding a `[Name "value"]` tag in board text.
- `src/commands/` — one module per command:
  - `rotate_deals.rs` and `rotated_pbn.rs` — patterns, orientation bases,
    turning boards and every seat-naming tag, table section and par, and
    writing the rotated file;
  - `commentary.rs` — turning the seat words of `{...}` commentary;
  - `filter.rs` — splitting a file into header and boards, matching,
    renumbering and writing each side;
  - `block_replicate.rs` — planning blocks and writing the replicated file;
  - `to_pdf.rs` — board ranges, metadata comments and the layout;
  - `analyze.rs` — scores, the best contract of a side, par, and the
    console table;
  - `event.rs` — setting the `Event` tag of every board;
  - `to_lin.rs` — the options of the LIN conversion.
- `tests/` — tests of the library on concrete values.
- `app/` — the command-line program: argument parsing, file I/O, and the
  calls into the PBN reader, the double-dummy solver and the PDF renderer.

The laws the library keeps across calls (turning by `r` then `s` is turning by
`r + s`, a full turn changes nothing and gives a par back, a table's relabelled
rows and the turned table stay in step, splitting a file loses no board line
and rebuilding it gives back its lines, every board goes to exactly one side of
a filter, setting the event twice keeps the second name, and others) are public
proof functions next to the code they speak of.
