# shovel_stb

Reading, editing and writing the table formats of Shovel Knight: spreadsheet tables
(`.stb` / `.stm`) and localization string tables (`.stl`), and converting both to and
from CSV. The library is written in Verus; its behaviour is stated in contracts and
proved.

## Layout

- `src/` — the verified library.
  - `table.rs`: `Stb`, a header row plus data rows with per-cell hashes and row/column
    group buckets, its view `StbView`, and every edit (`set_inner_cell`, `set_row_key`,
    `set_column_key`, `replace_line`, …) with the proof that hashes and groups stay
    derived from the strings.
  - `stb_line.rs`, `inner_cell_editor.rs`, `stb_inner_cells.rs`: editing sessions.
  - `edit_laws.rs`: how the edits relate — a one-call line replacement equals a line
    session, inner-cell edit lists keep the group tables, rewriting a line with its own
    cells changes nothing.
  - `hash.rs` (lookup3 cell hash), `groups.rs` (group buckets and their on-disk table).
  - `stb_format.rs` / `stb_read.rs`: the binary STB layout, written and parsed as bytes;
    `stb_laws.rs`: reading a written file gives the table back.
  - `stl.rs`: STL tables, binary and CSV, with their round-trip law.
  - `csv_parse.rs`, `csv_format.rs`, `stb_csv.rs`: CSV splitting, the text the `csv`
    crate writes, and the table CSV round trip.
  - `text_out.rs`: tab-separated text renderings; `conversion.rs`: which conversion a
    file name selects.
- `tests/` — tests of the library.
- `app/` — the `stb` command-line converter (file I/O and argument parsing).
