# editable

The engine of a CSV spreadsheet editor, written in Verus: every function of
the library carries a contract that Verus proves.

- `src/` — the verified library.
  - `dialect`, `parser`, `writer`: detecting the separator, line ending and
    encoding; indexing records and fields; decoding and encoding fields;
    writing records back.
  - `document`, `live`, `rules`: the editable document — edits, inserted and
    deleted rows and columns, reordering, filters and sort keys over the
    source records, snapshots, saving and reading back.
  - `roundtrip`: proofs that written fields and records read back as written,
    and that a saved table reads back as the table that was saved.
  - `sorting`: proofs that the row comparison is a total order when each
    sort column holds only numbers or only texts, so that a sorted view is
    in key order.
  - `selection`, `state`, `find`, `stats`, `input`, `panels`, `controls`,
    `formatting`, `bundle`: the editor's state and the decisions of its
    interface (selection, undo history, search, selection summary, key and
    mouse handling, panel input, menus, texts, the bundle's property list and
    icon file layout).
  - `text`, `error`: text helpers and the error type.
- `app/` — a small command-line front end: file access, argument handling,
  the floating-point figures of the selection summary, and packaging the
  macOS bundle and icon.
- `tests/` — tests of the library.
