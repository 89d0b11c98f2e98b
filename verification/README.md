# todox

Terminal browser for TOON- or JSON-based todo tickets, with a JSON <-> TOON
converter. The ticket logic is a verified library; the program around it
does the terminal, file system and command-line work.

## Layout

- `src/` — the library, with its contracts and proofs:
  - `text.rs` — character-level text: whitespace, trimming, lines, joining,
    number parsing and printing;
  - `toon_patch.rs` — quoting repair of encoder output (`5m`-like values,
    unsafe cells of tabular rows and inline arrays);
  - `convert.rs` — per-file conversion plan and step (a failed conversion
    writes nothing), decode/encode through `serde_json` and `toon_format`
    with the round-trip check, the tally of a whole run and its summary;
  - `repository.rs` — ticket formats, the todo root, decoding ticket text
    with the blank-ticket fallback and the choice of a directory's index,
    grouping a directory listing into tickets (TOON wins on a shared stem; a
    directory named after a ticket holds its subtickets);
  - `app.rs` — navigation state: open lists, selection, detail view, keys,
    reload by title;
  - `ui.rs` — what the screen shows, as plain values;
  - `model.rs`, `cli.rs` — the data types;
  - `external.rs` — the trusted boundary with `serde_json`, `toon_format`
    and std.
- `app/` — the `todo` program: argument parsing, directory walking, file
  reads and writes, the terminal loop and ratatui drawing.
- `tests/` — tests of the library.
