# logbook

A per-repository decision log kept in one Markdown file, `logbook.md`, with a
command-line tool to add, supersede, search, trace, check and export its
decisions. The library that parses, renders, validates, filters and
summarises the log is written in Verus and proved against its contracts; the
command-line program around it does the file, process and terminal work.

## Layout

- `src/` — the verified library.
  - `parse.rs`: the Markdown format read into entries, with the derived
    supersession links.
  - `store.rs`: rendering a new entry and the separator used when appending.
  - `validate.rs`: the structural checks of `logbook check`.
  - `export.rs`: the JSON and JSON Lines export and the check report;
    `json_laws.rs`: proofs that the pretty and one-line forms denote the same
    JSON values and that every string literal decodes back to its text.
  - `query.rs`: the shared filters, choosing a decision by date and title,
    and the supersession chain of `trace`.
  - `commands.rs`: checking what a user asks to record, and choosing the
    decision a supersession replaces.
  - `summary.rs`: `stats`, `tags` and the success line of `check`.
  - `color.rs`, `editor.rs`, `location.rs`: terminal styling, the editor
    command and the choice of the logbook's directory.
  - `roundtrip.rs`, `append.rs`: proofs that a rendered entry parses back to
    its fields, and that appending it keeps the earlier entries.
  - `text.rs`: the character-level string model shared by the rest.
- `app/` — the `logbook` program: argument parsing, file access under a write
  lock, the editor, `git add` and output.
- `tests/` — tests of the library on concrete values.
