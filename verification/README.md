# jw — JSON walker

`jw` opens a JSON document as a collapsible tree in the terminal, lets you
select nodes, previews the `jq` filter that extracts them, and prints the
`jq` command on Enter.

This crate is written in Verus: the library under `src/` carries contracts
that Verus proves.

- `src/text.rs` — strings by character: truncation, wrapping, trimming,
  substring search, line splitting, decimal notation.
- `src/path.rs` — paths into a document, their `jq` selectors, and the order
  of paths.
- `src/json.rs` — the document model, reading it from JSON text, and JSON
  string escaping.
- `src/pathset.rs` — a set of paths kept in order.
- `src/rows.rs` — the tree view of a document as rows; opening every container.
- `src/command.rs` — the `jq` filter and shell command for a set of paths.
- `src/tui.rs` — the browser's state machine: opening a document, keys,
  frames, previews, search.
- `src/laws.rs` — properties over several calls (toggling twice, shell quoting
  read back by the shell, `jq` paths read back as paths, row counts, the open
  set over a session, and more).
- `src/tree_laws.rs` — how the rows change when one container is opened or
  closed: the container's row stays in place, so pressing `.` twice with
  frames in between shows the tree as it was; rows are indented by depth.
- `src/session_laws.rs` — what holds in every state of a session on one
  document: the rows are the document's rows after each frame, and every
  selected or extracted path comes from a selectable row or the cursor.
- `app/main.rs` — the program: input, terminal drawing, keys, running `jq`
  (the preview text for what came of the run is `tui::preview_text`), the
  clipboard.
