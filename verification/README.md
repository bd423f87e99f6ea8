# schema_tui

A terminal editor for configuration values described by a JSON schema.
The schema and the current value become a tree of nodes: structs,
optional fields, enums (as radio buttons), lists of enum values (as
checkboxes), and strings, integers, floats and booleans edited in place.
The tree can be navigated with the arrow keys or `hjkl`, expanded and
collapsed, filtered (hidden or read-only paths), and read back as a JSON
value.

## Layout

- `src/` is the library, with its contracts and proofs:
  - `json.rs`: JSON values and their mathematical model;
  - `node.rs`: nodes and the schema-driven tree builder, default values;
  - `paths.rs`: changing the tree at a dotted path;
  - `state.rs`: the editor state and its operations;
  - `buffer.rs`: the text edit buffer (characters, byte cursor);
  - `event.rs`: which operation a key performs;
  - `value.rs`: the JSON value of an edited tree;
  - `layout.rs`: what a frame draws (cells, scrolling, cursor);
  - `text.rs`: strings, paths, UTF-8 widths, decimal integers;
  - `round_trip.rs`: depths of a built tree, and reading it back;
  - `laws.rs`: properties across operations (navigation, filtering,
    toggles, edits and what the value reads back).
- `app/` connects the library to `schemars`, `serde_json`, `crossterm`
  and `ratatui`: conversions, the key adapter, the `SchemaTree` widget
  and a demo.
- `tests/` exercises the library on concrete values.

Key bindings: `j`/`Down` and `k`/`Up` move, `l`/`Right` expands, `h`/`Left`
collapses, `Enter`/`Space` toggle or edit, `Delete`/`Backspace` clear an
optional, `Esc` cancels an edit.
