# difff

A side-by-side diff viewer for text files. Statements that differ only in
formatting (how they are wrapped or spaced, their line endings, their
indentation, the kind of quotes, or the Unicode composition of their
characters) are shown as formatting rows, apart from real changes, and
"Ignore formatting" hides them; changed lines get character-level highlights.

## Layout

- `src/` is the library, verified with Verus:
  - `changes.rs`: the line and character change lists computed by the
    `similar` crate, and what is stated of them;
  - `diff.rs`: the rows of the side-by-side view (`process_diff`), their
    numbering, formatting detection, highlights and counts (`calc_stats`);
  - `format.rs`, `normalize.rs`: how hunks are matched statement by statement
    and how bracketed text is normalised (`semantic_normalize`);
  - `highlight.rs`: character ranges from a character diff (`char_diff_ranges`);
  - `properties.rs`: properties of the rows that hold for every input;
  - `recents.rs`: the list of recently compared pairs and its file format;
  - `render.rs`: the text and styled spans of each line of a panel;
  - `session.rs`: the state of a comparison, pasted file names, counter texts;
  - `text.rs`: character helpers (`str::lines`, splitting, white space).
- `app/` is the GTK program around the library: windows, dialogs, drag and
  drop, the clipboard, colours and the recents file on disk.
- `tests/` runs the library on concrete inputs.
