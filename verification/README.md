# oxireg

A terminal regex debugger for large local files. The verified library in
`src/` holds the logic; `app/` is the terminal program around it.

## Layout

- `src/explain.rs` – the pattern explainer (a recursive-descent walk over
  the pattern, one line per construct).
- `src/regex_debug.rs` – regex flags, compilation, capture descriptions and
  line highlighting (which byte ranges get which group colour).
- `src/match_index.rs` – the background scan's per-chunk work
  (`process_chunk`) and the match index that applies the chunks' batches in
  chunk order, with navigation between matching lines.
- `src/frequencies.rs` – capped value counts per capture group and the
  ranking of the busiest group's values.
- `src/export.rs` – JSON, CSV and text export records.
- `src/file_view.rs` – the line index of the viewed file and the shown
  lines.
- `src/app.rs` – the screen state and what each key, click and paste does.
- `src/ui.rs` – labels and the groups panel listing.
- `src/text.rs` – character-sequence helpers and UTF-8 lengths.
- `app/` – terminal setup, file reading, scan threads, export files and
  drawing with ratatui.

Every public function in `src/` carries a contract proved by Verus; the
calls into the `regex` crate and into std's string formatting go through a
few trusted wrappers whose contracts are stated next to them.

## Value counts

The value counts per capture group are keyed by strings (group names and
captured values). They are held as listings sorted by key, `Vec`s of
key–count pairs, rather than as `BTreeMap<String, _>`: Verus's
specification of `BTreeMap` describes its contents only for keys whose
order it knows, which are integers, not `String`. With sorted listings the
contracts state exactly which values a group holds, how a count grows and
when a new value is refused at the cap. The pending batches of the match
index are keyed by chunk index, an integer, and stay in a `BTreeMap`.
