# snd_review

The model of the snd-review audio editor as a library verified with Verus:
the clip timeline and its edits, the edit history with undo, redo and jumps,
markers and regions, the document's selection and caret as they follow the
edits, the playback session's transport decisions, the keymap, the project
file envelope and the FLAC header.

## Layout

- `src/` — the verified library. Each module states its contracts over
  mathematical models (`Seq`, `Map`, `Set` and spec functions); the laws that
  span several operations are public proof functions named `law_*`.
  - `tree.rs`, `clip.rs` — the timeline: a balanced rope of clips shared
    between snapshots.
  - `edl.rs`, `edit_op.rs`, `edit_ranges.rs` — the edit history and how
    points and ranges move through each edit.
  - `composition.rs` — edits on the timeline, the clipboard, markers and the
    project file.
  - `document.rs` — selection, caret, regions and region drags, and the edit
    commands as they act on the selection.
  - `playback.rs`, `playhead.rs`, `transport.rs`, `anchors.rs` — playback
    decisions; the audio engine is driven by the caller.
  - `readout.rs` — the texts for times, sizes and edits, computed in
    integers to print what the `f64` values print.
  - `markers.rs`, `media.rs`, `block_cache.rs`, `keymap.rs`, `commands.rs`,
    `session.rs`, `explorer.rs`, `flac.rs`, `rfc3339.rs`, `snap.rs` and the
    smaller modules.
- `tests/` — tests run against the compiled library.
- `app/` — a command-line front end: file reading, JSON, and what works
  on floating-point samples and durations.

## Checking

Verus verifies `src/`; `cargo test` runs `tests/`.
