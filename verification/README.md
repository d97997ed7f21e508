# mctx

A verified library for `.mctx` memory-context files: a one-line header, a `%%INDEX` block
listing every section with its tier, version and exact byte offset, then the section blocks.

```
#mctx v1.1 | updated:2026-08-08
%%INDEX
identity:!fixed:v1:0000000082
%%END-INDEX
%%@identity !fixed v:1
user{alias,role}:
  "devil2","student/builder"
%%END
```

## Layout

- `src/store.rs` — `Store`: open, reload, locate, read, write, checkpoint, rebuild the index.
  The store works on the file's bytes handed to it and hands back the bytes to store.
- `src/layout.rs`, `src/writer.rs` — the byte layout: reading the index and a section,
  marker lines, section blocks, the index rebuild and the update-or-append of one section.
- `src/store_laws.rs` — what holds of files made of a header, an index block and section
  blocks, which is every file that valid writes make from a header line: exact offsets, a
  rebuild that repairs any stale index, a write read back as written, every other section
  untouched.
- `src/rebuild_laws.rs` — the rebuild on a header, one index block (whatever its rows) or none,
  and any body: header and body kept byte for byte, one row per marker line at the line's
  offset, idempotent once rebuilt.
- `src/read_laws.rs` — a read depends only on the section's own lines, up to the first line
  starting `%%END`.
- `src/readback_laws.rs` — what a read gives back of a write, on any file the write is defined
  on.
- `src/write_laws.rs`, `src/frame_facts.rs` — a write on any file whose index matches its body:
  the written section reads back, every other section keeps its row, fields and content.
- `src/buffer.rs`, `src/buffer_laws.rs` — the editor's text buffer and its laws.
- `src/notepad.rs`, `src/notepad_laws.rs` — the terminal notepad's key handling as a state
  machine, and what it promises (a save loads back as saved, `q` keeps unsaved work).
- `src/date.rs` — civil dates from day counts, and the file header.
- The other modules hold the byte-level facts the proofs rest on.
- `app/main.rs` — the terminal notepad and the command line: files, keys, drawing.
- `tests/` — scenarios for the store, the buffer and the notepad.
