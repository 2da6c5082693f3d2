# bite

The logic of the BITE image-workflow editor as a verified library: every function in `src/`
carries a `requires`/`ensures` contract that Verus proves.

- `src/` — the verified library, one module per concern: the session log and its viewer
  (`logging`, `log_window`, `calendar`), picture headers and file names (`header`, `paths`),
  the importer's thumbnail cache and its ImageMagick commands (`thumbnails`, `magick`,
  `words`), the preview target and graph searches (`preview`), inspector and canvas rules
  (`inspector`, `selection`, `layout`, `nodes`), the menu and its shortcuts (`menu`),
  fonts, textures, window placement and timer reports (`font`, `texture`, `persist`,
  `timings`), and the toolkit's plain value types (`widgets`).
- `tests/` — the behaviour the editor promises, run against the compiled library.
- `app/` — the plumbing Verus does not see: the process-wide log and its file, the timer
  switch, the session file, and the disk and process work of an import.
