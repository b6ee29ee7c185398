# lector

A read-only document viewer's library: a file tree that is read lazily from
disk and kept in step with it, Markdown, org-mode and reStructuredText
rendered as styled terminal lines (or as HTML for a browser view), code
outlines, file browsing and completion, the navigation of the terminal
viewer, and what the desktop viewer's commands decide (which tree a path
opens on, where a link leads).

- `src/` — the library, verified with Verus. Each module opens with a short
  description; the contracts state what each function computes, and the
  `lemma_*` proof functions state properties that hold across calls.
- `tests/` — tests of the library on concrete inputs.
- `app/` — the terminal viewer `clector`: terminal set-up, reading files,
  the platform file watcher, drawing with ratatui, the TOML configuration
  and the SQLite stores.
