# herdr-scm

A read-only, multi-repo source-control overview panel for herdr: every git repo under the
current workspace, its branch and ahead/behind counts, every changed file, and a diff of the one
selected.

## Layout

- `src/` — the library, verified with Verus: repo discovery and kind classification, the
  porcelain v2 parser, the row tree and its cursor, key bindings, config resolution, the diff
  caps and terminal-control neutralization, the row and status-bar text, the frame geometry,
  the palette, the launcher's decision, and the panel controller. Each public function states
  what it returns in its contract; the `law_*` proof functions state what holds across calls.
- `app/` — the program around it: argv, the terminal, the background threads, and every
  outside service (git, herdr, the filesystem, the external diff renderer, the clipboard,
  `$EDITOR`). It hands the library plain values and performs the effects the controller
  returns.
- `tests/` — the library's tests, one file per module.
