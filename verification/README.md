# todo-tui

A terminal to-do list (ratatui + SQLite) whose items form a tree at most three levels
deep, grouped in up to five project tabs, with a five-step undo.

- `src/` is the verified core, proved with Verus: the tree (`outline`), ordering
  (`reorder`), the on-screen list and its highlight (`listing`), the decisions behind
  each command (`plans`, `nesting`), project tabs (`projects`), undo history (`undo`),
  key bindings (`keys`), text layout (`wrap`, `display`), dates (`dates`), input text
  (`text`) and the clipboard fallback order (`clipboard`).
- `app/` is the program around it: the SQLite store, the terminal event loop and
  drawing, the command line and the clipboard processes.
- `tests/` runs the library on concrete cases, including every list command played
  on an in-memory table.
