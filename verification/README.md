# bigfile-gui

A desktop viewer for bigfile archives (`.bfn`, `.bfdb` and `.bfdata`): it
shows the archive's entries as a tree of directories and files, previews the
selected file as an image, and extracts the whole archive or the selection.

- `src/` is the verified library: the tree built from the entries' paths
  (`tree`), paths and their longest common prefix (`path`), the viewer's state
  and its decisions — selection, dialogs, enabled actions, extraction targets,
  preview cache (`state`) — and the ordering of names and the texts shown
  (`text`). Every function there carries a contract that Verus proves.
- `tests/` runs the library on concrete values.
- `app/` is the window: egui drawing, file dialogs, the bigfile reader and
  the file system, all calling into the library for what they decide.
