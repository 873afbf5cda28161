# sway_layout

A declarative layout manager for the Sway window manager. Workspace layouts
are JSON trees of containers (`splith`, `splitv`, `tabbed`, `stacking`) whose
leaves are app commands; the program launches the apps, recognises their
windows and arranges them into the declared tree.

## Layout

- `src/` — the verified library (Verus). Every function carries a contract.
  - `text` — character-level string helpers: decimal notation, `u32`
    parsing, substring search, word splitting, string order, joining.
  - `json` — the JSON document model the rest of the library reads.
  - `config` — layout trees built from definitions, the apps they launch,
    the startup sequence and profile files.
  - `ipc` — the Sway IPC message framing and the meaning of Sway's replies
    and events.
  - `proc` — recognising a launched window by walking its process's
    ancestors for the spawn wrapper's command line.
  - `layout` — the Sway commands that arrange windows into a tree, window
    tracking, free workspace numbers, occupied workspaces, profile listing,
    plans and the layout daemon's decisions.
  - `shortcuts`, `spawn`, `cli` — keybinding lines, the wrapper's shell
    command and arguments, the command-line model.
- `app/` — the program around the library: command-line parsing, file and
  socket I/O, process spawning, signals, and the event loops.
- `tests/` — tests of the library on concrete values.

## Files

Definitions live in `~/.config/sway/layouts/`:

- `<name>.json` is either a single layout definition (run into the next free
  workspace number) or a profile, `{"shortcut": ..., "workspaces": {"1": ...}}`.
- `startup.json` lists the startup sequence: each entry is a definition name,
  or `{"name": ..., "shortcut": ...}`; entry `i` goes to workspace `i + 1`.
