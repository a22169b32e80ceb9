# teleport

Directory portals: named shortcuts to directories, aware of git worktrees.

The library under `src/` is written in Verus and verified:

- `text` — character-level string helpers (order, substrings, whitespace, joining, padding).
- `path` — Unix paths as strings: components, joining, `~` expansion and collapse.
- `portals` — the portal table, kept sorted by name.
- `config` — settings and the portal table together; adding, removing, finding broken portals.
- `fzf` — the lines shown by the picker and the listings, and reading the picker's answer.
- `resolve` — reading git's output, the worktree context of a portal, the picker's worktree order.
- `history` — which directories the visit history leaves out, and how searches match entries.
- `cli` — the decisions of the command-line tool.

`app/` holds the command-line program around it: argument parsing, the configuration file,
running git and fzf, and the SQLite visit history.
