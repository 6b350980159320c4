# jview

A terminal viewer for JSON files far larger than memory, with its logic verified by
Verus. A document is mapped, not parsed: a tree node is a byte range, its children are
scanned when it is opened, and only the rows on screen are ever produced.

- `src/` is the verified library. Every function states in its contract what it returns;
  the contracts speak of mathematical models of the values (`NodeV`, `PaneV`, `AppV` and
  the like), and the promises that span functions are proved as public proof functions
  whose names begin with `law_`.
- `app/` is the program around it: the terminal, files and pipes, threads, and the
  floating-point sums, none of which decide anything that the library could.
- `tests/` runs the library with the real outside crates.

| Module | What it holds |
| --- | --- |
| `scanner`, `json` | finding values in raw bytes; what that has to do with JSON |
| `tree`, `rows`, `paths` | the lazy tree, the rows of its open part, paths through it |
| `unfolding`, `reopening`, `showing`, `finding`, `landing` | what opening nodes, searching and jumping bring about |
| `search`, `filter`, `program`, `selection` | matching and jq-style selection, and its grammar |
| `schema`, `names`, `outline`, `columns`, `table` | inferred types, their outline, tables |
| `pane`, `keys`, `prompts`, `session`, `control` | panes, the workspace, and what a key does |
| `input`, `stream`, `extract`, `clip`, `numbers` | prompts, streams, and what leaves the viewer |
| `layout`, `overlay`, `paint`, `cards` | what stands on the screen |
| `text`, `worker`, `channel` | strings, and what background walks report to |
