# spreadsheet

A terminal spreadsheet whose cells hold integer formulas (constants, cell
references, `+ - * /`, `MIN MAX SUM AVG STDEV` over ranges, `SLEEP`), with
undo/redo, a dependency graph that refuses cyclic formulas, and a vim-style
full-screen editor (`--vim`).

The library under `src/` is verified with Verus:

- `text`, `convert` — decimal numbers, white space, column names (`A`..`ZZZ`).
- `parser` — the command grammar, stated as `parse_command`.
- `excel` — a smaller command language (`A1 = B2 + 3`, `print A1`, `exit`),
  stated as `excel_op`.
- `formulas`, `evaluation` — what each formula gives (`eval_cell`).
- `list`, `chains`, `graph_model` — the node pool of the dependency lists.
- `graph`, `dfs`, `deps`, `recompute` — cycle detection and recomputation;
  `install_result` states what an update does.
- `session` — commands with undo/redo; its invariant says that every cell
  holds what its formula gives and that no cell depends on itself.
- `sheet` — the cells and the part of them on screen.
- `vim` — the editor as a state machine from keys to editor states.
- `line_editor` — two small modal editors of text lines (plain and chart).
- `compare`, `sc_inputs`, `vector` — a file comparison tool, a converter to
  `sc` input, and a small integer vector.

`app/` holds the terminal programs: the prompt loop, the editor's screen,
and the file reading of the tools.
