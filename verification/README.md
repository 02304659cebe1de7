# rb_synthesis

Logic synthesis, placement and routing for a compiler from a small
Verilog-like HDL to Minecraft redstone structures, verified with Verus.

## Layout

- `src/` — the verified library.
  - `ast`, `geom`, `text`, `error`: the HDL syntax tree, positions and
    boxes, decimal text, error types.
  - `lower`: XOR lowering to AND/OR/NOT; `optimize`: dead-gate elimination.
  - `netlist`, `graph`: netlist construction over `petgraph` graphs.
  - `cycle`: combinational-cycle detection; `timing`: static timing and
    data-race detection.
  - `cell_library`: the macro-cell of each primitive, physically sound.
  - `place`: the row placer and the moves and score of the annealing placer.
  - `grid3d`, `route`: the maze router (breadth-first, shortest routes,
    adjacency isolation, repeaters) and the cost-map router (A* with
    negotiated congestion).
  - `stages`: the decisions a run takes between its stages.
  - `pipeline`, `assemble`, `cli`, `budget`: the stages that join placement
    and routing, the final block grid, the command-line model and the
    memory cap.
- `tests/` — tests of the library.
- `app/` — the command-line program: argument parsing, file I/O, the
  annealing loop (floating point), diagnostics rendering, and the calls into
  the HDL parser and the schematic writer.

Laws of the library are public proof functions named `law_*`.
