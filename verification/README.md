# trellis_core

The verified core of Trellis, a renderer for Mermaid diagrams that lays
nodes out on a routing grid and chooses where edges leave and enter them.
Every function in `src/` carries a contract that Verus proves, and the
properties that span several functions are public proof functions beside
the code they speak of.

## Layout

- `src/` — the verified library, one module per stage:
  - `placement/`: cycle breaking and layering, ordering within layers,
    row flow, overlap search, snapping to the grid, subgraph ownership;
  - `grid`: the routing grid and its parameters (cell size, safety
    margin, maximum degree);
  - `ports/`: port slots on node sides — the Trellis Basic strategy,
    straight-edge pinning, spreading ends over sides, crossing counts and
    their reduction, the Auto strategy's decision tree;
  - `labels/`: label sizes, segments, candidate positions and collisions;
  - `deadlock/`: freeing and restoring cells, finding blocking edges;
  - `render/`: SVG text helpers, word wrapping, markers and colours;
  - `config`, `model`, `pipeline`, `debug`: settings, diagram vocabulary,
    errors and the debug log's records.
- `tests/` — tests of the library on concrete values.
- `app/` — the unverified shell: pixel geometry in floating point (angles,
  centres, coordinates), configuration files through serde, PNG output
  through resvg. It hands the library integers and reads its decisions.

Geometry in the library is in whole pixels or grid cells; where the
renderer works with fractional pixels, the library takes integer
stand-ins (ranks of positions, rounded sizes) and states exactly what it
does with them.
