# dem_cfd

Coupling package for unresolved (void-fraction, Euler–Lagrange) DEM↔CFD
simulations on GRASS, with its decision and data-layout logic verified in Verus.

- `src/` — the verified library:
  - `routing`: fixed-size little-endian particle and force records, routing of
    particles to their field owners and of forces back to their DEM owners,
    identity checks on delivery, and the deterministic grouping of returned
    force contributions by particle. Floating-point values travel as their
    IEEE-754 bit patterns.
  - `bed`: the FCC lattice sites of a packed bed (in quarters of the lattice
    constant) and the clamping of a rounded coordinate onto an axis of cells.
  - `drag`: the seam mode and the drag closure it selects.
  - `seam`: the order and names of the parent coupling phases.
  - `config`: the `[mesh]` block and its default ghost width.
- `app/` — everything around it: the floating-point drag closures and
  references, the bed plumbing on the FIELD mesh, the `f64` face of routing
  and the summation of grouped forces, and the SOIL/FIELD seam scaffold.
- `tests/` — tests of the library.
