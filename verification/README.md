# mechanic_core

Rules of a construction game's mechanics, verified with Verus.

A construction is a set of parts on rigid grids, welded, linked and hinged
together, driven through wires from Controllers, and saved as a creation. The
library decides everything about it that does not need floating-point
arithmetic: which parts form one rigid body, which joints span the mechanism,
which drives reach which coordinates, what a saved creation describes, what an
edit changed, which teeth mesh, which contact points a manifold keeps.

Numbers are held by their bit patterns (`scalar`, `double`). Rules compare them
as IEEE 754 does, through `equal`, `less` and their kin; `==`, the identity of
joints and the laws on saving speak of the patterns themselves. What has to be
measured (masses, projections, gaps, frames) is handed in, and every rule holds
for whatever was measured.

## Layout

- `src/` the verified library.
  - `drive`, `gearbox`, `appearance`, `controller_input`, `label`: settings and
    controls.
  - `graph`, `arena`, `ids`, `ordered`, `parts`, `region`, `grid`: the editable
    construction.
  - `frame`, `framing`, `reframe`, `edit`: grids, moving between them, and what
    an edit changed.
  - `gear_link`, `gear_phase`: meshes and the order in which gears are phased.
  - `creation`: saving, loading, combining and placing creations.
  - `compile`, `dynamics`: compounds, joints, forests, drives and schedules.
  - `contact`, `scalar`, `double`: contact decisions and the numbers behind
    them.
- `tests/` examples that run the compiled library.
- `app/` ordinary Rust around it: vectors and quaternions, masses, collider and
  contact geometry, measured rows of a document, the file format and error
  messages.
