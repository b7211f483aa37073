# h3o

The integer core of the H3 hexagonal grid system, written in Verus: the
64-bit cell, directed edge and vertex indexes, their resolutions and
directions, and the algorithms that work on the bits alone, each with a
contract that Verus proves.

## Layout

- `src/` — the verified library.
  - `resolution.rs`, `base_cell.rs`, `direction.rs`, `error.rs`: the small
    value types.
  - `index/bits.rs`, `index/bitvec.rs`: the bit fields of an index, with the
    bit-vector facts they rest on; the low-level routines of `h3o_bit` are
    called through specifications stated there.
  - `index/cell.rs`, `index/edge.rs`, `index/vertex.rs`, `index/mode.rs`:
    the index types, whose invariant is the validity of their bits.
  - `index/rank.rs`, `index/position.rs`: the position of a cell among the
    children of one of its ancestors (`child_position`, `child_at`).
  - `index/count.rs`: how many children a cell has, and how many cells a
    resolution has.
  - `index/order.rs`: the order of the cells of a resolution (`succ`,
    `pred`).
  - `index/uncompact.rs`, `index/compact.rs`: expanding cells into their
    children, and compacting complete sets of children into their parents.
  - `index/iterator/`: the children of a cell, and the outline of a cell's
    children at a finer resolution (`Gosper`).
  - `index/display.rs`, `text.rs`: the textual forms of the indexes.
  - `geom/`: the configuration types of the geometry tools.
- `tests/` — the tests, run against the compiled library.
- `app/` — what stays outside the verified library: `serde` forms of the
  library types and the floating-point average metrics of the resolutions.

The laws that relate several functions are public proof functions whose
names start with `law_`.

## What is not here

The operations that move across the grid are not part of this library:
`grid_disk`, `grid_ring_fast`, `grid_distance`, `grid_path_cells`,
`is_neighbor_with`, the edge between two cells, the destination and cells of
a directed edge, the vertexes of a cell and `VertexIndex::try_from` (which
checks that a vertex is owned by the right cell), local IJ coordinates,
icosahedron faces and cell boundaries. They all stand on the base cell
neighbour tables, the neighbour rotations and the face/IJK coordinate
system, which this code base does not hold; the floating-point geometry
(coordinates, areas, polygon tiling, boundaries) is left out as well.
For the same reason, the outline walked by `Gosper` is stated as the exact
sequence of edges that the walk produces, but not as geometric facts about
it (that its edges are all different, that their destinations lie outside
the cell, that consecutive edges meet): those would need the neighbours of
a cell.
