# sheaf_laplacian

Cellular sheaves on graphs, verified with Verus.

- `src/matrix.rs`: a dense row-major `Matrix<T>` over any copyable element
  type: construction, indexed reads and writes, transposition.
- `src/sheaf.rs`: the structure of a sheaf (stalk dimensions, edges whose
  restriction maps have the shape their end stalks call for), the dimensions
  of C⁰ and C¹ and the offsets of their blocks.
- `src/assembly.rs`: the coboundary operator and the connection Laplacian as
  ordered lists of contributions (cell, term, assign or add), with laws on
  where each edge's contributions fall.
- `app/`: the `f64` layer: matrix arithmetic, filling in the values of an
  assembly, the sheaf Laplacian, Hodge decomposition, diffusion and
  consensus.
