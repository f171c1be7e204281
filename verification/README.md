# ariadnetor

Index logic of a tensor-network library, with its contracts proved by Verus:
Einstein-notation parsing and contraction planning, label interning, the
validation of contraction inputs, strides and axis permutations of dense
blocks, and the integer side of block-sparse tensors (fused-leg tuples,
block pairing, the gather and scatter of blocks into per-sector matrices,
cross-sector truncation counts, leg compatibility checks).

Layout:

- `src/` — the verified library. Each module states its model in spec
  functions; public proof functions named `law_*` state properties that
  relate several operations (a read-back undoing a write, a permutation
  composed with another, a parsed expression passing validation).
- `tests/` — executable tests of the library.
- `app/` — the host layer: floating-point scalars and norms, the CPU
  backend's numerical kernels on `faer`, the dense contraction driver, the
  floating-point steps of truncation and scaling, a process-wide label
  interner, and error types with `Display`.

What is not here as a whole operation: the block-sparse operations
themselves — fusing legs, contraction, partial trace, the SVD, QR and LQ
factorisations, eigendecomposition, linear solves, permutation, diagonal
scaling and the matrix exponential of a block-sparse tensor. Each of them
runs on a block-sparse tensor type and on a `Sector` trait (quantum
numbers, their fusion and their duals) that belong to sibling crates of
the tensor framework, and those crates are not part of this project. What
the library holds of these operations is their integer logic, each with
its contract: the fused-leg tuples, the pairing of blocks for a
contraction, the gather and scatter of blocks, the trace plan and the leg
checks of a contraction and a trace, the weight checks of a diagonal
scaling and the per-sector truncation counts. Sectors enter that logic as
integers naming them, and where an error message prints a sector, the
caller hands in its printed form.
