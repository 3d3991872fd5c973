# parallel_labs

Verified kernels of a series of laboratory works on parallel programming,
with the programs that drive them.

- `src/` is the library, verified with Verus:
  - `lab1`: matrix-vector product (serial, and per stripe of rows), the
    distribution of rows among processes and their displacements, the
    checks on the size read from the user, the error type;
  - `lab2`: matrix-matrix product, test data, size checks for a process grid;
  - `lab3`: the share of rows of each process;
  - `lab5`: Floyd's all-pairs shortest paths, with the proof that on
    non-negative weights it computes shortest walks;
  - `flat`: arithmetic facts on row-major indices; `rng`: the random
    generator of `rand` as the test data uses it.
- `app/` holds what the library leaves out: reading sizes, printing,
  message passing with MPI, timing, and the Gauss elimination on `f64`.
- `tests/` exercises the library on concrete data.
