# heat-spectral

Heat diffusion on weighted graphs.

- `src/` is the verified library (Verus): the graph as adjacency lists with
  its Laplacian cache, the mathematical model of those lists and the laws of
  adding and removing edges, the unit-weight generators of the classic graph
  families, the argument checks behind every error, and the column bookkeeping
  of the eigendecomposition. Weights are a type parameter.
- `app/` is the program around it: everything that computes with `f64`
  (Laplacian entries, the Jacobi eigendecomposition, exact spectral and Euler
  time steps, Chebyshev heat kernels, Fiedler values, the experiments), the
  error type with its messages, and the serde forms.
- `tests/` exercises the library on concrete values.
