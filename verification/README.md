# within

Verified core of a fixed-effects solver: least squares on categorical factors,
solved iteratively and preconditioned by additive Schwarz over factor pairs.

- `src/` is the library. Verus proves its functions against their contracts; the
  few calls into rayon, ndarray and std's sorts state theirs where they are made.
  It is generic over the scalar; `arithmetic::Arithmetic` supplies the
  operations, and contracts say which operations are carried out and in which
  order. Proof functions named `law_*` state what holds of the library as a
  whole, for exact arithmetic where rounding would matter.
- `tests/` runs the library with `f64`.
- `app/` holds the Python bindings and what is floating point or
  serialization: the iterative method, local factorizations, stored preconditioners.

Modules of `src/`:

| Module | Contents |
|---|---|
| `domain` | designs, row orderings, singleton removal, cross-tabs, components, subdomains and their weights |
| `operator` | gather/scatter, the design operator, preconditioner handles, laws of the fit |
| `elimination`, `block_elim` | block selection, star sampling, edge merging, compensated sums |
| `schwarz_precond` | subdomain entries, scheduling, buffers, the additive apply |
| `solver`, `orchestrate`, `layout` | solves, batches and their laws, coefficient addresses |
| `python` | decisions of the bindings on plain values |
| `parallel` | the calls into the thread pool |
