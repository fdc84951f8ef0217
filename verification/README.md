# fastlap

Solvers for the linear assignment problem (minimum-cost bipartite matching,
bottleneck assignment, ranked k-best assignments) exposed to Python.

## Layout

- `src/` — the verified library. Every function carries a `requires` /
  `ensures` contract proved by Verus:
  - `algorithms` — the solver names and their capabilities;
  - `matrix`, `types` — shape and finiteness checks, padding to square,
    CSR row adjacency and the padded sparse adjacency;
  - `assignment` — the model of an assignment and a matching, inversion,
    trimming, cost-limit gating, index forms, and the matching updates of
    the auction and cost-scaling methods;
  - `matching`, `bottleneck` — Hopcroft-Karp maximum matching and the
    bottleneck search over cost levels;
  - `greedy` — the greedy assignment over cost ranks;
  - `murty` — the partition of a subproblem in Murty's k-best method;
  - `augment`, `network` — augmenting-path bookkeeping of the
    shortest-path solvers and of the successive-shortest-path network;
  - `simplex`, `basis` — the spanning-tree basis of the network simplex,
    its pivots, tree paths and traversal order;
  - `munkres` — the star/prime marking machine of the Kuhn-Munkres method.
- `app/` — the Python extension module (pyo3, numpy, rayon, sprs) and the
  floating-point parts of the solvers, which call into the library for
  their combinatorial steps.
- `tests/` — tests of the library on concrete values.
