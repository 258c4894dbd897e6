# g2_isogeny

Verified building blocks for the study of supersingular (2,2)-isogeny graphs of
principally polarized abelian surfaces: finite fields, genus-2 and elliptic
curves, theta null-points and their (2,2)-isogenies, polynomials, strongly
connected components and reachability on the good-extension graphs.

The library under `src/` is written in Verus, and Verus proves every function
there against its contract. The exceptions are the small wrappers around
`deepsize`, `sysinfo` and `rand`, whose contracts are trusted. The two functions that
read the process's memory (`get_physical_mem_bytes`, `get_virtual_memory_bytes`)
state nothing of the figure the system reports.

- `modular`: primes, modular arithmetic, Euler's criterion and Fermat's little
  theorem.
- `monoid`: powers in a commutative monoid and square-and-multiply.
- `fq`: the prime field `Fp` and its quadratic extension `Fp2` (inverses,
  Tonelli–Shanks square roots).
- `fp4`: the quartic extension `Fp4` and its field laws.
- `poly`: polynomials over `Fp`: arithmetic (with the commutative-monoid laws
  of multiplication), long division with a unique remainder, Euclid's
  algorithm, powers and powers modulo a polynomial.
- `curves`, `rosenhain`: Legendre forms of elliptic curves, Rosenhain forms of
  genus-2 curves and their Igusa invariants.
- `theta`: squared theta null-points, symplectic transformations and
  (2,2)-isogenies over `Fp4` and `Fp2`.
- `graph`: Tarjan's strongly connected components and the condensed graph.
- `good_extension`: the merged good-extension graph: parallel isogenies become
  one node, and a transition is kept only when every merged isogeny has it as a
  good extension.
- `reachability`: marked edges, their interning, and reachability between
  pairs of surfaces through them.
- `ssg`: surfaces over `Fp4` told apart by their Igusa invariants: those of
  the surface of a theta null-point, and their lookup among known surfaces.
- `ssg_walk`, `ssg_explore`: the breadth-first exploration of the
  supersingular, non-superspecial (2,2)-isogeny graph over `Fp4` from one
  surface, the count check against `number_of_ssg_nodes`, and its merged
  good-extension graph (`compute_ssg_good_extension_graph`).
- `ssg_graph`: whether the kept transitions of a good-extension graph lead to
  nodes that occur.
- `good_paths`: the search for good paths from and to the main strongly
  connected component, and the connectivity analysis
  (`check_ge_path_connectivity`).
- `ssg_start`, `ssg_random`: the starting curve: `y^2 = x^5 - 1` for
  `p = 2, 3 (mod 5)`, and otherwise a random quintic with a nonzero,
  nilpotent Cartier–Manin matrix and no repeated root, whose roots in `Fp4`
  give the Rosenhain form.
- `poly_roots`: evaluation of polynomials over `Fp` and their roots in `Fp`.
- `counting`: the expected numbers of vertices of the graphs.
- `utils`: memory readings, sorted-list intersection, the analysis records and
  the summary of a connectivity analysis from its components.
- `report`: the text of the analysis report, numbers in decimal and lists.

`app/` holds what stays outside the proofs: writing CSV reports, locking the
output file, the serializable copies of the report rows, and the command-line
program for supersingular, non-superspecial graphs (`ssg_cli::run_ssg_ge_graph`:
argument handling, timing, printing and the CSV row). The tests under `tests/` run the library on concrete values.
