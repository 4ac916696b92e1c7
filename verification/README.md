# young_tableau_rs

Integer partitions, Young diagrams and tableaux, SU(N) dimensions, and the decomposition
of tensor products. Every function of the library is verified by Verus against its
contract, except four small trusted wrappers around calls into `num-rational`,
`num-traits`, `rayon` and std's `String`.

- `partition`: partitions, their validation, containment and the list of all partitions
  of `n` in decreasing lexicographic order.
- `diagram`, `cell`: diagrams, cells, arms, legs, hooks, contents, conjugates.
- `filling`: the values written into cells (a finite map from cells).
- `tableau`, `enumeration`: tableaux, the standard check, and the backtracking search
  that lists every standard tableau of a shape.
- `render`, `text`: the box-drawing pictures of diagrams and tableaux.
- `dimension`, `fraction`: the hook length count and SU(N) dimensions as fractions in
  lowest terms (through `num-rational`).
- `skew`, `lr_rule`: skew shapes, reading words, lattice words, Littlewood-Richardson
  coefficients and the tensor product decomposition (coefficients computed with `rayon`),
  and the constructive decomposition that adds the letters of `mu` as horizontal strips
  under the lattice condition (the generalized Pieri rule).
- `words`: words over `1..=m` in lexicographic order, the search space of the
  backtracking searches.

`app/main.rs` is a small program that prints examples; `tests/` holds the tests.
