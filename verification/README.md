# multilinear

Multilinear polynomials in coefficient form, over any field: evaluation at points of the field,
of an extension and of the binary hypercube, folding, and the passage to univariate polynomials
and to lists of values.

- `src/` is the library, verified with Verus. `field.rs` says what a field is, `algebra.rs` what
  a polynomial is worth at a point, `poly_utils/` holds the polynomials, `laws.rs` what holds
  between the operations. Evaluation and folding run on several threads with `rayon`;
  `parallel.rs` holds what is believed of it.
- `app/` gives the fields of `ark_ff` to the library and exchanges polynomials with `ark_poly`.
- `tests/` runs the library on its own fields and on those of arkworks.
