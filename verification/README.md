# truthmill

A verifier and cost evaluator for tensor programs in SSA form, written in
Verus. Programs are validated against a problem declaration, expanded into
exact polynomials of tensor products, and brought into a canonical form modulo
dummy index renaming, factor order, term order and the signed symmetries that
the problem declares for its tensors. Two programs are equivalent when their
outputs have equal canonical forms. A candidate's cost is counted exactly as a
polynomial in the domain sizes.

Layout:

- `src/` is the verified library. `model` holds the program types, `validate`
  the well-formedness rules, `expand` the expansion into polynomials, `symmetry`
  the signed permutation groups, `canon` the canonical forms, `verify` the
  equivalence check, `cost` the FLOP counts and `text` the messages. The laws
  about canonical forms live in `invariance`, `term_order` and `fixed_point`,
  and those about validated programs in `validity`. Coefficients are exact rationals of any size
  (`Coefficient::new`, `from_signed_bytes`, `numer_bytes`, `denom_bytes`), computed
  by `num-rational` behind the trusted wrappers of `rational`. `independence`
  states what validation does not read.
- `tests/` exercises the library on concrete programs.
- `app/` holds what the library cannot: the floating-point cost estimate and the
  standard `Display` and `Error` impls.
