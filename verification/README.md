# Rank-1 constraint systems for flattened programs

A verified library that turns flattened arithmetic programs into rank-1
constraint systems: one constraint `(A . w) * (B . w) = C . w` per statement,
over a witness `w` whose first entry is the constant one.

- `src/field.rs`: the `Field` trait and `FieldPrime`, the prime field of order
  21888242871839275222246405745257275088548364400416034343698204186575808495617.
- `src/absy.rs`: expressions, statements and programs, with their
  mathematical model `ExprModel`.
- `src/r1cs.rs`: linear combinations of sums (`count_variables_add`), moving
  subtractions across an equation (`swap_sub`), the constraint of one equation
  (`r1cs_expression`) and of a whole program (`r1cs_program`).

The contracts state which rows are produced, and that under every witness
the constraint holds exactly where the equation does (`swap_sub` keeps the
meaning of an equation, see `lemma_swap_sub_equation`).
