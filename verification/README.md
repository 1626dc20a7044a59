# finite_poly

Polynomials over the integers modulo a fixed `ORDER` (a finite field when `ORDER` is prime),
verified with Verus.

- `src/math/field_element.rs`: residues modulo `ORDER` and their arithmetic (sum, difference,
  product without overflow, powers, inverses by the extended Euclidean algorithm).
- `src/math/polynomial.rs`: polynomials stored as trimmed coefficient vectors; sum, negation,
  difference, product, evaluation, long division and Lagrange interpolation.
- `src/math/algebra.rs`: the mathematical model (coefficient sequences and the operations on
  them) that the contracts are written in.
- `src/math/evaluation.rs`, `src/math/laws.rs`: properties that span several operations, such
  as evaluation of sums and products, uniqueness of division and the interpolation property.
- `src/math/modular.rs`: greatest common divisors, primes and modular inverses.
- `app/main.rs`: a small program that adds field elements and prints the result.
