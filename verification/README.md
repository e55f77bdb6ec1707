# elliptic_curve_ops

Elliptic curve arithmetic over prime fields, for curves in short Weierstrass
form y² = x³ + ax + b over GF(p), verified with Verus.

- `src/modular.rs`: modular reduction, `mod_pow`, the extended Euclidean
  algorithm (`extended_gcd`, `mod_inverse`), Euclid's lemma and the
  Tonelli-Shanks square root `mod_sqrt`.
- `src/residues.rs`: binomial coefficients, Fermat's little theorem, the bound
  on the roots of a polynomial modulo a prime, and Euler's criterion.
- `src/curve.rs`: `Point` and `EllipticCurve` with the chord-tangent addition,
  scalar multiplication (kP as the k-fold sum, computed through the period of
  P), point and curve orders, point enumeration and compression.
- `src/cancellation.rs`: (Q + P) + (-P) = Q on a non-singular curve over an
  odd prime field, and from it, by counting, that every curve point has an
  order no larger than the curve order.
- `src/laws.rs`: the group laws that are proved (identity, inverse, closure,
  commutativity), scalar multiplication as repeated addition and its
  periodicity, the bound on the curve order and the compression round trip.

Every operation states its result over mathematical integers; `%` in the
specifications is the Euclidean remainder, as `rem_euclid` computes it.
