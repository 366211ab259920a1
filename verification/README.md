# volesti-rs

Uniform sampling from convex polytopes `A x <= b` with the ball walk, and
portfolio tools built on it (cross-sectional scores, empirical copulas and a
crisis indicator).

- `src/` is the verified library (Verus). It holds every decision that does not
  depend on floating-point arithmetic: the errors, the constraint tables of the
  unit hypercube and the standard simplex, the burn-in / acceptance / thinning
  schedule of the ball walk, integer order keys for `f64` values, the ranks
  behind cross-sectional scores, and the cell counts of the copula grid. Laws
  such as "a finished walk holds exactly the requested samples", "every sample
  is the start point or an accepted candidate" and "the copula counts add up to
  the number of samples" are proved there.
- `app/` is the floating-point front end over `nalgebra` and `rand`: points,
  polytopes, random proposals, portfolio weights and copula masses. It calls
  the library for every decision listed above.
- `tests/` exercises the library.
