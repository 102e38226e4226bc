# constraint-solver

A verified core for solving systems of nonlinear equations. Residuals are built
as symbolic expressions, compiled once, differentiated symbolically, and driven
to zero by damped Newton steps with a backtracking line search. Square,
underdetermined and overdetermined systems are solved by the same least-squares
decomposition.

Every function of the library carries a contract, and Verus proves all of them
but those of the few calls listed under "What is taken on trust".

## Layout

- `src/` is the library.
  - `rounding`, `binary64`: binary64 numbers as bit patterns, with operations
    proved to round correctly.
  - `scaled`, `accuracy`: products and quotients carried beyond the exponent
    range, and how close they are to exact ones.
  - `elementary`, `text`: the functions and decimal texts that the caller
    supplies.
  - `exp`, `compiler`, `meaning`, `rewriting`, `folding`, `calculus`: expressions,
    their compiled form, evaluation, simplification and derivatives.
  - `grid`, `matrix`, `least_squares`, `sweeps`, `spectrum`, `alignment`: dense
    matrices, least squares by a one-sided Jacobi decomposition, and what its
    rotations, its diagnostics and the residual cosine keep to.
  - `vectors`, `minimum_norm`: the decomposition over the real numbers.
  - `jacobian`, `merit`, `named`, `report`, `mode`: parts of a solver run.
  - `newton`: what a run does, as relations between states.
  - `solver`: the solver.
  - `guarantees`, `repeatable`: what every run certifies.
- `tests/` runs the library with the platform's functions.
- `app/` is a thin layer over `f64` and standard maps.

## What is proved

- Arithmetic is correctly rounded, ties to even. Scaled quotients of products
  err by no more than one rounding for each factor, and half of the smallest
  magnitude below the normal numbers.
- Compiling keeps the meaning of expressions under named values.
- The symbolic derivative of an expression is its slope wherever each function
  in it has its textbook slope, and vanishes for a variable that it does not hold.
- With functions that answer alike arguments alike, simplification keeps every
  finite value, unless a sum or a difference of two infinities that is not
  dropped becomes indeterminate.
- In exact arithmetic the rotations of the decomposition keep its factors
  together, its result is the shortest vector of least residual, and that of the
  ridge system minimizes the ridge objective. Rounding is not part of this.
- A solution is a root: the norm of the scaled residuals at the returned values
  is the reported error and within tolerance. The history of norms never rises,
  parameters keep their values, and updates stay within their limit.
- A failure reports the state that was reached, with the residual of every
  equation.
- With repeatable functions, runs from the same guess end alike in every mode.

## What is taken on trust

- `rayon`: that a pool has the number of threads asked for, up to the limits of
  the crate, and that running a closure in a pool returns what the closure
  returned.
- The standard library: the debug text of a list of strings is a function of the
  strings, and converting a value to its own type returns it.

Elementary functions are not trusted: contracts hold whatever they return.
