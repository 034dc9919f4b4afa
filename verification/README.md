# simplex

The big-M simplex method for linear programmes

    optimise c·x  subject to  A x <= b,  A_eq x = b_eq,  x >= 0,

where `b` may hold negative entries (a `>=` constraint multiplied by `-1`).

`src/` is a Verus library. It is generic over the number type of the
tableau: the caller supplies its constants, its arithmetic and an order key
for each value (`field::Field`), so every step of the method—building the
tableau, the big-M terms, the choice of pivot, pivoting, the basis—is verified
against an exact contract in terms of those operations.

`app/` is the command-line program: it reads the problem from standard input
into `ndarray` arrays, supplies `f64` arithmetic, repeats the simplex step
until the tableau is optimal, and prints the tableaux.

`tests/` runs the library on `f64` problems.
