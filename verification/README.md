# sae_support

A sparse dictionary of curved atoms. Every row of a target matrix is explained by a
few atoms of its own support; each atom maps a low-dimensional chart coordinate
through a basis and a decoder to an image. The crate holds the logic of fitting
such a term, stated in contracts and proved with Verus.

- `scalar`, `fixed`, `matrix`, `rounding`: the arithmetic everything is written
  over, a verified fixed-point number type, dense matrices, and the bounds that
  survive rounding.
- `atom`, `assignment`, `term`, `coordinates`, `layout`, `active`: the data.
- `objective`, `stationarity`, `arrow`, `operator`: the objective, its slope, and
  its Gauss-Newton system in arrow form.
- `spectral`, `sweep`, `coloring`, `row_solve`, `fixed_point`: the solves.
- `router`, `selection`, `reroute`, `unroll`: which atoms a row uses, and which
  loops are cut open.
- `hyper`, `pooling`: smoothing strengths and prior precisions.
- `evidence`: checks on cached factors and smoothers.
- `exact`, `peaks`, `gram`, `quadratic`: real sums, largest values and forms, for
  laws that hold of exact arithmetic. `forms`, `gradients`, `scaling`, `repetition`,
  `descent` and `steps` state such laws of the operator, of the assembled system, of
  the measures and of the decoder updates.

Basis functions, eigendecompositions and trust-region steps are computed outside
and handed in as plain values; where they alternate with decisions, the decisions
are a state machine. `app/` drives the library with floating-point numbers.
