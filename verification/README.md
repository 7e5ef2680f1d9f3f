# legendre

A verified framework for time-dependent partial and stochastic differential equations
on block-decomposed structured grids, uniform or adaptively refined.

## Layout

- `src/` is the library, verified by Verus: every body but those of the trusted calls
  below is checked against its contract.
  - `engine`: number types, storage, blocked state and its vector algebra, stochastic
    drivers, schedulers, the simulation loop, observation, Monte Carlo statistics, and
    the notion of exact arithmetic that some laws are stated in.
  - `geometry`: index arithmetic, views, Cartesian grids, boundary conditions and halo
    exchange; under `amr`, clustering, patch hierarchies, prolongation, restriction,
    migration and regridding.
  - `discretization`: operators, stencils and the policies that build them.
  - `integrators`: forward Euler, Euler-Maruyama, fourth-order Runge-Kutta, an
    implicit-explicit Euler scheme, and subcycling on refined grids.
  - `physics`: the model trait, stochastic volatility, optimal market making, and
    phase-field solidification.
  - `io`: the layout of snapshot tables and field statistics.
  - `util`: the counter-based random number generator and text helpers.
- `app/` is ordinary Rust around the library: the double-precision number type, Parquet
  files, the background snapshot pipeline and the progress display.
- `tests/` runs the library on concrete values.

## What is proved

Contracts are exact: they say what each function returns or changes, operation by
operation in the number type where numbers are concerned. Public proof functions state
the laws that span functions, among them that a step does not depend on the scheduler,
also across regrids, that noise is a function of seed, time, driver, block and cell,
that ghost fills keep interiors, that planned hierarchies are properly nested, and
that clusters partition the flags they cover. In exact arithmetic, elimination solves
its linear system, prolongation reproduces linear fields, restriction and mirrored
diffusion conserve, the explicit schemes amplify a linear mode by their polynomial, the
implicit half of the value equation is stable and monotone, and inventories stay within
their bounds.

Trusted are the calls into `rayon` (parallel iteration and the thread count),
`parking_lot` (the lock of the scratch pool), `String::leak` and
`Vec::into_boxed_slice`. What a lock holds is not known, so handing a scratch instance
back promises nothing. Number types, models, observers and tagging criteria come from
users: what is proved holds of those that meet the contracts of their traits.
