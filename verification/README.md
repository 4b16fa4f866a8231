# pmg

A program that infers the parameters of the Galaxy by optimising over its
parametric model, with its decision logic verified in Verus.

- `src/` is the verified library. Floating-point quantities (relative
  discrepancies, costs) reach it as order keys: `u64` values that compare as
  the values they stand for. On those it selects outliers (one- and
  four-dimensional algorithms, and the older discrepancy check), sorts stably,
  brackets local minima from derivative signs, keeps the bookkeeping of the
  parameter vectors, names the profile files and schedules the samples of the
  fit. The laws of these operations are public proof functions next to them.
- `app/` is the command-line program around it: argument parsing, reading the
  input, root finding for the outlier thresholds, conversion of values to keys
  and back, and output.
- `tests/` runs the library on concrete values.
