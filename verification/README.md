# rusty-series

A time-series toolkit (decomposition, ARIMA, exponential smoothing, change
points, anomalies, spectral analysis, telemetry) split in two parts:

- `src/` — the verified library. It holds the integer logic of the toolkit,
  each function with a Verus contract, and proof functions for the laws that
  tie them together: moving-average windows, per-season counts, PELT
  candidate pruning and change-point read-back, stable ordering of change
  points, quartile and median positions, isolation-tree index splits, the
  seasonal offsets of smoothing forecasts, model evaluation ranges, and the
  selection of telemetry events by metric kind.
- `app/` — the numerical layer in ordinary Rust: every computation on `f64`
  values (statistics, fitting, forecasting, the Fourier spectrum, random
  isolation-tree splits), calling the library for the logic above, and the
  serde-enabled `TimeSeries` type.
