//! Verified core of a time-series toolkit: the index, window and selection
//! logic behind moving averages, seasonal decomposition, change-point
//! detection, anomaly detection, smoothing forecasts and telemetry filtering.

pub mod anomaly;
pub mod arima;
pub mod changepoint;
pub mod decomposition;
pub mod series;
pub mod smoothing;
pub mod telemetry;
