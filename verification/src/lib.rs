//! Verified numeric core for battery state-of-charge estimation.
//!
//! Telemetry readings are turned into labeled feature vectors, a small
//! feed-forward network is trained by online gradient descent, and the
//! trained model can be snapshotted to a bounded byte buffer.  All
//! quantities are exact fixed-point values in micro-units (one millionth),
//! so every computation has a precise mathematical contract.
pub mod fixed;
pub mod metrics;
pub mod network;
pub mod pipeline;
pub mod rng;
pub mod snapshot;
pub mod telemetry;
pub mod train;
