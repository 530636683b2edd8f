//! Time-series chart engine core: columnar trace storage, range and point
//! queries over it, nearest-trace selection, and the adaptive grid that sums
//! stacked layers sampled at different x coordinates.
//!
//! x coordinates are integers. Sample values are of a type the caller picks.
//! The stores only move them; a point query between two samples hands both
//! back (`batch::PointValue::Between`). Stacking computes with them through
//! `adaptive_grid::StackValue`, whose contract states each operation.

use vstd::prelude::*;

pub mod adaptive_grid;
pub mod batch;
pub mod bundle;
pub mod closest;
pub mod color;
pub mod constant_batch;
pub mod handles;
pub mod range;
pub mod search;
pub mod style;

verus! {

} // verus!
