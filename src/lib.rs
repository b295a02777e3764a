//! A small toolkit around dense integer matrices: a dot-product engine, a
//! row-major matrix store, the dispatch, worker and assembly steps of a
//! worker-pool multiplication, and key-to-counter metric stores.

pub mod error;
pub mod matrix;
pub mod metrics;
mod text;
pub mod vector;

pub use error::{MathError, MetricsError};
pub use matrix::{
    assemble, dispatch_plan, multiply, process, products_fit, work_item, worker_for, Matrix,
    MatrixModel, MsgInput, MsgOutput,
};
pub use metrics::amap::AmapMetrics;
pub use metrics::cmap::CmapMetrics;
pub use metrics::Metrics;
pub use vector::{dot_product, Vector};
