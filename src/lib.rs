//! An in-memory file pipeline: files read from a source tree flow through an
//! ordered chain of middleware and are then laid out under a destination tree.
//!
//! The library holds the pipeline's logic: the file entity and its metadata,
//! the relative-path rules, the middleware runner, the glob-based ignore
//! filter and the planning of the writes. Reading and writing the disk is left
//! to the caller, which hands the library plain values.

pub mod config;
pub mod entity;
pub mod error;
pub mod ignore;
pub mod metadata;
pub mod paths;
pub mod pipeline;
pub mod writer;

pub use config::RunConfig;
pub use entity::SimpleFile;
pub use error::PipelineError;
pub use ignore::{ignore, Ignore};
pub use metadata::Metadata;
pub use pipeline::{create_middleware, run_middleware, Middleware};
pub use writer::{plan_writes, run_pipeline, WriteOp};
