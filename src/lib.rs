//! Ingest of multi-frame XYZ molecular-dynamics trajectories into an SQL
//! store: a streaming reader of the text, batched INSERT statements with
//! quoted text, and a content digest that lets an unchanged input be skipped.

pub mod batch;
pub mod digest;
pub mod error;
pub mod finite;
pub mod frames;
pub mod model;
pub mod sql;
pub mod store;
pub mod text;
pub mod xyz;
