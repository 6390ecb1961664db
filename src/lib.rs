//! Cache-first processing of conversation day-chunks through an external
//! analysis service, with tolerant normalization of the service's replies.

pub mod text;
pub mod json;
pub mod normalize;
pub mod keys;
pub mod cache;
pub mod batch;
pub mod config;
