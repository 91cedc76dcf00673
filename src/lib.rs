//! Merging of several contract interface descriptions into one, with an
//! include/exclude policy over the merged functions.

pub mod args;
pub mod copy;
pub mod discovery;
pub mod doc;
pub mod filter;
pub mod engine;
pub mod flatten;
pub mod laws;
pub mod member;
pub mod merger;
pub mod order;
pub mod task_params;
