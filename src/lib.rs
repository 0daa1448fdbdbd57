//! Packaging audit of mod containers: path normalisation, extension and
//! pairing analysis, the class hierarchy forest and its rendering, the
//! auto-verification table, and the cross-mod ownership index.
use vstd::prelude::*;

pub mod asset;
pub mod classify;
pub mod hierarchy;
pub mod lint;
pub mod order;
pub mod owners;
pub mod paths;
pub mod report;
pub mod text;
pub mod tree;
