//! Progressive search of a sorted stream of breached-password hashes.

pub mod account;
pub mod agreement;
pub mod batch;
pub mod entry;
pub mod flags;
pub mod matcher;
pub mod order;
pub mod report;
pub mod step;
pub mod stream;
pub mod text;
