//! MediaSift: media discovery, exact-duplicate review, date-based organizing
//! and the state rules of the desktop workflow, with their contracts.

pub mod text;
pub mod paths;
pub mod media;
pub mod sorting;
pub mod dates;
pub mod pathset;
pub mod groups;
pub mod progress;
pub mod reports;
pub mod review;
pub mod naming;
pub mod hashing;
pub mod actions;
pub mod cache;
pub mod workspace;
pub mod session;
pub mod keepset;
pub mod scanner;
pub mod pixels;
