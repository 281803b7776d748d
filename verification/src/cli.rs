//! The computations behind the command-line front ends: what they decide
//! and format, apart from the files and the network they talk to.

pub mod crawl;
pub mod hatcher_boost;
