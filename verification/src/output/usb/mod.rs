//! Native DSD over USB: finding the DAC's own path, claiming it, and pacing it.

pub mod config;
pub mod descriptors;
pub mod device;
pub mod session;
pub mod stream;
