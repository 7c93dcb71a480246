//! Reading proof-of-capacity plot files: the identity written in a plot's file
//! name, and the plan of seeks and reads that streams its scoop planes.

pub mod identity;
pub mod plot;
mod random;
